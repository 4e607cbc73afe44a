//! A beam that is as wide as the index is large loses no node: the search
//! of a layer then ends with every node that the links lead to.

use vstd::prelude::*;
use vstd::set_lib::{lemma_int_range, lemma_len_subset, lemma_subset_equality, set_int_range};
use crate::beam::{
    BeamState, Candidate, all_seen, beam_ok, candidate_ok, closed, first_open, insert_at, key_of,
    lemma_first_open, lemma_insert_at, lemma_seeded, offer, opened, run, scan, search_layer, seeded,
};
use crate::graph::IndexView;
use crate::search::{ids_of, lemma_distinct_ids_bound};

verus! {

/// Whether the node `id` is in `beam`.
pub open spec fn in_beam(beam: Seq<Candidate>, id: int) -> bool {
    exists|i: int| 0 <= i < beam.len() && (#[trigger] beam[i]).id == id
}

/// The nodes of `beam` whose neighbours have been visited.
pub open spec fn shut_ids(beam: Seq<Candidate>) -> Set<int> {
    Set::new(|id: int| exists|i: int| 0 <= i < beam.len() && (#[trigger] beam[i]).id == id && !beam[i].open)
}

/// Whether the first `upto` neighbours of `id` on `layer` are marked.
pub open spec fn links_seen(g: IndexView, layer: int, seen: Seq<bool>, id: int, upto: int) -> bool {
    forall|t: int|
        0 <= t < upto && t < g.links[id][layer].len() ==> seen[(#[trigger] g.links[id][layer][t]) as int]
}

/// How many neighbours of the candidate `c` must be marked: all of them,
/// but for the node `busy`, whose neighbours are being visited, `upto`.
pub open spec fn due(g: IndexView, layer: int, c: Candidate, busy: int, upto: int) -> int {
    if c.id == busy {
        upto
    } else {
        g.links[c.id as int][layer].len() as int
    }
}

/// The state of a search whose beam has lost no node: every marked node is
/// in the beam, and the neighbours of every visited node are marked.
pub open spec fn full_state(
    g: IndexView,
    query: Seq<i16>,
    layer: int,
    s: BeamState,
    busy: int,
    upto: int,
) -> bool {
    &&& beam_ok(g, query, layer, s.beam)
    &&& all_seen(s.beam, s.seen)
    &&& s.seen.len() == g.vectors.len()
    &&& s.beam.len() >= 1
    &&& forall|id: int| 0 <= id < s.seen.len() && #[trigger] s.seen[id] ==> in_beam(s.beam, id)
    &&& forall|i: int|
        0 <= i < s.beam.len() && !(#[trigger] s.beam[i]).open ==> links_seen(
            g,
            layer,
            s.seen,
            s.beam[i].id as int,
            due(g, layer, s.beam[i], busy, upto),
        )
}

/// Whether every neighbour on `layer` of every node of `beam` is in `beam`.
pub open spec fn closed_under_links(g: IndexView, layer: int, beam: Seq<Candidate>) -> bool {
    forall|i: int, t: int|
        0 <= i < beam.len() && 0 <= t < g.links[(#[trigger] beam[i]).id as int][layer].len()
            ==> in_beam(beam, (#[trigger] g.links[beam[i].id as int][layer][t]) as int)
}

/// The nodes of a beam are different nodes of the index.
pub proof fn lemma_beam_ids(g: IndexView, query: Seq<i16>, layer: int, beam: Seq<Candidate>)
    requires
        g.wf(),
        beam_ok(g, query, layer, beam),
    ensures
        beam.len() <= g.vectors.len(),
        forall|i: int, j: int|
            0 <= i < beam.len() && 0 <= j < beam.len() && i != j ==> (#[trigger] beam[i]).id != (
            #[trigger] beam[j]).id,
        forall|i: int| 0 <= i < beam.len() ==> (#[trigger] beam[i]).id < g.vectors.len(),
{
    let ids = ids_of(beam);
    lemma_distinct_ids_bound(ids, g.vectors.len() as int);
}

/// A wide beam that is offered an unmarked node keeps every node.
pub proof fn lemma_offer_full(
    g: IndexView,
    query: Seq<i16>,
    layer: int,
    s: BeamState,
    c: Candidate,
    width: int,
    busy: int,
    upto: int,
)
    requires
        g.wf(),
        width >= g.vectors.len(),
        full_state(g, query, layer, s, busy, upto),
        candidate_ok(g, query, layer, c),
        c.open,
        !s.seen[c.id as int],
    ensures
        full_state(
            g,
            query,
            layer,
            BeamState { beam: offer(s.beam, c, width), seen: s.seen.update(c.id as int, true) },
            busy,
            upto,
        ),
        shut_ids(offer(s.beam, c, width)) == shut_ids(s.beam),
        forall|id: int| in_beam(s.beam, id) ==> in_beam(offer(s.beam, c, width), id),
{
    let beam = s.beam;
    let p = insert_at(beam, c, 0);
    lemma_insert_at(beam, c, 0);
    let grown = beam.insert(p, c);
    let seen = s.seen.update(c.id as int, true);
    // The grown beam holds different nodes, so that it is no longer than the index.
    let ids = ids_of(beam).push(c.id);
    lemma_distinct_ids_bound(ids, g.vectors.len() as int);
    assert forall|id: int| in_beam(beam, id) implies in_beam(grown, id) by {
        let i = choose|i: int| 0 <= i < beam.len() && (#[trigger] beam[i]).id == id;
        if i < p {
            assert(grown[i] == beam[i]);
        } else {
            assert(grown[i + 1] == beam[i]);
        }
    }
    assert forall|id: int| 0 <= id < seen.len() && #[trigger] seen[id] implies in_beam(grown, id) by {
        if id == c.id {
            assert(grown[p].id == id);
        }
    }
    assert forall|i: int| 0 <= i < grown.len() && !(#[trigger] grown[i]).open implies links_seen(
        g,
        layer,
        seen,
        grown[i].id as int,
        due(g, layer, grown[i], busy, upto),
    ) by {
        let j = if i < p {
            i
        } else {
            i - 1
        };
        assert(g.list_ok(beam[j].id as int, layer));
    }
}

/// Visiting the neighbours of a node with a wide beam keeps every node, and
/// leaves all those neighbours marked.
pub proof fn lemma_scan_full(
    g: IndexView,
    query: Seq<i16>,
    layer: int,
    width: int,
    busy: int,
    from: int,
    s: BeamState,
)
    requires
        g.wf(),
        width >= g.vectors.len(),
        g.on_layer(busy, layer),
        0 <= from <= g.links[busy][layer].len(),
        full_state(g, query, layer, s, busy, from),
    ensures
        full_state(
            g,
            query,
            layer,
            scan(g, query, width, g.links[busy][layer], from, s),
            busy,
            g.links[busy][layer].len() as int,
        ),
        shut_ids(scan(g, query, width, g.links[busy][layer], from, s).beam) == shut_ids(s.beam),
        forall|id: int|
            in_beam(s.beam, id) ==> in_beam(
                scan(g, query, width, g.links[busy][layer], from, s).beam,
                id,
            ),
    decreases g.links[busy][layer].len() - from,
{
    let list = g.links[busy][layer];
    if from < list.len() {
        let e = list[from];
        assert(g.list_ok(busy, layer));
        let next = if !s.seen[e as int] {
            let c = Candidate { key: key_of(g, query, e as int), id: e, open: true };
            lemma_offer_full(g, query, layer, s, c, width, busy, from);
            BeamState { beam: offer(s.beam, c, width), seen: s.seen.update(e as int, true) }
        } else {
            s
        };
        lemma_scan_full(g, query, layer, width, busy, from + 1, next);
    }
}

/// A search with a wide beam ends with a beam that has every neighbour of
/// each of its nodes, and every node that it started with.
pub proof fn lemma_run_full(
    g: IndexView,
    query: Seq<i16>,
    layer: int,
    width: int,
    s: BeamState,
    fuel: nat,
)
    requires
        g.wf(),
        width >= g.vectors.len(),
        full_state(g, query, layer, s, -1, 0),
        shut_ids(s.beam).len() + fuel >= g.vectors.len(),
    ensures
        beam_ok(g, query, layer, run(g, query, layer, width, s, fuel)),
        closed_under_links(g, layer, run(g, query, layer, width, s, fuel)),
        forall|id: int| in_beam(s.beam, id) ==> in_beam(run(g, query, layer, width, s, fuel), id),
    decreases fuel,
{
    let beam = s.beam;
    let n = g.vectors.len() as int;
    let i = first_open(beam, 0);
    lemma_first_open(beam, 0);
    lemma_int_range(0, n);
    lemma_len_subset(shut_ids(beam), set_int_range(0, n));
    if i < beam.len() && fuel == 0 {
        lemma_subset_equality(shut_ids(beam), set_int_range(0, n));
    }
    if i >= beam.len() {
        assert forall|a: int, t: int|
            0 <= a < beam.len() && 0 <= t < g.links[(#[trigger] beam[a]).id as int][layer].len()
                implies in_beam(beam, (#[trigger] g.links[beam[a].id as int][layer][t]) as int) by {
            assert(g.list_ok(beam[a].id as int, layer));
        }
    } else {
        let c = beam[i];
        let shut = BeamState { beam: beam.update(i, closed(c)), seen: s.seen };
        assert(full_state(g, query, layer, shut, c.id as int, 0)) by {
            assert forall|id: int| 0 <= id < shut.seen.len() && #[trigger] shut.seen[id] implies in_beam(
                shut.beam,
                id,
            ) by {
                let a = choose|a: int| 0 <= a < beam.len() && (#[trigger] beam[a]).id == id;
                assert(shut.beam[a].id == id);
            }
        }
        assert(shut_ids(shut.beam) =~= shut_ids(beam).insert(c.id as int));
        lemma_scan_full(g, query, layer, width, c.id as int, 0, shut);
        let next = scan(g, query, width, g.links[c.id as int][layer], 0, shut);
        lemma_run_full(g, query, layer, width, next, (fuel - 1) as nat);
    }
}

/// A search of a layer with a beam as wide as the index ends with a beam
/// that has every node it started from and every neighbour of each of its
/// nodes.
pub proof fn lemma_search_layer_full(
    g: IndexView,
    query: Seq<i16>,
    layer: int,
    width: int,
    seeds: Seq<Candidate>,
)
    requires
        g.wf(),
        beam_ok(g, query, layer, seeds),
        seeds.len() >= 1,
        width >= g.vectors.len(),
    ensures
        beam_ok(g, query, layer, search_layer(g, query, layer, width, seeds)),
        closed_under_links(g, layer, search_layer(g, query, layer, width, seeds)),
        forall|t: int|
            0 <= t < seeds.len() ==> in_beam(
                search_layer(g, query, layer, width, seeds),
                (#[trigger] seeds[t]).id as int,
            ),
{
    let none = BeamState { beam: Seq::empty(), seen: Seq::new(g.vectors.len(), |i: int| false) };
    lemma_seeded(g, query, layer, seeds, 0, none);
    let s = seeded(seeds, 0, none);
    assert(full_state(g, query, layer, s, -1, 0)) by {
        assert forall|id: int| 0 <= id < s.seen.len() && #[trigger] s.seen[id] implies in_beam(s.beam, id) by {
            let t = choose|t: int| 0 <= t < seeds.len() && (#[trigger] seeds[t]).id == id;
            assert(s.beam[t] == opened(seeds[t]));
        }
    }
    lemma_run_full(g, query, layer, width, s, g.vectors.len());
    assert forall|t: int| 0 <= t < seeds.len() implies in_beam(
        search_layer(g, query, layer, width, seeds),
        (#[trigger] seeds[t]).id as int,
    ) by {
        assert(s.beam[t] == opened(seeds[t]));
    }
}


/// From a node of a beam that has the neighbours of its nodes, the links to
/// earlier nodes lead to the first node.
pub proof fn lemma_reach_first(g: IndexView, query: Seq<i16>, beam: Seq<Candidate>, id: int)
    requires
        g.wf(),
        g.spanning(),
        closed_under_links(g, 0, beam),
        0 <= id < g.links.len(),
        in_beam(beam, id),
    ensures
        in_beam(beam, 0),
    decreases id,
{
    if id > 0 {
        assert(g.has_parent(id));
        let j = choose|j: int| 0 <= j < id && #[trigger] g.linked(id, j);
        lemma_reach_first(g, query, beam, j);
    }
}

/// From the first node the links to later nodes lead to every node.
pub proof fn lemma_reach_all(g: IndexView, query: Seq<i16>, beam: Seq<Candidate>, id: int)
    requires
        g.wf(),
        g.spanning(),
        closed_under_links(g, 0, beam),
        0 <= id < g.links.len(),
        in_beam(beam, 0),
    ensures
        in_beam(beam, id),
    decreases id,
{
    if id > 0 {
        assert(g.has_parent(id));
        let j = choose|j: int| 0 <= j < id && #[trigger] g.linked(id, j);
        lemma_reach_all(g, query, beam, j);
    }
}

/// In an index whose lowest layer leads from every node to every other, a
/// search of that layer with a beam as wide as the index ends with every
/// node of the index.
pub proof fn lemma_wide_beam_has_all(
    g: IndexView,
    query: Seq<i16>,
    width: int,
    seeds: Seq<Candidate>,
)
    requires
        g.wf(),
        g.spanning(),
        beam_ok(g, query, 0, seeds),
        seeds.len() >= 1,
        width >= g.vectors.len(),
    ensures
        beam_ok(g, query, 0, search_layer(g, query, 0, width, seeds)),
        search_layer(g, query, 0, width, seeds).len() == g.vectors.len(),
        forall|id: int| 0 <= id < g.vectors.len() ==> in_beam(search_layer(g, query, 0, width, seeds), id),
{
    let beam = search_layer(g, query, 0, width, seeds);
    let n = g.vectors.len() as int;
    lemma_search_layer_full(g, query, 0, width, seeds);
    lemma_reach_first(g, query, beam, seeds[0].id as int);
    assert forall|id: int| 0 <= id < n implies in_beam(beam, id) by {
        lemma_reach_all(g, query, beam, id);
    }
    lemma_beam_ids(g, query, 0, beam);
    // Every identifier is in the beam, so that the beam is no shorter than the index.
    let held = ids_of(beam).map_values(|x: usize| x as int);
    lemma_int_range(0, n);
    assert(set_int_range(0, n).subset_of(held.to_set())) by {
        assert forall|id: int| set_int_range(0, n).contains(id) implies held.to_set().contains(id) by {
            assert(in_beam(beam, id));
            let i = choose|i: int| 0 <= i < beam.len() && (#[trigger] beam[i]).id == id;
            assert(held[i] == id);
        }
    }
    lemma_len_subset(set_int_range(0, n), held.to_set());
    held.lemma_cardinality_of_set();
}

} // verus!
