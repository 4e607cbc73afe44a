//! Insertion keeps the invariant of an index, and as long as no list of the
//! lowest layer is cut back, it keeps that layer leading from every node to
//! every other.

use vstd::prelude::*;
use vstd::math::min;
use crate::beam::{
    Candidate, all_seen, beam_ok, candidate_ok, insert_at, key_of, lemma_insert_at, lemma_offer_ok,
    lemma_search_layer_ok, offer, precedes, search_layer,
};
use crate::error::Error;
use crate::graph::IndexView;
use crate::insert::{
    build_width, empty_lists, grew_by_one, grown, insert_outcome, inserted, lemma_grown_wf,
    lists_ok, plan,
};
use crate::level::{MAX_LEVEL, lemma_level_bound, level_of};
use crate::link::{
    attach, attach_layer, fresh, lemma_fresh_step, lemma_with_list_wf, linked_back, no_link,
    pending, with_list,
};
use crate::search::{
    descend, lemma_beam_ok_below, lemma_descend_ok, lemma_distinct_ids_bound, seed_of, top_layer,
};
use crate::select::{cands_ok, has_id, ids_ok, keeps, ranked, reselected, select};

verus! {

/// Whether two indexes differ in their lists of neighbours at most: they
/// have the same parameters, vectors and entry point, and every node is on
/// the same layers in both.
pub open spec fn same_shape(a: IndexView, b: IndexView) -> bool {
    &&& a.params == b.params
    &&& a.vectors == b.vectors
    &&& a.entry == b.entry
    &&& a.links.len() == b.links.len()
    &&& forall|i: int| 0 <= i < a.links.len() ==> (#[trigger] a.links[i]).len() == b.links[i].len()
}

/// Whether the node `i` has in `b` every neighbour on the lowest layer
/// that it has in `a`.
pub open spec fn keeps_base(a: IndexView, b: IndexView, i: int) -> bool {
    forall|x: usize| a.links[i][0].contains(x) ==> b.links[i][0].contains(x)
}

/// Whether every node has in `b` every neighbour on the lowest layer that it
/// has in `a`.
pub open spec fn grows_base(a: IndexView, b: IndexView) -> bool {
    forall|i: int| 0 <= i < a.links.len() ==> #[trigger] keeps_base(a, b, i)
}

/// Whether each of `list[..upto]` has `n` as a neighbour on the lowest layer.
pub open spec fn linked_back_from(g: IndexView, list: Seq<usize>, upto: int, n: usize) -> bool {
    forall|t: int|
        0 <= t < upto && t < list.len() ==> g.links[(#[trigger] list[t]) as int][0].contains(n)
}

/// The nodes of a beam are different nodes of its layer.
pub proof fn lemma_beam_cands_ok(g: IndexView, query: Seq<i16>, layer: int, beam: Seq<Candidate>)
    requires
        beam_ok(g, query, layer, beam),
    ensures
        cands_ok(g, layer, beam),
{
    assert forall|i: int| 0 <= i < beam.len() implies g.on_layer((#[trigger] beam[i]).id as int, layer) by {
        assert(candidate_ok(g, query, layer, beam[i]));
    }
    assert forall|i: int, j: int| 0 <= i < j < beam.len() implies (#[trigger] beam[i]).id != (
    #[trigger] beam[j]).id by {
        assert(candidate_ok(g, query, layer, beam[i]));
        assert(candidate_ok(g, query, layer, beam[j]));
        assert(precedes(beam[i], beam[j]));
    }
}

/// The neighbours selected are different candidates, no more than the cap;
/// the nearest candidate is among them unless the cap is zero.
pub proof fn lemma_select_ok(
    g: IndexView,
    layer: int,
    cands: Seq<Candidate>,
    cap: int,
    from: int,
    chosen: Seq<usize>,
)
    requires
        cands_ok(g, layer, cands),
        0 <= from <= cands.len(),
        ids_ok(g, layer, chosen),
        chosen.len() <= cap || chosen.len() == 0,
        forall|a: int| 0 <= a < chosen.len() ==> has_id(cands, from, #[trigger] chosen[a]),
    ensures
        ids_ok(g, layer, select(g, cands, cap, from, chosen)),
        select(g, cands, cap, from, chosen).len() <= cap || select(g, cands, cap, from, chosen).len() == 0,
        forall|a: int|
            0 <= a < select(g, cands, cap, from, chosen).len() ==> has_id(
                cands,
                cands.len() as int,
                #[trigger] select(g, cands, cap, from, chosen)[a],
            ),
        (chosen.len() >= 1 || from < cands.len()) && cap >= 1 ==> select(g, cands, cap, from, chosen).len()
            >= 1,
    decreases cands.len() - from,
{
    if from < cands.len() && chosen.len() < cap {
        let c = cands[from];
        let taken = chosen.push(c.id);
        assert forall|a: int| 0 <= a < chosen.len() implies has_id(cands, from + 1, #[trigger] chosen[a])
            && chosen[a] != c.id by {
            let j = choose|j: int| 0 <= j < from && j < cands.len() && (#[trigger] cands[j]).id == chosen[a];
            assert(cands[j].id != cands[from].id);
        }
        assert forall|a: int| 0 <= a < taken.len() implies has_id(cands, from + 1, #[trigger] taken[a]) by {
            if a == chosen.len() {
                assert(cands[from].id == taken[a]);
            } else {
                assert(taken[a] == chosen[a]);
            }
        }
        assert(ids_ok(g, layer, taken)) by {
            assert forall|i: int| 0 <= i < taken.len() implies g.on_layer((#[trigger] taken[i]) as int, layer) by {
                if i < chosen.len() {
                    assert(taken[i] == chosen[i]);
                }
            }
        }
        if keeps(g, chosen, c, 0) {
            lemma_select_ok(g, layer, cands, cap, from + 1, taken);
        } else {
            lemma_select_ok(g, layer, cands, cap, from + 1, chosen);
        }
    } else {
        assert forall|a: int| 0 <= a < chosen.len() implies has_id(
            cands,
            cands.len() as int,
            #[trigger] chosen[a],
        ) by {
            let j = choose|j: int| 0 <= j < from && j < cands.len() && (#[trigger] cands[j]).id == chosen[a];
            assert(cands[j].id == chosen[a]);
        }
    }
}

/// Whether `seen` marks the nodes `list[..upto]` and no others.
pub open spec fn marks(seen: Seq<bool>, list: Seq<usize>, upto: int) -> bool {
    forall|i: int|
        0 <= i < seen.len() ==> (#[trigger] seen[i] <==> exists|j: int| 0 <= j < upto && list[j] == i)
}

/// Ranking different nodes of a layer gives a beam of them in order.
pub proof fn lemma_ranked_ok(
    g: IndexView,
    base: Seq<i16>,
    layer: int,
    list: Seq<usize>,
    from: int,
    beam: Seq<Candidate>,
    seen: Seq<bool>,
)
    requires
        g.wf(),
        ids_ok(g, layer, list),
        0 <= from <= list.len(),
        beam_ok(g, base, layer, beam),
        beam.len() <= from,
        seen.len() == g.vectors.len(),
        all_seen(beam, seen),
        marks(seen, list, from),
        forall|i: int| 0 <= i < beam.len() ==> list.contains((#[trigger] beam[i]).id),
    ensures
        beam_ok(g, base, layer, ranked(g, base, list, from, beam)),
        forall|i: int|
            0 <= i < ranked(g, base, list, from, beam).len() ==> list.contains(
                (#[trigger] ranked(g, base, list, from, beam)[i]).id,
            ),
    decreases list.len() - from,
{
    if from < list.len() {
        let e = list[from];
        assert(g.on_layer(e as int, layer));
        let c = Candidate { key: key_of(g, base, e as int), id: e, open: true };
        assert(!seen[e as int]) by {
            if seen[e as int] {
                let j = choose|j: int| 0 <= j < from && list[j] == e as int;
                assert(list[j] != list[from]);
            }
        }
        let width = list.len() as int;
        lemma_offer_ok(g, base, layer, beam, seen, c, width);
        lemma_insert_at(beam, c, 0);
        let next = offer(beam, c, width);
        let marked = seen.update(e as int, true);
        assert(next == beam.insert(insert_at(beam, c, 0), c));
        assert forall|i: int| 0 <= i < next.len() implies list.contains((#[trigger] next[i]).id) by {
            let p = insert_at(beam, c, 0);
            if i < p {
                assert(next[i] == beam[i]);
            } else if i == p {
                assert(list[from] == e);
            } else {
                assert(next[i] == beam[i - 1]);
            }
        }
        assert(marks(marked, list, from + 1)) by {
            assert forall|i: int| 0 <= i < marked.len() implies (#[trigger] marked[i] <==> exists|j: int|
                0 <= j < from + 1 && list[j] == i) by {
                if i == e {
                    assert(list[from] == i);
                } else if seen[i] {
                    let j = choose|j: int| 0 <= j < from && list[j] == i;
                    assert(0 <= j < from + 1 && list[j] == i);
                } else if exists|j: int| 0 <= j < from + 1 && list[j] == i {
                    let j = choose|j: int| 0 <= j < from + 1 && list[j] == i;
                    assert(j < from);
                }
            }
        }
        lemma_ranked_ok(g, base, layer, list, from + 1, next, marked);
    }
}

/// The neighbours that a node keeps are among those it had, are different
/// nodes of the layer, and are no more than the cap.
pub proof fn lemma_reselected_ok(g: IndexView, id: int, layer: int, list: Seq<usize>)
    requires
        g.wf(),
        0 <= id < g.vectors.len(),
        ids_ok(g, layer, list),
    ensures
        ids_ok(g, layer, reselected(g, id, layer, list)),
        reselected(g, id, layer, list).len() <= g.cap(layer),
        forall|a: int|
            0 <= a < reselected(g, id, layer, list).len() ==> list.contains(
                #[trigger] reselected(g, id, layer, list)[a],
            ),
{
    let none = Seq::new(g.vectors.len(), |i: int| false);
    lemma_ranked_ok(g, g.vectors[id], layer, list, 0, Seq::empty(), none);
    let beam = ranked(g, g.vectors[id], list, 0, Seq::empty());
    lemma_beam_cands_ok(g, g.vectors[id], layer, beam);
    lemma_select_ok(g, layer, beam, g.cap(layer), 0, Seq::empty());
    let kept = reselected(g, id, layer, list);
    assert forall|a: int| 0 <= a < kept.len() implies list.contains(#[trigger] kept[a]) by {
        assert(has_id(beam, beam.len() as int, kept[a]));
        let j = choose|j: int| 0 <= j < beam.len() && j < beam.len() && (#[trigger] beam[j]).id == kept[a];
        assert(list.contains(beam[j].id));
    }
}

/// Linking a node back from a neighbour keeps the invariant, and changes
/// the list of that neighbour on that layer only.
pub proof fn lemma_linked_back_wf(g: IndexView, c: int, layer: int, n: usize)
    requires
        g.wf(),
        g.on_layer(c, layer),
        g.on_layer(n as int, layer),
        c != n,
        no_link(g, c, layer, n),
    ensures
        linked_back(g, c, layer, n).wf(),
        same_shape(g, linked_back(g, c, layer, n)),
        linked_back(g, c, layer, n) == with_list(g, c, layer, linked_back(g, c, layer, n).links[c][layer]),
{
    assert(g.list_ok(c, layer));
    let prior = g.links[c][layer];
    let list = prior.push(n);
    assert(ids_ok(g, layer, list)) by {
        assert forall|i: int| 0 <= i < list.len() implies g.on_layer((#[trigger] list[i]) as int, layer) by {
            if i < prior.len() {
                assert(g.on_layer(prior[i] as int, layer));
            }
        }
        assert forall|i: int, j: int| 0 <= i < j < list.len() implies list[i] != list[j] by {
            if j < prior.len() {
                assert(prior[i] != prior[j]);
            } else {
                assert(prior[i] != n);
            }
        }
    }
    assert forall|j: int| 0 <= j < list.len() implies (#[trigger] list[j]) != c by {
        if j < prior.len() {
            assert(g.on_layer(prior[j] as int, layer) && prior[j] != c);
        }
    }
    let kept = if list.len() > g.cap(layer) {
        reselected(g, c, layer, list)
    } else {
        list
    };
    if list.len() > g.cap(layer) {
        lemma_reselected_ok(g, c, layer, list);
        assert forall|j: int| 0 <= j < kept.len() implies (#[trigger] kept[j]) != c by {
            assert(list.contains(kept[j]));
        }
    }
    lemma_with_list_wf(g, c, layer, kept);
    let h = with_list(g, c, layer, kept);
    assert(h.links[c][layer] == kept);
}

/// Linking a node back from its neighbours on one layer keeps the
/// invariant and the lists of the node itself.
pub proof fn lemma_attach_layer_wf(g: IndexView, list: Seq<usize>, from: int, layer: int, n: usize)
    requires
        g.wf(),
        g.on_layer(n as int, layer),
        list == g.links[n as int][layer],
        0 <= from <= list.len(),
        fresh(g, n, layer, list, from),
    ensures
        attach_layer(g, list, from, layer, n).wf(),
        same_shape(g, attach_layer(g, list, from, layer, n)),
        attach_layer(g, list, from, layer, n).links[n as int] == g.links[n as int],
        fresh(attach_layer(g, list, from, layer, n), n, layer, list, list.len() as int),
    decreases list.len() - from,
{
    if from < list.len() {
        let c = list[from];
        assert(g.list_ok(n as int, layer));
        assert(g.on_layer(c as int, layer) && c != n);
        assert(pending(list, from, c as int)) by {
            assert forall|j: int| 0 <= j < from && j < list.len() implies (#[trigger] list[j]) != c by {
                assert(list[j] != list[from]);
            }
        }
        assert(no_link(g, c as int, layer, n));
        lemma_linked_back_wf(g, c as int, layer, n);
        let h = linked_back(g, c as int, layer, n);
        lemma_fresh_step(g, n, layer, list, from, h.links[c as int][layer]);
        assert(h.links[n as int] == g.links[n as int]);
        lemma_attach_layer_wf(h, list, from + 1, layer, n);
        let r = attach_layer(h, list, from + 1, layer, n);
        assert forall|i: int| 0 <= i < g.links.len() implies (#[trigger] g.links[i]).len() == r.links[i].len() by {
            assert(g.links[i].len() == h.links[i].len());
            assert(h.links[i].len() == r.links[i].len());
        }
    }
}

/// Linking a node back from its neighbours on the layers from `from` up
/// keeps the invariant and the lists of the node itself.
pub proof fn lemma_attach_wf(g: IndexView, lists: Seq<Seq<usize>>, from: int, n: usize)
    requires
        g.wf(),
        n < g.links.len(),
        lists == g.links[n as int],
        0 <= from <= lists.len(),
        from < lists.len() ==> fresh(g, n, from, lists[from], 0),
    ensures
        attach(g, lists, from, n).wf(),
        same_shape(g, attach(g, lists, from, n)),
        attach(g, lists, from, n).links[n as int] == lists,
    decreases lists.len() - from,
{
    if from < lists.len() {
        lemma_attach_layer_wf(g, lists[from], 0, from, n);
        let h = attach_layer(g, lists[from], 0, from, n);
        if from + 1 < lists.len() {
            assert forall|i: int, l: int|
                h.on_layer(i, l) && i != n && (l > from + 1 || (l == from + 1 && pending(lists[from + 1], 0, i)))
                    implies #[trigger] no_link(h, i, l, n) by {
                assert(l > from);
            }
        }
        lemma_attach_wf(h, lists, from + 1, n);
        let r = attach(h, lists, from + 1, n);
        assert forall|i: int| 0 <= i < g.links.len() implies (#[trigger] g.links[i]).len() == r.links[i].len() by {
            assert(g.links[i].len() == h.links[i].len());
            assert(h.links[i].len() == r.links[i].len());
        }
    }
}

/// The neighbours planned for a new node fit the index; on every layer that
/// is searched the node gets a neighbour unless the cap is zero.
pub proof fn lemma_plan_ok(
    g: IndexView,
    query: Seq<i16>,
    seeds: Seq<Candidate>,
    layer: int,
    lists: Seq<Seq<usize>>,
)
    requires
        g.wf(),
        -1 <= layer < lists.len(),
        layer >= 0 ==> beam_ok(g, query, layer, seeds),
        1 <= seeds.len() <= build_width(g),
        lists_ok(g, lists),
    ensures
        plan(g, query, seeds, layer, lists).len() == lists.len(),
        lists_ok(g, plan(g, query, seeds, layer, lists)),
        forall|l: int|
            0 <= l <= layer && g.cap(l) >= 1 ==> (#[trigger] plan(g, query, seeds, layer, lists)[l]).len() >= 1,
        forall|l: int|
            layer < l < lists.len() ==> (#[trigger] plan(g, query, seeds, layer, lists)[l]) == lists[l],
    decreases layer + 1,
{
    if layer >= 0 {
        lemma_search_layer_ok(g, query, layer, build_width(g), seeds);
        let beam = search_layer(g, query, layer, build_width(g), seeds);
        lemma_beam_cands_ok(g, query, layer, beam);
        lemma_select_ok(g, layer, beam, g.cap(layer), 0, Seq::empty());
        let chosen = select(g, beam, g.cap(layer), 0, Seq::empty());
        let next = lists.update(layer, chosen);
        assert(lists_ok(g, next)) by {
            assert forall|l: int| 0 <= l < next.len() implies (#[trigger] next[l]).len() <= g.cap(l) && ids_ok(
                g,
                l,
                next[l],
            ) by {
                if l != layer {
                    assert(next[l] == lists[l]);
                }
            }
        }
        if layer > 0 {
            lemma_beam_ok_below(g, query, layer, layer - 1, beam);
        }
        lemma_plan_ok(g, query, beam, layer - 1, next);
        let r = plan(g, query, beam, layer - 1, next);
        assert(r[layer] == next[layer]);
    }
}

/// Where the lowest layer has room for every node, linking a node back
/// takes no neighbour of the lowest layer away, and on the lowest layer it
/// adds the node to the neighbour's list.
pub proof fn lemma_linked_back_grows(g: IndexView, c: int, layer: int, n: usize)
    requires
        g.wf(),
        g.on_layer(c, layer),
        g.on_layer(n as int, layer),
        c != n,
        no_link(g, c, layer, n),
        g.cap(0) >= g.links.len(),
    ensures
        grows_base(g, linked_back(g, c, layer, n)),
        layer == 0 ==> linked_back(g, c, layer, n).links[c][0].contains(n),
{
    let h = linked_back(g, c, layer, n);
    let prior = g.links[c][layer];
    let list = prior.push(n);
    assert(g.list_ok(c, layer));
    assert forall|i: int| 0 <= i < list.len() implies (#[trigger] list[i]) < g.links.len() by {
        if i < prior.len() {
            assert(g.on_layer(prior[i] as int, layer));
        }
    }
    assert forall|i: int, j: int| 0 <= i < j < list.len() implies list[i] != list[j] by {
        if j < prior.len() {
            assert(prior[i] != prior[j]);
        } else {
            assert(prior[i] != n);
        }
    }
    lemma_distinct_ids_bound(list, g.links.len() as int);
    assert forall|i: int| 0 <= i < g.links.len() implies #[trigger] keeps_base(g, h, i) by {
        if i == c && layer == 0 {
            assert(h.links[i][0] == list);
            assert forall|x: usize| prior.contains(x) implies list.contains(x) by {
                let at = choose|at: int| 0 <= at < prior.len() && prior[at] == x;
                assert(list[at] == x);
            }
        } else {
            assert(h.links[i][0] == g.links[i][0]);
        }
    }
    if layer == 0 {
        assert(list[list.len() - 1] == n);
    }
}

/// Where the lowest layer has room for every node, linking a node back from
/// its neighbours on one layer takes no neighbour of the lowest layer away,
/// and on the lowest layer it adds the node to the list of each of them.
pub proof fn lemma_attach_layer_grows(g: IndexView, list: Seq<usize>, from: int, layer: int, n: usize)
    requires
        g.wf(),
        g.on_layer(n as int, layer),
        list == g.links[n as int][layer],
        0 <= from <= list.len(),
        fresh(g, n, layer, list, from),
        g.cap(0) >= g.links.len(),
    ensures
        grows_base(g, attach_layer(g, list, from, layer, n)),
        layer == 0 ==> forall|t: int|
            from <= t < list.len() ==> attach_layer(g, list, from, layer, n).links[(#[trigger] list[t]) as int][0].contains(
                n,
            ),
    decreases list.len() - from,
{
    if from < list.len() {
        let c = list[from];
        assert(g.list_ok(n as int, layer));
        assert(g.on_layer(c as int, layer) && c != n);
        assert(pending(list, from, c as int)) by {
            assert forall|j: int| 0 <= j < from && j < list.len() implies (#[trigger] list[j]) != c by {
                assert(list[j] != list[from]);
            }
        }
        assert(no_link(g, c as int, layer, n));
        lemma_linked_back_wf(g, c as int, layer, n);
        lemma_linked_back_grows(g, c as int, layer, n);
        let h = linked_back(g, c as int, layer, n);
        lemma_fresh_step(g, n, layer, list, from, h.links[c as int][layer]);
        assert(h.links[n as int] == g.links[n as int]);
        lemma_attach_layer_grows(h, list, from + 1, layer, n);
        lemma_attach_layer_wf(h, list, from + 1, layer, n);
        let r = attach_layer(h, list, from + 1, layer, n);
        assert forall|i: int| 0 <= i < g.links.len() implies #[trigger] keeps_base(g, r, i) by {
            assert(keeps_base(g, h, i));
            assert(keeps_base(h, r, i));
        }
        if layer == 0 {
            assert forall|t: int| from <= t < list.len() implies r.links[(#[trigger] list[t]) as int][0].contains(
                n,
            ) by {
                if t == from {
                    assert(keeps_base(h, r, c as int));
                }
            }
        }
    } else {
        assert forall|i: int| 0 <= i < g.links.len() implies #[trigger] keeps_base(g, g, i) by {}
    }
}

/// Where the lowest layer has room for every node, linking a node back from
/// its neighbours takes no neighbour of the lowest layer away, and adds the
/// node to the list of each of its neighbours there.
pub proof fn lemma_attach_grows(g: IndexView, lists: Seq<Seq<usize>>, from: int, n: usize)
    requires
        g.wf(),
        n < g.links.len(),
        lists == g.links[n as int],
        0 <= from <= lists.len(),
        from < lists.len() ==> fresh(g, n, from, lists[from], 0),
        g.cap(0) >= g.links.len(),
    ensures
        grows_base(g, attach(g, lists, from, n)),
        from == 0 ==> linked_back_from(attach(g, lists, from, n), lists[0], lists[0].len() as int, n),
    decreases lists.len() - from,
{
    if from < lists.len() {
        lemma_attach_layer_wf(g, lists[from], 0, from, n);
        lemma_attach_layer_grows(g, lists[from], 0, from, n);
        let h = attach_layer(g, lists[from], 0, from, n);
        if from + 1 < lists.len() {
            assert forall|i: int, l: int|
                h.on_layer(i, l) && i != n && (l > from + 1 || (l == from + 1 && pending(lists[from + 1], 0, i)))
                    implies #[trigger] no_link(h, i, l, n) by {
                assert(l > from);
            }
        }
        lemma_attach_grows(h, lists, from + 1, n);
        let r = attach(h, lists, from + 1, n);
        assert forall|i: int| 0 <= i < g.links.len() implies #[trigger] keeps_base(g, r, i) by {
            assert(keeps_base(g, h, i));
            assert(keeps_base(h, r, i));
        }
        if from == 0 {
            let base = lists[0];
            assert forall|t: int| 0 <= t < base.len() implies r.links[(#[trigger] base[t]) as int][0].contains(n) by {
                assert(g.list_ok(n as int, 0));
                assert(g.on_layer(base[t] as int, 0));
                assert(h.links[base[t] as int][0].contains(n));
                assert(keeps_base(h, r, base[t] as int));
            }
        }
    } else {
        assert forall|i: int| 0 <= i < g.links.len() implies #[trigger] keeps_base(g, g, i) by {}
    }
}

/// While the lowest layer has room for every node, an insertion leaves it
/// leading from every node to every other.
pub proof fn lemma_inserted_spanning(g: IndexView, vector: Seq<i16>, level: int)
    requires
        g.wf(),
        g.vectors.len() < usize::MAX,
        vector.len() == g.params.dimension,
        0 <= level <= MAX_LEVEL,
        g.spanning(),
        g.cap(0) > g.vectors.len(),
    ensures
        inserted(g, vector, level).spanning(),
{
    let n = g.vectors.len();
    if n > 0 {
        let top = top_layer(g);
        let seeds = seed_of(g, vector, g.entry);
        assert(g.on_layer(g.entry as int, top));
        assert(beam_ok(g, vector, top, seeds));
        lemma_descend_ok(g, vector, seeds, top, level);
        let landing = descend(g, vector, seeds, top, level);
        let none = empty_lists(level + 1);
        assert(lists_ok(g, none));
        lemma_plan_ok(g, vector, landing, min(level, top), none);
        let lists = plan(g, vector, landing, min(level, top), none);
        lemma_grown_wf(g, vector, lists);
        let h = grown(g, vector, lists);
        lemma_attach_wf(h, lists, 0, n as usize);
        lemma_attach_grows(h, lists, 0, n as usize);
        let r = attach(h, lists, 0, n as usize);
        let base = lists[0];
        assert(base.len() >= 1);
        assert(ids_ok(g, 0, base));
        assert forall|i: int| 1 <= i < r.links.len() implies #[trigger] r.has_parent(i) by {
            if i < n {
                assert(g.has_parent(i));
                let j = choose|j: int| 0 <= j < i && #[trigger] g.linked(i, j);
                assert(h.links[i] == g.links[i]);
                assert(h.links[j] == g.links[j]);
                assert(keeps_base(h, r, i));
                assert(keeps_base(h, r, j));
                assert(r.linked(i, j));
            } else {
                let j = base[0];
                assert(g.on_layer(j as int, 0));
                assert(r.links[n as int][0] == base);
                assert(base.contains(j));
                assert(r.links[j as int][0].contains(n as usize));
                assert(r.linked(i, j as int));
            }
        }
    }
}

/// An insertion into a well-formed index leaves a well-formed index, which
/// is the index it was with one node more.
pub proof fn lemma_inserted_wf(g: IndexView, vector: Seq<i16>, level: int)
    requires
        g.wf(),
        g.vectors.len() < usize::MAX,
        vector.len() == g.params.dimension,
        0 <= level <= MAX_LEVEL,
    ensures
        inserted(g, vector, level).wf(),
        grew_by_one(g, vector, level, inserted(g, vector, level)),
{
    let n = g.vectors.len();
    if n == 0 {
        lemma_grown_wf(g, vector, empty_lists(level + 1));
    } else {
        let top = top_layer(g);
        let seeds = seed_of(g, vector, g.entry);
        assert(g.on_layer(g.entry as int, top));
        assert(beam_ok(g, vector, top, seeds));
        lemma_descend_ok(g, vector, seeds, top, level);
        let landing = descend(g, vector, seeds, top, level);
        let start = min(level, top);
        let none = empty_lists(level + 1);
        assert(lists_ok(g, none));
        lemma_plan_ok(g, vector, landing, start, none);
        let lists = plan(g, vector, landing, start, none);
        lemma_grown_wf(g, vector, lists);
        let h = grown(g, vector, lists);
        lemma_attach_wf(h, lists, 0, n as usize);
        let r = attach(h, lists, 0, n as usize);
        assert forall|i: int| 0 <= i < n implies (#[trigger] r.links[i]).len() == g.links[i].len() by {
            assert(h.links[i] == g.links[i]);
            assert(h.links[i].len() == r.links[i].len());
        }
    }
}

/// Every insertion keeps the invariant: what it leaves is a well-formed
/// index, which is the index it was with one node more.
pub proof fn lemma_insert_keeps_invariant(g: IndexView, id: usize, vector: Seq<i16>, draw: u64)
    requires
        g.wf(),
        g.vectors.len() < usize::MAX,
    ensures
        match insert_outcome(g, id, vector, draw) {
            Ok(after) => {
                &&& after.wf()
                &&& grew_by_one(g, vector, level_of(draw, g.params.level_base) as int, after)
                &&& g.spanning() && g.cap(0) > g.vectors.len() ==> after.spanning()
            },
            Err(e) => e == Error::DimensionMismatch || e == Error::NotFound,
        },
{
    lemma_level_bound(draw, g.params.level_base);
    if insert_outcome(g, id, vector, draw) is Ok {
        lemma_inserted_wf(g, vector, level_of(draw, g.params.level_base) as int);
        if g.spanning() && g.cap(0) > g.vectors.len() {
            lemma_inserted_spanning(g, vector, level_of(draw, g.params.level_base) as int);
        }
    }
}

} // verus!
