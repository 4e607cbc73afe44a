//! The search of one layer: a bounded beam of the nearest nodes found,
//! grown from the nodes that it starts with along the layer's links.

use vstd::prelude::*;
use crate::graph::IndexView;
use crate::index::HnswIndex;
use crate::metric::{distance_key, ranking_key};

verus! {

/// A node met during a search: its distance key to the query, its
/// identifier, and whether its neighbours are still to be visited.
#[derive(Debug, Clone, Copy)]
pub struct Candidate {
    pub key: i128,
    pub id: usize,
    pub open: bool,
}

/// The order of a beam: by key, and by identifier where keys are equal.
pub open spec fn precedes(a: Candidate, b: Candidate) -> bool {
    a.key < b.key || (a.key == b.key && a.id < b.id)
}

/// The distance key of node `id` to `query`.
pub open spec fn key_of(g: IndexView, query: Seq<i16>, id: int) -> i128 {
    distance_key(g.params.metric, query, g.vectors[id]) as i128
}

/// Whether `c` is a node of `layer` with its own key.
pub open spec fn candidate_ok(g: IndexView, query: Seq<i16>, layer: int, c: Candidate) -> bool {
    g.on_layer(c.id as int, layer) && c.key == key_of(g, query, c.id as int)
}

/// Whether `beam` holds nodes of `layer` with their keys, in strict order.
pub open spec fn beam_ok(g: IndexView, query: Seq<i16>, layer: int, beam: Seq<Candidate>) -> bool {
    &&& forall|i: int| 0 <= i < beam.len() ==> candidate_ok(g, query, layer, #[trigger] beam[i])
    &&& forall|i: int, j: int|
        0 <= i < j < beam.len() ==> precedes(#[trigger] beam[i], #[trigger] beam[j])
}

/// Whether every node of `beam` is marked in `seen`.
pub open spec fn all_seen(beam: Seq<Candidate>, seen: Seq<bool>) -> bool {
    forall|i: int|
        0 <= i < beam.len() ==> (#[trigger] beam[i]).id < seen.len() && seen[beam[i].id as int]
}

/// The first position at or after `from` whose candidate does not precede `c`.
pub open spec fn insert_at(beam: Seq<Candidate>, c: Candidate, from: int) -> int
    decreases beam.len() - from,
{
    if 0 <= from < beam.len() && precedes(beam[from], c) {
        insert_at(beam, c, from + 1)
    } else {
        from
    }
}

/// `beam` with `c` put in its place, cut back to `width` candidates.
pub open spec fn offer(beam: Seq<Candidate>, c: Candidate, width: int) -> Seq<Candidate> {
    let grown = beam.insert(insert_at(beam, c, 0), c);
    if grown.len() > width {
        grown.drop_last()
    } else {
        grown
    }
}

/// The first position at or after `from` whose candidate is open.
pub open spec fn first_open(beam: Seq<Candidate>, from: int) -> int
    decreases beam.len() - from,
{
    if 0 <= from < beam.len() && !beam[from].open {
        first_open(beam, from + 1)
    } else {
        from
    }
}

/// The state of a search on one layer.
pub struct BeamState {
    pub beam: Seq<Candidate>,
    pub seen: Seq<bool>,
}

/// `c` with its neighbours visited.
pub open spec fn closed(c: Candidate) -> Candidate {
    Candidate { key: c.key, id: c.id, open: false }
}

/// `c` with its neighbours still to be visited.
pub open spec fn opened(c: Candidate) -> Candidate {
    Candidate { key: c.key, id: c.id, open: true }
}

/// The state after the neighbours `list[from..]` have been visited: each one
/// not seen before is marked and offered to the beam.
pub open spec fn scan(
    g: IndexView,
    query: Seq<i16>,
    width: int,
    list: Seq<usize>,
    from: int,
    s: BeamState,
) -> BeamState
    decreases list.len() - from,
{
    if 0 <= from < list.len() {
        let e = list[from];
        if e < s.seen.len() && !s.seen[e as int] {
            let c = Candidate { key: key_of(g, query, e as int), id: e, open: true };
            scan(
                g,
                query,
                width,
                list,
                from + 1,
                BeamState { beam: offer(s.beam, c, width), seen: s.seen.update(e as int, true) },
            )
        } else {
            scan(g, query, width, list, from + 1, s)
        }
    } else {
        s
    }
}

/// The beam after at most `fuel` rounds, each of which closes the first open
/// candidate and visits its neighbours on `layer`.
pub open spec fn run(
    g: IndexView,
    query: Seq<i16>,
    layer: int,
    width: int,
    s: BeamState,
    fuel: nat,
) -> Seq<Candidate>
    decreases fuel,
{
    let i = first_open(s.beam, 0);
    if fuel == 0 || i >= s.beam.len() {
        s.beam
    } else {
        let c = s.beam[i];
        let next = scan(
            g,
            query,
            width,
            g.links[c.id as int][layer],
            0,
            BeamState { beam: s.beam.update(i, closed(c)), seen: s.seen },
        );
        run(g, query, layer, width, next, (fuel - 1) as nat)
    }
}

/// The state in which a search starts from `seeds[from..]`: every seed is
/// open, in the beam and marked.
pub open spec fn seeded(seeds: Seq<Candidate>, from: int, s: BeamState) -> BeamState
    decreases seeds.len() - from,
{
    if 0 <= from < seeds.len() {
        let c = seeds[from];
        if c.id < s.seen.len() {
            seeded(
                seeds,
                from + 1,
                BeamState { beam: s.beam.push(opened(c)), seen: s.seen.update(c.id as int, true) },
            )
        } else {
            seeded(seeds, from + 1, s)
        }
    } else {
        s
    }
}

/// The candidates that a search of `layer` from `seeds` ends with: the beam
/// of at most `width` nearest nodes found, nearest first.
pub open spec fn search_layer(
    g: IndexView,
    query: Seq<i16>,
    layer: int,
    width: int,
    seeds: Seq<Candidate>,
) -> Seq<Candidate> {
    let start = BeamState {
        beam: Seq::empty(),
        seen: Seq::new(g.vectors.len(), |i: int| false),
    };
    run(g, query, layer, width, seeded(seeds, 0, start), g.vectors.len())
}

/// The place of a candidate is after all those that precede it and before
/// one that does not.
pub proof fn lemma_insert_at(beam: Seq<Candidate>, c: Candidate, from: int)
    requires
        0 <= from <= beam.len(),
    ensures
        from <= insert_at(beam, c, from) <= beam.len(),
        forall|i: int| from <= i < insert_at(beam, c, from) ==> precedes(#[trigger] beam[i], c),
        insert_at(beam, c, from) < beam.len() ==> !precedes(beam[insert_at(beam, c, from)], c),
    decreases beam.len() - from,
{
    if from < beam.len() && precedes(beam[from], c) {
        lemma_insert_at(beam, c, from + 1);
    }
}

/// Offering an unseen node of the layer keeps a beam in order.
pub proof fn lemma_offer_ok(
    g: IndexView,
    query: Seq<i16>,
    layer: int,
    beam: Seq<Candidate>,
    seen: Seq<bool>,
    c: Candidate,
    width: int,
)
    requires
        beam_ok(g, query, layer, beam),
        all_seen(beam, seen),
        candidate_ok(g, query, layer, c),
        c.id < seen.len(),
        !seen[c.id as int],
        width >= 1,
        beam.len() <= width,
    ensures
        beam_ok(g, query, layer, offer(beam, c, width)),
        all_seen(offer(beam, c, width), seen.update(c.id as int, true)),
        offer(beam, c, width).len() <= width,
        offer(beam, c, width).len() >= beam.len(),
        offer(beam, c, width).len() >= 1,
{
    lemma_insert_at(beam, c, 0);
}

/// Whether `s` is the state in which a search starts from `seeds[..from]`.
pub open spec fn seeded_so_far(g: IndexView, seeds: Seq<Candidate>, from: int, s: BeamState) -> bool {
    &&& s.beam.len() == from
    &&& s.seen.len() == g.vectors.len()
    &&& forall|t: int| 0 <= t < from ==> (#[trigger] s.beam[t]) == opened(seeds[t])
    &&& forall|id: int|
        0 <= id < s.seen.len() ==> (#[trigger] s.seen[id] <==> exists|t: int|
            0 <= t < from && (#[trigger] seeds[t]).id == id)
}

/// A search starts with its seeds, all of them open and marked, and nothing
/// else.
pub proof fn lemma_seeded(
    g: IndexView,
    query: Seq<i16>,
    layer: int,
    seeds: Seq<Candidate>,
    from: int,
    s: BeamState,
)
    requires
        g.wf(),
        beam_ok(g, query, layer, seeds),
        0 <= from <= seeds.len(),
        seeded_so_far(g, seeds, from, s),
    ensures
        seeded_so_far(g, seeds, seeds.len() as int, seeded(seeds, from, s)),
    decreases seeds.len() - from,
{
    if from < seeds.len() {
        let c = seeds[from];
        let next = BeamState { beam: s.beam.push(opened(c)), seen: s.seen.update(c.id as int, true) };
        lemma_seeded(g, query, layer, seeds, from + 1, next);
    }
}

/// Whether `s` is a state of a search with a beam of `width`: the beam holds
/// nodes of the layer in order, all of them marked.
pub open spec fn state_ok(g: IndexView, query: Seq<i16>, layer: int, width: int, s: BeamState) -> bool {
    &&& beam_ok(g, query, layer, s.beam)
    &&& all_seen(s.beam, s.seen)
    &&& s.seen.len() == g.vectors.len()
    &&& 1 <= s.beam.len() <= width
}

/// Visiting neighbours keeps the state of a search.
pub proof fn lemma_scan_ok(
    g: IndexView,
    query: Seq<i16>,
    layer: int,
    width: int,
    id: int,
    from: int,
    s: BeamState,
)
    requires
        g.wf(),
        g.on_layer(id, layer),
        0 <= from <= g.links[id][layer].len(),
        state_ok(g, query, layer, width, s),
    ensures
        state_ok(g, query, layer, width, scan(g, query, width, g.links[id][layer], from, s)),
    decreases g.links[id][layer].len() - from,
{
    let list = g.links[id][layer];
    if from < list.len() {
        let e = list[from];
        assert(g.list_ok(id, layer));
        assert(g.on_layer(e as int, layer));
        let next = if !s.seen[e as int] {
            let c = Candidate { key: key_of(g, query, e as int), id: e, open: true };
            lemma_offer_ok(g, query, layer, s.beam, s.seen, c, width);
            BeamState { beam: offer(s.beam, c, width), seen: s.seen.update(e as int, true) }
        } else {
            s
        };
        lemma_scan_ok(g, query, layer, width, id, from + 1, next);
    }
}

/// The first open candidate is open, and those before it are not.
pub proof fn lemma_first_open(beam: Seq<Candidate>, from: int)
    requires
        0 <= from <= beam.len(),
    ensures
        from <= first_open(beam, from) <= beam.len(),
        forall|i: int| from <= i < first_open(beam, from) ==> !(#[trigger] beam[i]).open,
        first_open(beam, from) < beam.len() ==> beam[first_open(beam, from)].open,
    decreases beam.len() - from,
{
    if from < beam.len() && !beam[from].open {
        lemma_first_open(beam, from + 1);
    }
}

/// A search ends with a beam of nodes of the layer, in order.
pub proof fn lemma_run_ok(
    g: IndexView,
    query: Seq<i16>,
    layer: int,
    width: int,
    s: BeamState,
    fuel: nat,
)
    requires
        g.wf(),
        state_ok(g, query, layer, width, s),
    ensures
        beam_ok(g, query, layer, run(g, query, layer, width, s, fuel)),
        1 <= run(g, query, layer, width, s, fuel).len() <= width,
    decreases fuel,
{
    let i = first_open(s.beam, 0);
    lemma_first_open(s.beam, 0);
    if fuel > 0 && i < s.beam.len() {
        let c = s.beam[i];
        assert(candidate_ok(g, query, layer, c));
        let shut = BeamState { beam: s.beam.update(i, closed(c)), seen: s.seen };
        assert(state_ok(g, query, layer, width, shut)) by {
            assert forall|a: int, b: int| 0 <= a < b < shut.beam.len() implies precedes(
                #[trigger] shut.beam[a],
                #[trigger] shut.beam[b],
            ) by {
                assert(precedes(s.beam[a], s.beam[b]));
            }
            assert forall|a: int| 0 <= a < shut.beam.len() implies candidate_ok(
                g,
                query,
                layer,
                #[trigger] shut.beam[a],
            ) && shut.beam[a].id < shut.seen.len() && shut.seen[shut.beam[a].id as int] by {
                assert(candidate_ok(g, query, layer, s.beam[a]));
                assert(s.beam[a].id < s.seen.len() && s.seen[s.beam[a].id as int]);
            }
        }
        lemma_scan_ok(g, query, layer, width, c.id as int, 0, shut);
        let next = scan(g, query, width, g.links[c.id as int][layer], 0, shut);
        lemma_run_ok(g, query, layer, width, next, (fuel - 1) as nat);
    }
}

/// The search of a layer from nodes of that layer ends with a beam of nodes
/// of the layer, in order, which is not empty and no wider than `width`.
pub proof fn lemma_search_layer_ok(
    g: IndexView,
    query: Seq<i16>,
    layer: int,
    width: int,
    seeds: Seq<Candidate>,
)
    requires
        g.wf(),
        beam_ok(g, query, layer, seeds),
        1 <= seeds.len() <= width,
    ensures
        beam_ok(g, query, layer, search_layer(g, query, layer, width, seeds)),
        1 <= search_layer(g, query, layer, width, seeds).len() <= width,
{
    let none = BeamState { beam: Seq::empty(), seen: Seq::new(g.vectors.len(), |i: int| false) };
    lemma_seeded(g, query, layer, seeds, 0, none);
    let s = seeded(seeds, 0, none);
    assert(state_ok(g, query, layer, width, s)) by {
        assert forall|a: int| 0 <= a < s.beam.len() implies candidate_ok(g, query, layer, #[trigger] s.beam[a])
            && s.beam[a].id < s.seen.len() && s.seen[s.beam[a].id as int] by {
            assert(s.beam[a] == opened(seeds[a]));
            assert(candidate_ok(g, query, layer, seeds[a]));
            assert(seeds[a].id == s.beam[a].id);
        }
        assert forall|a: int, b: int| 0 <= a < b < s.beam.len() implies precedes(
            #[trigger] s.beam[a],
            #[trigger] s.beam[b],
        ) by {
            assert(precedes(seeds[a], seeds[b]));
        }
    }
    lemma_run_ok(g, query, layer, width, s, g.vectors.len());
}

/// Whether the candidate `a` comes before `b` in a beam.
pub(crate) fn comes_before(a: &Candidate, b: &Candidate) -> (r: bool)
    ensures
        r == precedes(*a, *b),
{
    a.key < b.key || (a.key == b.key && a.id < b.id)
}

/// Puts `c` in its place in `beam` and cuts the beam back to `width`.
pub(crate) fn offer_candidate(beam: &mut Vec<Candidate>, c: Candidate, width: usize)
    requires
        old(beam).len() <= width,
    ensures
        final(beam)@ == offer(old(beam)@, c, width as int),
{
    let ghost before = beam@;
    let mut p: usize = 0;
    while p < beam.len() && comes_before(&beam[p], &c)
        invariant
            p <= beam.len(),
            beam@ == before,
            insert_at(before, c, 0) == insert_at(before, c, p as int),
        decreases beam.len() - p,
    {
        p += 1;
    }
    beam.insert(p, c);
    if beam.len() > width {
        beam.pop();
    }
}

impl HnswIndex {
    /// Searches `layer` from `seeds` for the `width` nodes nearest to `query`.
    pub(crate) fn search_layer(
        &self,
        query: &[i16],
        layer: usize,
        width: usize,
        seeds: &Vec<Candidate>,
    ) -> (beam: Vec<Candidate>)
        requires
            self.wf(),
            query.len() == self@.params.dimension,
            1 <= seeds.len() <= width,
            beam_ok(self@, query@, layer as int, seeds@),
        ensures
            beam@ == search_layer(self@, query@, layer as int, width as int, seeds@),
            beam_ok(self@, query@, layer as int, beam@),
            1 <= beam.len() <= width,
    {
        let n = self.vectors.len();
        let ghost g = self@;
        let mut seen: Vec<bool> = Vec::new();
        let mut i: usize = 0;
        while i < n
            invariant
                i <= n,
                seen.len() == i,
                forall|j: int| 0 <= j < i ==> !seen[j],
            decreases n - i,
        {
            seen.push(false);
            i += 1;
        }
        assert(seen@ =~= Seq::new(g.vectors.len(), |i: int| false));
        let mut beam: Vec<Candidate> = Vec::new();
        let ghost start = BeamState { beam: beam@, seen: seen@ };
        let mut j: usize = 0;
        while j < seeds.len()
            invariant
                j <= seeds.len(),
                seen.len() == n,
                n == g.vectors.len(),
                g.wf(),
                beam.len() == j,
                beam_ok(g, query@, layer as int, seeds@),
                seeded(seeds@, 0, start) == seeded(
                    seeds@,
                    j as int,
                    BeamState { beam: beam@, seen: seen@ },
                ),
                forall|t: int| 0 <= t < j ==> (#[trigger] beam[t]).key == seeds[t].key && beam[t].id == seeds[t].id,
                all_seen(beam@, seen@),
            decreases seeds.len() - j,
        {
            let c = seeds[j];
            beam.push(Candidate { key: c.key, id: c.id, open: true });
            seen.set(c.id, true);
            j += 1;
        }
        let mut fuel: usize = n;
        loop
            invariant
                self.wf(),
                g == self@,
                n == g.vectors.len(),
                query.len() == g.params.dimension,
                seen.len() == n,
                1 <= beam.len() <= width,
                beam_ok(g, query@, layer as int, beam@),
                all_seen(beam@, seen@),
                run(g, query@, layer as int, width as int, BeamState { beam: beam@, seen: seen@ }, fuel as nat)
                    == search_layer(g, query@, layer as int, width as int, seeds@),
            ensures
                beam@ == search_layer(g, query@, layer as int, width as int, seeds@),
                beam_ok(g, query@, layer as int, beam@),
                1 <= beam.len() <= width,
            decreases fuel,
        {
            let mut at: usize = 0;
            while at < beam.len() && !beam[at].open
                invariant
                    at <= beam.len(),
                    first_open(beam@, 0) == first_open(beam@, at as int),
                decreases beam.len() - at,
            {
                at += 1;
            }
            if fuel == 0 || at >= beam.len() {
                break;
            }
            let c = beam[at];
            beam.set(at, Candidate { key: c.key, id: c.id, open: false });
            let ghost shut = BeamState { beam: beam@, seen: seen@ };
            let list = &self.links[c.id][layer];
            let mut t: usize = 0;
            while t < list.len()
                invariant
                    self.wf(),
                    g == self@,
                    n == g.vectors.len(),
                    query.len() == g.params.dimension,
                    seen.len() == n,
                    t <= list.len(),
                    list@ == g.links[c.id as int][layer as int],
                    g.list_ok(c.id as int, layer as int),
                    1 <= beam.len() <= width,
                    beam_ok(g, query@, layer as int, beam@),
                    all_seen(beam@, seen@),
                    scan(g, query@, width as int, list@, 0, shut) == scan(
                        g,
                        query@,
                        width as int,
                        list@,
                        t as int,
                        BeamState { beam: beam@, seen: seen@ },
                    ),
                decreases list.len() - t,
            {
                let e = list[t];
                if !seen[e] {
                    let key = ranking_key(self.params.metric, query, self.vectors[e].as_slice());
                    let cand = Candidate { key, id: e, open: true };
                    proof {
                        lemma_offer_ok(g, query@, layer as int, beam@, seen@, cand, width as int);
                    }
                    seen.set(e, true);
                    offer_candidate(&mut beam, cand, width);
                }
                t += 1;
            }
            fuel -= 1;
        }
        beam
    }
}

} // verus!
