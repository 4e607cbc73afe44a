//! Selecting the neighbours of a node from the candidates of a search.

use vstd::prelude::*;
use crate::beam::{Candidate, all_seen, beam_ok, key_of, lemma_insert_at, offer, offer_candidate};
use crate::graph::IndexView;
use crate::index::HnswIndex;
use crate::metric::{distance_key, ranking_key};

verus! {

/// The distance key between the nodes `a` and `b`.
pub open spec fn pair_key(g: IndexView, a: int, b: int) -> i128 {
    distance_key(g.params.metric, g.vectors[a], g.vectors[b]) as i128
}

/// Whether `c` is nearer to the base, to which its key is the distance, than
/// to each of `chosen[from..]`.
pub open spec fn keeps(g: IndexView, chosen: Seq<usize>, c: Candidate, from: int) -> bool
    decreases chosen.len() - from,
{
    if 0 <= from < chosen.len() {
        c.key < pair_key(g, c.id as int, chosen[from] as int) && keeps(g, chosen, c, from + 1)
    } else {
        true
    }
}

/// The neighbours chosen from `cands[from..]` after `chosen`: going from the
/// nearest candidate on, a candidate is taken if it is nearer to the base
/// than to every neighbour taken before it, until there are `cap` of them.
pub open spec fn select(
    g: IndexView,
    cands: Seq<Candidate>,
    cap: int,
    from: int,
    chosen: Seq<usize>,
) -> Seq<usize>
    decreases cands.len() - from,
{
    if 0 <= from < cands.len() && chosen.len() < cap {
        let c = cands[from];
        if keeps(g, chosen, c, 0) {
            select(g, cands, cap, from + 1, chosen.push(c.id))
        } else {
            select(g, cands, cap, from + 1, chosen)
        }
    } else {
        chosen
    }
}

/// `beam` with the nodes `list[from..]` put in, each with its distance key
/// to `base`.
pub open spec fn ranked(
    g: IndexView,
    base: Seq<i16>,
    list: Seq<usize>,
    from: int,
    beam: Seq<Candidate>,
) -> Seq<Candidate>
    decreases list.len() - from,
{
    if 0 <= from < list.len() {
        let c = Candidate { key: key_of(g, base, list[from] as int), id: list[from], open: true };
        ranked(g, base, list, from + 1, offer(beam, c, list.len() as int))
    } else {
        beam
    }
}

/// The neighbours that node `id` keeps of `list` on `layer`.
pub open spec fn reselected(g: IndexView, id: int, layer: int, list: Seq<usize>) -> Seq<usize> {
    select(g, ranked(g, g.vectors[id], list, 0, Seq::empty()), g.cap(layer), 0, Seq::empty())
}

/// Whether `ids` are different nodes of `layer`.
pub open spec fn ids_ok(g: IndexView, layer: int, ids: Seq<usize>) -> bool {
    &&& forall|i: int| 0 <= i < ids.len() ==> g.on_layer((#[trigger] ids[i]) as int, layer)
    &&& forall|i: int, j: int| 0 <= i < j < ids.len() ==> ids[i] != ids[j]
}

/// Whether `cands` are different nodes of `layer`.
pub open spec fn cands_ok(g: IndexView, layer: int, cands: Seq<Candidate>) -> bool {
    &&& forall|i: int| 0 <= i < cands.len() ==> g.on_layer((#[trigger] cands[i]).id as int, layer)
    &&& forall|i: int, j: int|
        0 <= i < j < cands.len() ==> (#[trigger] cands[i]).id != (#[trigger] cands[j]).id
}

/// Whether `id` is among the first `upto` candidates.
pub open spec fn has_id(cands: Seq<Candidate>, upto: int, id: usize) -> bool {
    exists|j: int| 0 <= j < upto && j < cands.len() && (#[trigger] cands[j]).id == id
}

impl HnswIndex {
    /// The most neighbours a node may have on `layer`.
    pub fn cap(&self, layer: usize) -> (cap: usize)
        ensures
            cap == self@.cap(layer as int),
    {
        if layer == 0 {
            self.params.max_neighbors_base
        } else {
            self.params.max_neighbors
        }
    }

    /// Selects the neighbours of a node from `cands`, the nearest first.
    pub(crate) fn select_neighbors(&self, cands: &Vec<Candidate>, layer: usize) -> (chosen: Vec<usize>)
        requires
            self.wf(),
            cands_ok(self@, layer as int, cands@),
        ensures
            chosen@ == select(self@, cands@, self@.cap(layer as int), 0, Seq::empty()),
            chosen.len() <= self@.cap(layer as int),
            ids_ok(self@, layer as int, chosen@),
            forall|a: int| 0 <= a < chosen.len() ==> has_id(cands@, cands.len() as int, #[trigger] chosen[a]),
    {
        let ghost g = self@;
        let cap = self.cap(layer);
        let mut chosen: Vec<usize> = Vec::new();
        let mut from: usize = 0;
        while from < cands.len() && chosen.len() < cap
            invariant
                self.wf(),
                g == self@,
                cap == g.cap(layer as int),
                from <= cands.len(),
                cands_ok(g, layer as int, cands@),
                chosen.len() <= cap,
                select(g, cands@, cap as int, 0, Seq::empty()) == select(
                    g,
                    cands@,
                    cap as int,
                    from as int,
                    chosen@,
                ),
                ids_ok(g, layer as int, chosen@),
                forall|a: int| 0 <= a < chosen.len() ==> has_id(cands@, from as int, #[trigger] chosen[a]),
            decreases cands.len() - from,
        {
            let c = cands[from];
            let mut keep = true;
            let mut t: usize = 0;
            while keep && t < chosen.len()
                invariant
                    self.wf(),
                    g == self@,
                    t <= chosen.len(),
                    c.id < g.vectors.len(),
                    g.vectors[c.id as int].len() == g.params.dimension,
                    ids_ok(g, layer as int, chosen@),
                    keeps(g, chosen@, c, 0) == (keep && keeps(g, chosen@, c, t as int)),
                decreases chosen.len() - t,
            {
                let r = chosen[t];
                let between = ranking_key(
                    self.params.metric,
                    self.vectors[c.id].as_slice(),
                    self.vectors[r].as_slice(),
                );
                if !(c.key < between) {
                    keep = false;
                }
                t += 1;
            }
            if keep {
                chosen.push(c.id);
            }
            from += 1;
        }
        chosen
    }

    /// Ranks the nodes of `list` by their distance to node `base`.
    pub(crate) fn rank_neighbors(&self, base: usize, layer: usize, list: &Vec<usize>) -> (beam: Vec<Candidate>)
        requires
            self.wf(),
            base < self@.vectors.len(),
            ids_ok(self@, layer as int, list@),
        ensures
            beam@ == ranked(self@, self@.vectors[base as int], list@, 0, Seq::empty()),
            beam_ok(self@, self@.vectors[base as int], layer as int, beam@),
            forall|i: int| 0 <= i < beam.len() ==> list@.contains((#[trigger] beam[i]).id),
    {
        let ghost g = self@;
        let ghost target = g.vectors[base as int];
        let width = list.len();
        let mut beam: Vec<Candidate> = Vec::new();
        let mut t: usize = 0;
        let ghost mut seen: Seq<bool> = Seq::new(g.vectors.len(), |i: int| false);
        while t < list.len()
            invariant
                self.wf(),
                g == self@,
                target == g.vectors[base as int],
                target.len() == g.params.dimension,
                base < g.vectors.len(),
                width == list.len(),
                t <= list.len(),
                beam.len() <= t,
                ids_ok(g, layer as int, list@),
                seen.len() == g.vectors.len(),
                forall|i: int| 0 <= i < seen.len() ==> (#[trigger] seen[i] <==> exists|j: int| 0 <= j < t && list[j] == i),
                beam_ok(g, target, layer as int, beam@),
                all_seen(beam@, seen),
                forall|i: int| 0 <= i < beam.len() ==> list@.contains((#[trigger] beam[i]).id),
                ranked(g, target, list@, 0, Seq::empty()) == ranked(g, target, list@, t as int, beam@),
            decreases list.len() - t,
        {
            let e = list[t];
            let key = ranking_key(
                self.params.metric,
                self.vectors[base].as_slice(),
                self.vectors[e].as_slice(),
            );
            let cand = Candidate { key, id: e, open: true };
            proof {
                lemma_insert_at(beam@, cand, 0);
                seen = seen.update(e as int, true);
            }
            offer_candidate(&mut beam, cand, width);
            t += 1;
        }
        beam
    }

    /// The neighbours that node `base` keeps of `list` on `layer`.
    pub(crate) fn reselect(&self, base: usize, layer: usize, list: &Vec<usize>) -> (kept: Vec<usize>)
        requires
            self.wf(),
            base < self@.vectors.len(),
            ids_ok(self@, layer as int, list@),
        ensures
            kept@ == reselected(self@, base as int, layer as int, list@),
            kept.len() <= self@.cap(layer as int),
            ids_ok(self@, layer as int, kept@),
            forall|a: int| 0 <= a < kept.len() ==> list@.contains(#[trigger] kept[a]),
    {
        let beam = self.rank_neighbors(base, layer, list);
        let kept = self.select_neighbors(&beam, layer);
        kept
    }
}

} // verus!
