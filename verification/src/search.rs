//! Answering a query: a greedy walk down the upper layers, then a beam
//! search of the lowest layer.

use vstd::prelude::*;
use vstd::math::{max, min};
use vstd::set_lib::{lemma_int_range, lemma_len_subset, set_int_range};
use crate::beam::{
    Candidate, beam_ok, candidate_ok, key_of, lemma_search_layer_ok, precedes, search_layer,
};
use crate::complete::{in_beam, lemma_wide_beam_has_all};
use crate::error::Error;
use crate::graph::IndexView;
use crate::index::HnswIndex;
use crate::metric::{distance_key, lemma_distance_key_fits, ranking_key};

verus! {

/// The beam that a walk starts with: the node `id` alone.
pub open spec fn seed_of(g: IndexView, query: Seq<i16>, id: usize) -> Seq<Candidate> {
    seq![Candidate { key: key_of(g, query, id as int), id, open: true }]
}

/// The node reached by walking greedily towards `query` on the layers from
/// `layer` down to the one above `floor`, each walk starting where the one
/// above it ended.
pub open spec fn descend(
    g: IndexView,
    query: Seq<i16>,
    seeds: Seq<Candidate>,
    layer: int,
    floor: int,
) -> Seq<Candidate>
    decreases layer - floor,
{
    if layer <= floor {
        seeds
    } else {
        descend(g, query, search_layer(g, query, layer, 1, seeds), layer - 1, floor)
    }
}

/// The identifiers of a beam, in its order.
pub open spec fn ids_of(beam: Seq<Candidate>) -> Seq<usize> {
    Seq::new(beam.len(), |i: int| beam[i].id)
}

/// The number of candidates kept while a query for `k` results is answered.
pub open spec fn search_width(g: IndexView, k: int) -> int {
    max(max(g.params.ef_search as int, k), 1)
}

/// The top layer of the index.
pub open spec fn top_layer(g: IndexView) -> int {
    g.links[g.entry as int].len() - 1
}

/// The beam that a query for `k` results is answered from: the search of
/// the lowest layer from the node that the walk down the layers ends with.
pub open spec fn answer_beam(g: IndexView, query: Seq<i16>, k: int) -> Seq<Candidate> {
    let landing = descend(g, query, seed_of(g, query, g.entry), top_layer(g), 0);
    search_layer(g, query, 0, search_width(g, k), landing)
}

/// The identifiers that a search of a non-empty index for the `k` nearest
/// nodes returns, nearest first.
pub open spec fn nearest(g: IndexView, query: Seq<i16>, k: int) -> Seq<usize> {
    let beam = answer_beam(g, query, k);
    ids_of(beam.take(min(k, beam.len() as int)))
}

/// What `search` returns.
pub open spec fn search_outcome(g: IndexView, query: Seq<i16>, k: int) -> Result<Seq<usize>, Error> {
    if g.vectors.len() == 0 {
        Err(Error::IndexEmpty)
    } else if query.len() != g.params.dimension {
        Err(Error::DimensionMismatch)
    } else {
        Ok(nearest(g, query, k))
    }
}

/// Whether the node `a` comes before the node `b` in the ranking by
/// distance to `query`: it is nearer, or as near and has the smaller
/// identifier.
pub open spec fn nearer(g: IndexView, query: Seq<i16>, a: int, b: int) -> bool {
    let x = distance_key(g.params.metric, query, g.vectors[a]);
    let y = distance_key(g.params.metric, query, g.vectors[b]);
    x < y || (x == y && a < b)
}

/// Whether `ids` are ranked by distance to `query`, and by identifier where
/// distances are equal.
pub open spec fn ranked_ids(g: IndexView, query: Seq<i16>, ids: Seq<usize>) -> bool {
    forall|i: int, j: int|
        0 <= i < j < ids.len() ==> nearer(g, query, (#[trigger] ids[i]) as int, (#[trigger] ids[j]) as int)
}

/// Whether `ids` are the `k` nodes nearest to `query`, or all nodes if there
/// are fewer: every node that is not among them comes after each of them in
/// the ranking.
pub open spec fn exact_ids(g: IndexView, query: Seq<i16>, k: int, ids: Seq<usize>) -> bool {
    &&& ids.len() == min(k, g.vectors.len() as int)
    &&& forall|i: int, j: int|
        #![trigger ids[i], g.vectors[j]]
        0 <= i < ids.len() && 0 <= j < g.vectors.len() && !ids.contains(j as usize) ==> nearer(
            g,
            query,
            ids[i] as int,
            j,
        )
}

/// A node on a layer is on every layer below it.
pub proof fn lemma_beam_ok_below(g: IndexView, query: Seq<i16>, layer: int, below: int, beam: Seq<Candidate>)
    requires
        beam_ok(g, query, layer, beam),
        0 <= below <= layer,
    ensures
        beam_ok(g, query, below, beam),
{
    assert forall|i: int| 0 <= i < beam.len() implies candidate_ok(g, query, below, #[trigger] beam[i]) by {
        assert(candidate_ok(g, query, layer, beam[i]));
    }
}

/// A walk down the layers ends with one node, which is on the layer that
/// the walk ends above.
pub proof fn lemma_descend_ok(g: IndexView, query: Seq<i16>, seeds: Seq<Candidate>, layer: int, floor: int)
    requires
        g.wf(),
        beam_ok(g, query, layer, seeds),
        seeds.len() == 1,
        0 <= floor,
    ensures
        descend(g, query, seeds, layer, floor).len() == 1,
        beam_ok(g, query, min(layer, floor), descend(g, query, seeds, layer, floor)),
    decreases layer - floor,
{
    if layer > floor {
        lemma_search_layer_ok(g, query, layer, 1, seeds);
        let next = search_layer(g, query, layer, 1, seeds);
        lemma_beam_ok_below(g, query, layer, layer - 1, next);
        lemma_descend_ok(g, query, next, layer - 1, floor);
    }
}

/// The beam that a query is answered from: nodes of the lowest layer, in
/// the order of the ranking.
pub proof fn lemma_answer_beam(g: IndexView, query: Seq<i16>, k: int)
    requires
        g.wf(),
        g.vectors.len() > 0,
        query.len() == g.params.dimension,
    ensures
        beam_ok(g, query, 0, answer_beam(g, query, k)),
        1 <= answer_beam(g, query, k).len() <= search_width(g, k),
        beam_ok(g, query, 0, descend(g, query, seed_of(g, query, g.entry), top_layer(g), 0)),
        descend(g, query, seed_of(g, query, g.entry), top_layer(g), 0).len() == 1,
        forall|a: int, b: int|
            0 <= a < b < answer_beam(g, query, k).len() ==> nearer(
                g,
                query,
                (#[trigger] answer_beam(g, query, k)[a]).id as int,
                (#[trigger] answer_beam(g, query, k)[b]).id as int,
            ),
{
    let seeds = seed_of(g, query, g.entry);
    assert(g.on_layer(g.entry as int, top_layer(g)));
    assert(beam_ok(g, query, top_layer(g), seeds));
    lemma_descend_ok(g, query, seeds, top_layer(g), 0);
    let landing = descend(g, query, seeds, top_layer(g), 0);
    lemma_search_layer_ok(g, query, 0, search_width(g, k), landing);
    let beam = answer_beam(g, query, k);
    assert forall|a: int, b: int| 0 <= a < b < beam.len() implies nearer(
        g,
        query,
        (#[trigger] beam[a]).id as int,
        (#[trigger] beam[b]).id as int,
    ) by {
        assert(candidate_ok(g, query, 0, beam[a]));
        assert(candidate_ok(g, query, 0, beam[b]));
        assert(precedes(beam[a], beam[b]));
        assert(g.vectors[beam[a].id as int].len() == g.params.dimension);
        assert(g.vectors[beam[b].id as int].len() == g.params.dimension);
        lemma_distance_key_fits(g.params.metric, query, g.vectors[beam[a].id as int]);
        lemma_distance_key_fits(g.params.metric, query, g.vectors[beam[b].id as int]);
    }
}

/// A search returns no more identifiers than were asked for and no more
/// than there are nodes, each names a node, no two are the same, and they
/// come in the order of the ranking. Where one or more are asked for, one or
/// more are returned.
pub proof fn lemma_search_is_bounded(g: IndexView, query: Seq<i16>, k: int)
    requires
        g.wf(),
        g.vectors.len() > 0,
        query.len() == g.params.dimension,
        0 <= k,
    ensures
        nearest(g, query, k).len() <= k,
        nearest(g, query, k).len() <= g.vectors.len(),
        k >= 1 ==> nearest(g, query, k).len() >= 1,
        forall|i: int| 0 <= i < nearest(g, query, k).len() ==> (#[trigger] nearest(g, query, k)[i]) < g.vectors.len(),
        forall|i: int, j: int| 0 <= i < j < nearest(g, query, k).len() ==> nearest(g, query, k)[i] != nearest(g, query, k)[j],
        ranked_ids(g, query, nearest(g, query, k)),
{
    lemma_answer_beam(g, query, k);
    let beam = answer_beam(g, query, k);
    let ids = nearest(g, query, k);
    assert forall|i: int| 0 <= i < ids.len() implies (#[trigger] ids[i]) < g.vectors.len() by {
        assert(candidate_ok(g, query, 0, beam[i]));
    }
    assert forall|i: int, j: int| 0 <= i < j < ids.len() implies ids[i] != ids[j] && nearer(
        g,
        query,
        (#[trigger] ids[i]) as int,
        (#[trigger] ids[j]) as int,
    ) by {
        assert(nearer(g, query, beam[i].id as int, beam[j].id as int));
    }
    lemma_distinct_ids_bound(ids, g.vectors.len() as int);
}

/// Where the lowest layer leads from every node to every other and the beam
/// is as wide as the index is large, a search returns the nearest nodes.
pub proof fn lemma_wide_search_is_exact(g: IndexView, query: Seq<i16>, k: int)
    requires
        g.wf(),
        g.vectors.len() > 0,
        query.len() == g.params.dimension,
        0 <= k,
        g.spanning(),
        search_width(g, k) >= g.vectors.len(),
    ensures
        exact_ids(g, query, k, nearest(g, query, k)),
{
    lemma_answer_beam(g, query, k);
    let landing = descend(g, query, seed_of(g, query, g.entry), top_layer(g), 0);
    lemma_wide_beam_has_all(g, query, search_width(g, k), landing);
    let beam = answer_beam(g, query, k);
    let ids = nearest(g, query, k);
    assert forall|a: int, j: int|
        #![trigger ids[a], g.vectors[j]]
        0 <= a < ids.len() && 0 <= j < g.vectors.len() && !ids.contains(j as usize) implies nearer(
        g,
        query,
        ids[a] as int,
        j,
    ) by {
        assert(in_beam(beam, j));
        let p = choose|p: int| 0 <= p < beam.len() && (#[trigger] beam[p]).id == j;
        if p < ids.len() {
            assert(ids[p] == j as usize);
        }
        assert(nearer(g, query, beam[a].id as int, beam[p].id as int));
    }
}

/// Different identifiers below `n` are at most `n`.
pub proof fn lemma_distinct_ids_bound(ids: Seq<usize>, n: int)
    requires
        0 <= n,
        forall|i: int| 0 <= i < ids.len() ==> (#[trigger] ids[i]) < n,
        forall|i: int, j: int| 0 <= i < j < ids.len() ==> ids[i] != ids[j],
    ensures
        ids.len() <= n,
{
    if ids.len() > 0 {
        let wide = ids.map_values(|x: usize| x as int);
        wide.unique_seq_to_set();
        lemma_int_range(0, n);
        lemma_len_subset(wide.to_set(), set_int_range(0, n));
    }
}

impl HnswIndex {
    /// The beam that a walk starts with: the entry point alone.
    pub(crate) fn entry_seed(&self, query: &[i16]) -> (seeds: Vec<Candidate>)
        requires
            self.wf(),
            self@.vectors.len() > 0,
            query.len() == self@.params.dimension,
        ensures
            seeds@ == seed_of(self@, query@, self@.entry),
            beam_ok(self@, query@, top_layer(self@), seeds@),
    {
        assert(self@.vectors[self.entry as int].len() == self@.params.dimension);
        let key = ranking_key(self.params.metric, query, self.vectors[self.entry].as_slice());
        let mut seeds: Vec<Candidate> = Vec::new();
        seeds.push(Candidate { key, id: self.entry, open: true });
        seeds
    }

    /// Walks greedily towards `query` on the layers from `layer` down to the
    /// one above `floor`.
    pub(crate) fn walk_down(&self, query: &[i16], seeds: Vec<Candidate>, layer: usize, floor: usize) -> (landing:
        Vec<Candidate>)
        requires
            self.wf(),
            query.len() == self@.params.dimension,
            seeds.len() == 1,
            beam_ok(self@, query@, layer as int, seeds@),
        ensures
            landing@ == descend(self@, query@, seeds@, layer as int, floor as int),
            landing.len() == 1,
            beam_ok(
                self@,
                query@,
                if layer <= floor {
                    layer as int
                } else {
                    floor as int
                },
                landing@,
            ),
    {
        let ghost start = seeds@;
        let mut current = seeds;
        let mut at: usize = layer;
        while at > floor
            invariant
                self.wf(),
                query.len() == self@.params.dimension,
                current.len() == 1,
                at <= layer,
                layer > floor ==> at >= floor,
                layer <= floor ==> at == layer,
                beam_ok(self@, query@, at as int, current@),
                descend(self@, query@, start, layer as int, floor as int) == descend(
                    self@,
                    query@,
                    current@,
                    at as int,
                    floor as int,
                ),
            decreases at,
        {
            current = self.search_layer(query, at, 1, &current);
            at -= 1;
        }
        current
    }

    /// Searches for the `k` nodes nearest to `query` and returns their
    /// identifiers, nearest first; nodes at one distance come by ascending
    /// identifier.
    ///
    /// Fails with `IndexEmpty` on an index without nodes, and with
    /// `DimensionMismatch` where the query has not the index's dimension.
    pub fn search(&self, query: &[i16], k: usize) -> (r: Result<Vec<usize>, Error>)
        requires
            self.wf(),
        ensures
            match r {
                Ok(ids) => {
                    &&& search_outcome(self@, query@, k as int) == Ok::<Seq<usize>, Error>(ids@)
                    &&& ids.len() <= k
                    &&& ids.len() <= self@.vectors.len()
                    &&& k >= 1 ==> ids.len() >= 1
                    &&& forall|i: int| 0 <= i < ids.len() ==> (#[trigger] ids[i]) < self@.vectors.len()
                    &&& forall|i: int, j: int| 0 <= i < j < ids.len() ==> ids[i] != ids[j]
                    &&& ranked_ids(self@, query@, ids@)
                    &&& self@.spanning() && search_width(self@, k as int) >= self@.vectors.len()
                        ==> exact_ids(self@, query@, k as int, ids@)
                },
                Err(e) => search_outcome(self@, query@, k as int) == Err::<Seq<usize>, Error>(e),
            },
    {
        if self.vectors.len() == 0 {
            return Err(Error::IndexEmpty);
        }
        if query.len() != self.params.dimension {
            return Err(Error::DimensionMismatch);
        }
        let ghost g = self@;
        let seeds = self.entry_seed(query);
        let top = self.links[self.entry].len() - 1;
        let landing = self.walk_down(query, seeds, top, 0);
        let width = if self.params.ef_search >= k && self.params.ef_search >= 1 {
            self.params.ef_search
        } else if k >= 1 {
            k
        } else {
            1
        };
        let beam = self.search_layer(query, 0, width, &landing);
        let mut ids: Vec<usize> = Vec::new();
        let mut i: usize = 0;
        while i < beam.len() && i < k
            invariant
                i <= beam.len(),
                i <= k,
                ids.len() == i,
                forall|j: int| 0 <= j < i ==> (#[trigger] ids[j]) == beam[j].id,
            decreases beam.len() - i,
        {
            ids.push(beam[i].id);
            i += 1;
        }
        proof {
            assert(ids@ =~= nearest(g, query@, k as int));
            lemma_search_is_bounded(g, query@, k as int);
            if g.spanning() && width >= g.vectors.len() {
                lemma_wide_search_is_exact(g, query@, k as int);
            }
        }
        Ok(ids)
    }
}

} // verus!
