//! Inserting a node: its neighbours are selected on every layer that it is
//! on, and it is linked back from each of them.

use vstd::prelude::*;
use vstd::math::{max, min};
use crate::beam::{Candidate, beam_ok, search_layer};
use crate::copy::copy_of;
use crate::error::Error;
use crate::graph::IndexView;
use crate::index::HnswIndex;
use crate::level::{MAX_LEVEL, level_from_draw, level_of};
use crate::link::{attach, fresh, lists_view, no_link, pending};
use crate::preserve::lemma_insert_keeps_invariant;
use crate::search::{descend, seed_of, top_layer};
use crate::select::{ids_ok, select};

verus! {

/// The number of candidates kept while a node is inserted.
pub open spec fn build_width(g: IndexView) -> int {
    max(g.params.ef_construction as int, 1)
}

/// The neighbour lists of a new node at `query`, for the layers from `layer`
/// down: on each layer the beam is searched from where the layer above
/// ended, and the neighbours are selected from it.
pub open spec fn plan(
    g: IndexView,
    query: Seq<i16>,
    seeds: Seq<Candidate>,
    layer: int,
    lists: Seq<Seq<usize>>,
) -> Seq<Seq<usize>>
    decreases layer + 1,
{
    if layer < 0 {
        lists
    } else {
        let beam = search_layer(g, query, layer, build_width(g), seeds);
        plan(
            g,
            query,
            beam,
            layer - 1,
            lists.update(layer, select(g, beam, g.cap(layer), 0, Seq::empty())),
        )
    }
}

/// `count` empty neighbour lists.
pub open spec fn empty_lists(count: int) -> Seq<Seq<usize>> {
    Seq::new(count as nat, |l: int| Seq::<usize>::empty())
}

/// `g` with one more node, which has `vector` and the neighbours `lists`; it
/// becomes the entry point if it is the first node or lies above the top layer.
pub open spec fn grown(g: IndexView, vector: Seq<i16>, lists: Seq<Seq<usize>>) -> IndexView {
    IndexView {
        params: g.params,
        vectors: g.vectors.push(vector),
        links: g.links.push(lists),
        entry: if g.vectors.len() == 0 || lists.len() - 1 > top_layer(g) {
            g.vectors.len() as usize
        } else {
            g.entry
        },
    }
}

/// The index after a node with `vector` and top layer `level` is inserted.
pub open spec fn inserted(g: IndexView, vector: Seq<i16>, level: int) -> IndexView {
    if g.vectors.len() == 0 {
        grown(g, vector, empty_lists(level + 1))
    } else {
        let top = top_layer(g);
        let landing = descend(g, vector, seed_of(g, vector, g.entry), top, level);
        let lists = plan(g, vector, landing, min(level, top), empty_lists(level + 1));
        attach(grown(g, vector, lists), lists, 0, g.vectors.len() as usize)
    }
}

/// What an insertion of a node with `vector` and top layer `level` changes:
/// the node is added with its vector, on the layers up to `level`; the older
/// nodes keep their vectors and their layers; the node becomes the entry
/// point if it is the first or lies above the top layer, else the entry
/// point stays; and on every layer that the node shares with older nodes it
/// has a neighbour, unless the cap of the layer is zero.
pub open spec fn grew_by_one(before: IndexView, vector: Seq<i16>, level: int, after: IndexView) -> bool {
    let n = before.vectors.len() as int;
    &&& after.params == before.params
    &&& after.vectors == before.vectors.push(vector)
    &&& after.links.len() == n + 1
    &&& after.links[n].len() == level + 1
    &&& forall|i: int| 0 <= i < n ==> (#[trigger] after.links[i]).len() == before.links[i].len()
    &&& after.entry == if n == 0 || level > top_layer(before) {
        n as usize
    } else {
        before.entry
    }
    &&& n > 0 ==> forall|l: int|
        0 <= l <= level && l <= top_layer(before) && before.cap(l) >= 1 ==> (#[trigger] after.links[n][l]).len()
            >= 1
}

/// What `insert` does: the error it returns, or the index it leaves.
pub open spec fn insert_outcome(g: IndexView, id: usize, vector: Seq<i16>, draw: u64) -> Result<
    IndexView,
    Error,
> {
    if vector.len() != g.params.dimension {
        Err(Error::DimensionMismatch)
    } else if id != g.vectors.len() {
        Err(Error::NotFound)
    } else {
        Ok(inserted(g, vector, level_of(draw, g.params.level_base) as int))
    }
}

/// Whether the neighbour lists of a new node fit `g`.
pub open spec fn lists_ok(g: IndexView, lists: Seq<Seq<usize>>) -> bool {
    forall|l: int|
        0 <= l < lists.len() ==> (#[trigger] lists[l]).len() <= g.cap(l) && ids_ok(g, l, lists[l])
}

/// An index that gets a node with fitting neighbour lists stays well-formed,
/// and no older node has a link to the new one.
pub proof fn lemma_grown_wf(g: IndexView, vector: Seq<i16>, lists: Seq<Seq<usize>>)
    requires
        g.wf(),
        vector.len() == g.params.dimension,
        1 <= lists.len() <= MAX_LEVEL + 1,
        lists_ok(g, lists),
        g.vectors.len() < usize::MAX,
    ensures
        grown(g, vector, lists).wf(),
        fresh(grown(g, vector, lists), g.vectors.len() as usize, 0, lists[0], 0),
{
    let h = grown(g, vector, lists);
    let n = g.vectors.len() as int;
    assert forall|i: int, l: int| h.on_layer(i, l) implies #[trigger] h.list_ok(i, l) by {
        if i < n {
            assert(g.list_ok(i, l));
        }
    }
    assert forall|i: int, l: int|
        h.on_layer(i, l) && i != n && (l > 0 || (l == 0 && pending(lists[0], 0, i)))
            implies #[trigger] no_link(h, i, l, n as usize) by {
        assert(g.list_ok(i, l));
    }
}

impl HnswIndex {
    /// The neighbour lists of a new node at `vector` with top layer `level`,
    /// searched from `landing` on the layers from `start` down.
    pub(crate) fn plan_links(&self, vector: &[i16], landing: Vec<Candidate>, start: usize, level: usize) -> (lists:
        Vec<Vec<usize>>)
        requires
            self.wf(),
            vector.len() == self@.params.dimension,
            landing.len() == 1,
            beam_ok(self@, vector@, start as int, landing@),
            start <= level <= MAX_LEVEL,
        ensures
            lists.len() == level + 1,
            lists_view(lists@) == plan(
                self@,
                vector@,
                landing@,
                start as int,
                empty_lists(level + 1),
            ),
            lists_ok(self@, lists_view(lists@)),
    {
        let ghost g = self@;
        let width = if self.params.ef_construction >= 1 {
            self.params.ef_construction
        } else {
            1
        };
        let mut lists: Vec<Vec<usize>> = Vec::new();
        let mut i: usize = 0;
        while i <= level
            invariant
                i <= level + 1,
                level <= MAX_LEVEL,
                lists.len() == i,
                forall|l: int| 0 <= l < i ==> (#[trigger] lists[l])@.len() == 0,
            decreases level + 1 - i,
        {
            lists.push(Vec::new());
            i += 1;
        }
        assert(lists_view(lists@) =~~= empty_lists(level + 1));
        let mut seeds = landing;
        let mut remaining: usize = start + 1;
        while remaining > 0
            invariant
                self.wf(),
                g == self@,
                vector.len() == g.params.dimension,
                width == build_width(g),
                remaining <= start + 1,
                start <= level,
                lists.len() == level + 1,
                1 <= seeds.len() <= width,
                remaining > 0 ==> beam_ok(g, vector@, remaining - 1, seeds@),
                lists_ok(g, lists_view(lists@)),
                plan(g, vector@, landing@, start as int, empty_lists(level + 1)) == plan(
                    g,
                    vector@,
                    seeds@,
                    remaining - 1,
                    lists_view(lists@),
                ),
            decreases remaining,
        {
            let layer: usize = remaining - 1;
            let beam = self.search_layer(vector, layer, width, &seeds);
            let chosen = self.select_neighbors(&beam, layer);
            let ghost prior = lists_view(lists@);
            let ghost picked = chosen@;
            lists.set(layer, chosen);
            proof {
                assert(lists_view(lists@) =~~= prior.update(layer as int, picked));
            }
            seeds = beam;
            remaining -= 1;
        }
        lists
    }

    /// Inserts a node with the identifier `id` and the vector `vector`; its
    /// top layer is drawn from `draw`, a uniformly random 64-bit number.
    ///
    /// Fails with `DimensionMismatch` where the vector has not the index's
    /// dimension, and with `NotFound` where `id` is not the identifier that
    /// the next node gets, which is the number of nodes. A failed insertion
    /// leaves the index as it was.
    pub fn insert(&mut self, id: usize, vector: &[i16], draw: u64) -> (r: Result<(), Error>)
        requires
            old(self).wf(),
        ensures
            final(self).wf(),
            match r {
                Ok(()) => insert_outcome(old(self)@, id, vector@, draw) == Ok::<IndexView, Error>(
                    final(self)@,
                ),
                Err(e) => insert_outcome(old(self)@, id, vector@, draw) == Err::<IndexView, Error>(e)
                    && final(self)@ == old(self)@,
            },
            r is Ok ==> grew_by_one(
                old(self)@,
                vector@,
                level_of(draw, old(self)@.params.level_base) as int,
                final(self)@,
            ),
            r is Ok && old(self)@.spanning() && old(self)@.cap(0) > old(self)@.vectors.len()
                ==> final(self)@.spanning(),
    {
        if vector.len() != self.params.dimension {
            return Err(Error::DimensionMismatch);
        }
        let n = self.vectors.len();
        if id != n {
            return Err(Error::NotFound);
        }
        let ghost g = self@;
        let level = level_from_draw(draw, self.params.level_base);
        let own = copy_of(vector);
        if n == 0 {
            let mut lists: Vec<Vec<usize>> = Vec::new();
            let mut i: usize = 0;
            while i <= level
                invariant
                    i <= level + 1,
                    level <= MAX_LEVEL,
                    lists.len() == i,
                    forall|l: int| 0 <= l < i ==> (#[trigger] lists[l])@.len() == 0,
                decreases level + 1 - i,
            {
                lists.push(Vec::new());
                i += 1;
            }
            self.vectors.push(own);
            self.links.push(lists);
            self.entry = 0;
            proof {
                let want = grown(g, vector@, empty_lists(level + 1));
                assert(self@.vectors =~~= want.vectors);
                assert(self@.links =~~= want.links);
                lemma_insert_keeps_invariant(g, id, vector@, draw);
            }
            return Ok(());
        }
        let top = self.links[self.entry].len() - 1;
        let seeds = self.entry_seed(vector);
        let landing = self.walk_down(vector, seeds, top, level);
        let start = if level < top {
            level
        } else {
            top
        };
        let lists = self.plan_links(vector, landing, start, level);
        let mut copy: Vec<Vec<usize>> = Vec::new();
        let mut i: usize = 0;
        while i < lists.len()
            invariant
                i <= lists.len(),
                copy.len() == i,
                forall|l: int| 0 <= l < i ==> (#[trigger] copy[l])@ == lists[l]@,
            decreases lists.len() - i,
        {
            copy.push(copy_of(lists[i].as_slice()));
            i += 1;
        }
        self.vectors.push(own);
        self.links.push(copy);
        if level > top {
            self.entry = n;
        }
        proof {
            assert(self.vectors.len() == n + 1);
            lemma_grown_wf(g, vector@, lists_view(lists@));
            let want = grown(g, vector@, lists_view(lists@));
            assert(self@.vectors =~~= want.vectors);
            assert(self@.links =~~= want.links);
        }
        self.attach(&lists, n);
        proof {
            lemma_insert_keeps_invariant(g, id, vector@, draw);
        }
        Ok(())
    }
}

} // verus!
