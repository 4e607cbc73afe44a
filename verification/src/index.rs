//! The index: a layered proximity graph over the vectors of its nodes.

use vstd::prelude::*;
use crate::graph::{HnswParams, IndexView, empty_view};

verus! {

/// A layered proximity graph over vectors, for approximate nearest-neighbour
/// search.
pub struct HnswIndex {
    pub(crate) params: HnswParams,
    pub(crate) vectors: Vec<Vec<i16>>,
    pub(crate) links: Vec<Vec<Vec<usize>>>,
    pub(crate) entry: usize,
}

impl View for HnswIndex {
    type V = IndexView;

    open(crate) spec fn view(&self) -> IndexView {
        IndexView {
            params: self.params,
            vectors: Seq::new(self.vectors@.len(), |i: int| self.vectors@[i]@),
            links: Seq::new(
                self.links@.len(),
                |i: int| Seq::new(self.links@[i]@.len(), |l: int| self.links@[i]@[l]@),
            ),
            entry: self.entry,
        }
    }
}

impl HnswIndex {
    /// The invariant of an index.
    pub open spec fn wf(&self) -> bool {
        self@.wf()
    }

    /// An index without nodes.
    pub fn new(params: HnswParams) -> (index: HnswIndex)
        ensures
            index.wf(),
            index@ == empty_view(params),
            index@.spanning(),
    {
        let index = HnswIndex { params, vectors: Vec::new(), links: Vec::new(), entry: 0 };
        assert(index@.vectors =~= Seq::empty());
        assert(index@.links =~= Seq::empty());
        index
    }

    /// The number of nodes.
    pub fn len(&self) -> (n: usize)
        ensures
            n == self@.vectors.len(),
    {
        self.vectors.len()
    }

    /// Whether `wanted` is among the neighbours of `id` on the lowest layer.
    pub(crate) fn has_base_link(&self, id: usize, wanted: usize) -> (r: bool)
        requires
            id < self@.links.len(),
            self@.links[id as int].len() >= 1,
        ensures
            r == self@.links[id as int][0].contains(wanted),
    {
        let list = &self.links[id][0];
        let mut t: usize = 0;
        while t < list.len()
            invariant
                t <= list.len(),
                list@ == self@.links[id as int][0],
                forall|u: int| 0 <= u < t ==> list[u] != wanted,
            decreases list.len() - t,
        {
            if list[t] == wanted {
                return true;
            }
            t += 1;
        }
        false
    }

    /// Whether every node but the first is linked, on the lowest layer, with
    /// a node before it. A search whose beam is as wide as such an index is
    /// large is exact.
    pub fn is_spanning(&self) -> (r: bool)
        requires
            self.wf(),
        ensures
            r == self@.spanning(),
    {
        let ghost g = self@;
        let mut i: usize = 1;
        while i < self.links.len()
            invariant
                self.wf(),
                g == self@,
                1 <= i,
                forall|a: int| 1 <= a < i && a < g.links.len() ==> #[trigger] g.has_parent(a),
            decreases self.links.len() - i,
        {
            assert(1 <= g.links[i as int].len() == self.links[i as int].len());
            let list = &self.links[i][0];
            let mut found = false;
            let mut t: usize = 0;
            while t < list.len() && !found
                invariant
                    self.wf(),
                    g == self@,
                    i < g.links.len(),
                    t <= list.len(),
                    list@ == g.links[i as int][0],
                    g.list_ok(i as int, 0),
                    found ==> g.has_parent(i as int),
                    !found ==> forall|u: int| 0 <= u < t ==> !(list[u] < i && g.linked(i as int, list[u] as int)),
                decreases list.len() - t,
            {
                let j = list[t];
                if j < i && self.has_base_link(j, i) {
                    assert(g.linked(i as int, j as int));
                    found = true;
                }
                t += 1;
            }
            if !found {
                proof {
                    if g.has_parent(i as int) {
                        let j = choose|j: int| 0 <= j < i && #[trigger] g.linked(i as int, j);
                        assert(list@.contains(j as usize));
                    }
                }
                return false;
            }
            i += 1;
        }
        true
    }

    /// The parameters that the index was created with.
    pub fn params(&self) -> (params: HnswParams)
        ensures
            params == self@.params,
    {
        self.params
    }
}

} // verus!
