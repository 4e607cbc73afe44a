//! The parameters of an index, its mathematical model, and its invariant.

use vstd::prelude::*;
use crate::level::MAX_LEVEL;
use crate::metric::Metric;

verus! {

/// The parameters of an index, fixed when it is created.
#[derive(Debug, Clone, Copy, PartialEq, Eq, Structural)]
pub struct HnswParams {
    /// The number of components of every vector.
    pub dimension: usize,
    /// The metric by which vectors are compared.
    pub metric: Metric,
    /// The most neighbours a node may have on a layer above the lowest.
    pub max_neighbors: usize,
    /// The most neighbours a node may have on the lowest layer.
    pub max_neighbors_base: usize,
    /// The base `b` of the layer distribution: a node reaches layer `l` or
    /// above with probability `b^-l`, which is a level-generation factor of
    /// `1 / ln(b)`.
    pub level_base: u64,
    /// The number of candidates kept while a node is inserted.
    pub ef_construction: usize,
    /// The number of candidates kept while a query is answered.
    pub ef_search: usize,
}

impl HnswParams {
    /// Parameters with the usual widths: sixteen neighbours on the upper
    /// layers, twice as many on the lowest, a layer distribution to the
    /// base sixteen, two hundred candidates while inserting and fifty while
    /// answering.
    pub fn new(dimension: usize, metric: Metric) -> (params: HnswParams)
        ensures
            params == (HnswParams {
                dimension,
                metric,
                max_neighbors: 16,
                max_neighbors_base: 32,
                level_base: 16,
                ef_construction: 200,
                ef_search: 50,
            }),
    {
        HnswParams {
            dimension,
            metric,
            max_neighbors: 16,
            max_neighbors_base: 32,
            level_base: 16,
            ef_construction: 200,
            ef_search: 50,
        }
    }
}

/// An index as a mathematical value: its parameters, the vector of every
/// node, and for every node and every layer that it is on, the list of its
/// neighbours. A node's identifier is its position.
pub struct IndexView {
    pub params: HnswParams,
    pub vectors: Seq<Seq<i16>>,
    pub links: Seq<Seq<Seq<usize>>>,
    pub entry: usize,
}

impl IndexView {
    /// The most neighbours a node may have on `layer`.
    pub open spec fn cap(self, layer: int) -> int {
        if layer == 0 {
            self.params.max_neighbors_base as int
        } else {
            self.params.max_neighbors as int
        }
    }

    /// Whether `id` names a node that is on `layer`.
    pub open spec fn on_layer(self, id: int, layer: int) -> bool {
        0 <= id < self.links.len() && 0 <= layer < self.links[id].len()
    }

    /// Whether the neighbours of `id` on `layer` are within the cap, are
    /// nodes of that layer other than `id`, and are all different.
    pub open spec fn list_ok(self, id: int, layer: int) -> bool {
        let list = self.links[id][layer];
        &&& list.len() <= self.cap(layer)
        &&& forall|j: int|
            0 <= j < list.len() ==> self.on_layer((#[trigger] list[j]) as int, layer) && list[j]
                != id
        &&& forall|j: int, k: int| 0 <= j < k < list.len() ==> list[j] != list[k]
    }

    /// Whether the entry point is the first of the nodes on the top layer.
    pub open spec fn entry_ok(self) -> bool {
        if self.links.len() == 0 {
            self.entry == 0
        } else {
            &&& self.entry < self.links.len()
            &&& forall|i: int|
                0 <= i < self.links.len() ==> (#[trigger] self.links[i]).len()
                    <= self.links[self.entry as int].len()
            &&& forall|i: int|
                0 <= i < self.entry ==> (#[trigger] self.links[i]).len()
                    < self.links[self.entry as int].len()
        }
    }

    /// Whether the nodes `i` and `j` are neighbours of each other on the
    /// lowest layer.
    pub open spec fn linked(self, i: int, j: int) -> bool {
        self.links[i][0].contains(j as usize) && self.links[j][0].contains(i as usize)
    }

    /// Whether the node `i` is linked, on the lowest layer, with a node
    /// before it.
    pub open spec fn has_parent(self, i: int) -> bool {
        exists|j: int| 0 <= j < i && #[trigger] self.linked(i, j)
    }

    /// Whether every node but the first is linked, on the lowest layer, with
    /// a node before it: the links of the lowest layer then lead from every
    /// node to every other. An index is so as long as no list of the lowest
    /// layer had to be cut back to its cap.
    pub open spec fn spanning(self) -> bool {
        forall|i: int| 1 <= i < self.links.len() ==> #[trigger] self.has_parent(i)
    }

    /// The invariant of an index.
    pub open spec fn wf(self) -> bool {
        &&& self.links.len() == self.vectors.len()
        &&& self.vectors.len() <= usize::MAX
        &&& forall|i: int|
            0 <= i < self.vectors.len() ==> (#[trigger] self.vectors[i]).len()
                == self.params.dimension
        &&& forall|i: int|
            0 <= i < self.links.len() ==> 1 <= (#[trigger] self.links[i]).len() <= MAX_LEVEL + 1
        &&& forall|i: int, l: int| self.on_layer(i, l) ==> #[trigger] self.list_ok(i, l)
        &&& self.entry_ok()
    }
}

/// An index without nodes.
pub open spec fn empty_view(params: HnswParams) -> IndexView {
    IndexView { params, vectors: Seq::empty(), links: Seq::empty(), entry: 0 }
}

} // verus!
