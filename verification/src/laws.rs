//! What is inserted first is found.

use vstd::prelude::*;
use crate::error::Error;
use crate::graph::{HnswParams, IndexView, empty_view};
use crate::insert::{empty_lists, insert_outcome, lemma_grown_wf};
use crate::level::{lemma_level_bound, level_of};
use crate::search::{lemma_search_is_bounded, nearest, search_outcome};

verus! {

/// A search of an index of one node for one or more nodes returns that node.
pub proof fn lemma_single_node_search(g: IndexView, query: Seq<i16>, k: int)
    requires
        g.wf(),
        g.vectors.len() == 1,
        query.len() == g.params.dimension,
        k >= 1,
    ensures
        search_outcome(g, query, k) == Ok::<Seq<usize>, Error>(seq![0usize]),
{
    lemma_search_is_bounded(g, query, k);
    assert(nearest(g, query, k) =~= seq![0usize]);
}

/// A vector that is inserted into an empty index and then searched for is
/// found: the search returns the identifier that it was inserted under.
pub proof fn lemma_first_insert_is_found(params: HnswParams, vector: Seq<i16>, draw: u64, k: int)
    requires
        vector.len() == params.dimension,
        k >= 1,
    ensures
        insert_outcome(empty_view(params), 0, vector, draw) is Ok,
        insert_outcome(empty_view(params), 0, vector, draw)->Ok_0.wf(),
        search_outcome(insert_outcome(empty_view(params), 0, vector, draw)->Ok_0, vector, k) == Ok::<
            Seq<usize>,
            Error,
        >(seq![0usize]),
{
    let level = level_of(draw, params.level_base) as int;
    lemma_level_bound(draw, params.level_base);
    lemma_grown_wf(empty_view(params), vector, empty_lists(level + 1));
    lemma_single_node_search(insert_outcome(empty_view(params), 0, vector, draw)->Ok_0, vector, k);
}

} // verus!
