//! Linking a new node back from its neighbours, whose lists are cut back to
//! their cap where they grow beyond it.

use vstd::prelude::*;
use crate::copy::copy_of;
use crate::graph::IndexView;
use crate::index::HnswIndex;
use crate::select::{ids_ok, reselected};

verus! {

/// `g` with `list` as the neighbours of `id` on `layer`.
pub open spec fn with_list(g: IndexView, id: int, layer: int, list: Seq<usize>) -> IndexView {
    IndexView {
        params: g.params,
        vectors: g.vectors,
        links: g.links.update(id, g.links[id].update(layer, list)),
        entry: g.entry,
    }
}

/// `g` with `n` added to the neighbours of `c` on `layer`; where that is one
/// neighbour too many, `c` keeps those that the selection takes.
pub open spec fn linked_back(g: IndexView, c: int, layer: int, n: usize) -> IndexView {
    let list = g.links[c][layer].push(n);
    with_list(
        g,
        c,
        layer,
        if list.len() > g.cap(layer) {
            reselected(g, c, layer, list)
        } else {
            list
        },
    )
}

/// `g` with `n` linked back from each of `list[from..]` on `layer`.
pub open spec fn attach_layer(g: IndexView, list: Seq<usize>, from: int, layer: int, n: usize) -> IndexView
    decreases list.len() - from,
{
    if 0 <= from < list.len() {
        attach_layer(linked_back(g, list[from] as int, layer, n), list, from + 1, layer, n)
    } else {
        g
    }
}

/// `g` with `n` linked back from its neighbours on the layers from `from` up.
pub open spec fn attach(g: IndexView, lists: Seq<Seq<usize>>, from: int, n: usize) -> IndexView
    decreases lists.len() - from,
{
    if 0 <= from < lists.len() {
        attach(attach_layer(g, lists[from], 0, from, n), lists, from + 1, n)
    } else {
        g
    }
}

/// The neighbour lists held in `lists`.
pub open spec fn lists_view(lists: Seq<Vec<usize>>) -> Seq<Seq<usize>> {
    Seq::new(lists.len(), |i: int| lists[i]@)
}

/// Whether node `i` has no link to `n` on layer `l`.
pub open spec fn no_link(g: IndexView, i: int, l: int, n: usize) -> bool {
    forall|t: int| 0 <= t < g.links[i][l].len() ==> (#[trigger] g.links[i][l][t]) != n
}

/// Whether `i` is none of `list[..upto]`.
pub open spec fn pending(list: Seq<usize>, upto: int, i: int) -> bool {
    forall|j: int| 0 <= j < upto && j < list.len() ==> (#[trigger] list[j]) != i
}

/// Whether no node has a link to `n` yet on a layer above `layer`, nor on
/// `layer` unless it is one of `list[..upto]`.
pub open spec fn fresh(g: IndexView, n: usize, layer: int, list: Seq<usize>, upto: int) -> bool {
    forall|i: int, l: int|
        g.on_layer(i, l) && i != n && (l > layer || (l == layer && pending(list, upto, i)))
            ==> #[trigger] no_link(g, i, l, n)
}

/// Giving a node a fitting list of neighbours keeps the index well-formed.
pub proof fn lemma_with_list_wf(g: IndexView, id: int, layer: int, list: Seq<usize>)
    requires
        g.wf(),
        g.on_layer(id, layer),
        list.len() <= g.cap(layer),
        ids_ok(g, layer, list),
        forall|j: int| 0 <= j < list.len() ==> (#[trigger] list[j]) != id,
    ensures
        with_list(g, id, layer, list).wf(),
        forall|i: int, l: int| with_list(g, id, layer, list).on_layer(i, l) == g.on_layer(i, l),
        forall|i: int|
            0 <= i < g.links.len() ==> (#[trigger] with_list(g, id, layer, list).links[i]).len()
                == g.links[i].len(),
{
    let h = with_list(g, id, layer, list);
    assert forall|i: int, l: int| h.on_layer(i, l) implies #[trigger] h.list_ok(i, l) by {
        assert(g.list_ok(i, l));
    }
}

/// Putting a list on one node leaves the other nodes without a link to `n`.
pub proof fn lemma_fresh_step(g: IndexView, n: usize, layer: int, list: Seq<usize>, t: int, kept: Seq<usize>)
    requires
        fresh(g, n, layer, list, t),
        0 <= t < list.len(),
        g.on_layer(list[t] as int, layer),
    ensures
        fresh(with_list(g, list[t] as int, layer, kept), n, layer, list, t + 1),
{
    let c = list[t] as int;
    let h = with_list(g, c, layer, kept);
    assert forall|i: int, l: int|
        h.on_layer(i, l) && i != n && (l > layer || (l == layer && pending(list, t + 1, i)))
            implies #[trigger] no_link(h, i, l, n) by {
        assert(no_link(g, i, l, n));
    }
}

impl HnswIndex {
    /// Adds `n` to the neighbours of `c` on `layer`; where that is one
    /// neighbour too many, `c` keeps those that the selection takes.
    pub(crate) fn link_back(&mut self, c: usize, layer: usize, n: usize)
        requires
            old(self).wf(),
            old(self)@.on_layer(c as int, layer as int),
            old(self)@.on_layer(n as int, layer as int),
            c != n,
            no_link(old(self)@, c as int, layer as int, n),
        ensures
            final(self).wf(),
            final(self)@ == linked_back(old(self)@, c as int, layer as int, n),
    {
        let ghost g = self@;
        assert(g.list_ok(c as int, layer as int));
        let mut list = copy_of(self.links[c][layer].as_slice());
        list.push(n);
        let cap = self.cap(layer);
        let kept = if list.len() > cap {
            self.reselect(c, layer, &list)
        } else {
            list
        };
        proof {
            lemma_with_list_wf(g, c as int, layer as int, kept@);
        }
        let ghost want = with_list(g, c as int, layer as int, kept@);
        self.links[c][layer] = kept;
        proof {
            assert(self@.links =~~= want.links);
        }
    }

    /// Links `n` back from each of its neighbours on every layer.
    pub(crate) fn attach(&mut self, lists: &Vec<Vec<usize>>, n: usize)
        requires
            old(self).wf(),
            n < old(self)@.links.len(),
            lists.len() >= 1,
            lists_view(lists@) == old(self)@.links[n as int],
            fresh(old(self)@, n, 0, lists[0]@, 0),
        ensures
            final(self).wf(),
            final(self)@ == attach(old(self)@, lists_view(lists@), 0, n),
    {
        let ghost start = self@;
        let ghost all = lists_view(lists@);
        let mut layer: usize = 0;
        while layer < lists.len()
            invariant
                self.wf(),
                layer <= lists.len(),
                n < self@.links.len(),
                all == lists_view(lists@),
                self@.links[n as int] == all,
                layer < lists.len() ==> fresh(self@, n, layer as int, lists[layer as int]@, 0),
                attach(start, all, 0, n) == attach(self@, all, layer as int, n),
            decreases lists.len() - layer,
        {
            let list = &lists[layer];
            let ghost before = self@;
            let mut t: usize = 0;
            while t < list.len()
                invariant
                    self.wf(),
                    layer < lists.len(),
                    t <= list.len(),
                    n < self@.links.len(),
                    all == lists_view(lists@),
                    all[layer as int] == list@,
                    self@.links[n as int] == all,
                    fresh(self@, n, layer as int, list@, t as int),
                    attach_layer(before, list@, 0, layer as int, n) == attach_layer(
                        self@,
                        list@,
                        t as int,
                        layer as int,
                        n,
                    ),
                decreases list.len() - t,
            {
                let c = list[t];
                let ghost g = self@;
                proof {
                    assert(g.list_ok(n as int, layer as int));
                }
                self.link_back(c, layer, n);
                proof {
                    let kept = self@.links[c as int][layer as int];
                    lemma_fresh_step(g, n, layer as int, list@, t as int, kept);
                }
                t += 1;
            }
            layer += 1;
        }
    }
}

} // verus!
