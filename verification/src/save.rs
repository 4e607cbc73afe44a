//! Writing the snapshot of an index.

use vstd::prelude::*;
use vstd::bytes::u64_to_le_bytes;
use crate::format::{
    MAGIC, VERSION, encode, header_words, layers_words, list_words, metric_id, node_words,
    nodes_words, words_bytes,
};
use crate::index::HnswIndex;
use crate::metric::Metric;

verus! {

/// The number that stands for `metric` in a snapshot.
pub(crate) fn metric_word(metric: Metric) -> (w: u64)
    ensures
        w == metric_id(metric),
{
    match metric {
        Metric::Euclidean => 0,
        Metric::DotProduct => 1,
        Metric::Cosine => 2,
    }
}

/// Appends the words of `list` to `out`.
pub(crate) fn write_list(out: &mut Vec<u64>, list: &Vec<usize>)
    ensures
        final(out)@ == old(out)@ + list_words(list@),
{
    let ghost before = out@;
    out.push(list.len() as u64);
    let mut j: usize = 0;
    while j < list.len()
        invariant
            j <= list.len(),
            out@ == before + list_words(list@).take(j + 1),
        decreases list.len() - j,
    {
        out.push(list[j] as u64);
        j += 1;
    }
}

/// Appends the words of a node with the lists `layers` to `out`.
pub(crate) fn write_node(out: &mut Vec<u64>, layers: &Vec<Vec<usize>>)
    requires
        layers.len() >= 1,
    ensures
        final(out)@ == old(out)@ + node_words(Seq::new(layers.len() as nat, |l: int| layers[l]@)),
{
    let ghost before = out@;
    let ghost all = Seq::new(layers.len() as nat, |l: int| layers[l]@);
    out.push((layers.len() - 1) as u64);
    let mut l: usize = 0;
    while l < layers.len()
        invariant
            l <= layers.len(),
            all == Seq::new(layers.len() as nat, |l: int| layers[l]@),
            out@ == before + seq![(layers.len() - 1) as u64] + layers_words(all.take(l as int)),
        decreases layers.len() - l,
    {
        write_list(out, &layers[l]);
        proof {
            let next = all.take(l + 1);
            assert(next.drop_last() =~= all.take(l as int));
        }
        l += 1;
    }
    assert(all.take(layers.len() as int) =~= all);
}

/// The bytes of `words`.
pub(crate) fn words_to_bytes(words: &Vec<u64>) -> (bytes: Vec<u8>)
    ensures
        bytes@ == words_bytes(words@),
{
    let mut bytes: Vec<u8> = Vec::new();
    let mut i: usize = 0;
    while i < words.len()
        invariant
            i <= words.len(),
            bytes@ == words_bytes(words@.take(i as int)),
        decreases words.len() - i,
    {
        let mut piece = u64_to_le_bytes(words[i]);
        bytes.append(&mut piece);
        proof {
            let next = words@.take(i + 1);
            assert(next.drop_last() =~= words@.take(i as int));
        }
        i += 1;
    }
    assert(words@.take(words.len() as int) =~= words@);
    bytes
}

impl HnswIndex {
    /// The snapshot of the index: its parameters and its graph. The vectors
    /// are not part of it.
    pub fn save(&self) -> (bytes: Vec<u8>)
        requires
            self.wf(),
        ensures
            bytes@ == encode(self@),
    {
        let ghost g = self@;
        let n = self.links.len();
        let mut words: Vec<u64> = Vec::new();
        words.push(MAGIC);
        words.push(VERSION);
        words.push(self.params.dimension as u64);
        words.push(metric_word(self.params.metric));
        words.push(self.params.max_neighbors as u64);
        words.push(self.params.max_neighbors_base as u64);
        words.push(self.params.level_base);
        words.push(self.params.ef_construction as u64);
        words.push(self.params.ef_search as u64);
        words.push(n as u64);
        let mut i: usize = 0;
        while i < n
            invariant
                self.wf(),
                g == self@,
                n == g.links.len(),
                i <= n,
                words@ == header_words(g.params, g.links.len()) + nodes_words(g.links.take(i as int)),
            decreases n - i,
        {
            assert(1 <= g.links[i as int].len());
            write_node(&mut words, &self.links[i]);
            proof {
                let next = g.links.take(i + 1);
                assert(next.drop_last() =~= g.links.take(i as int));
            }
            i += 1;
        }
        assert(g.links.take(n as int) =~= g.links);
        words_to_bytes(&words)
    }
}

} // verus!
