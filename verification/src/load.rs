//! Reading a snapshot back into an index, after checking that it is one.

use vstd::prelude::*;
use vstd::bytes::u64_from_le_bytes;
use vstd::slice::slice_subrange;
use crate::error::Error;
use crate::format::{
    HEADER_WORDS, MAGIC, Snapshot, VERSION, bytes_words, decode, encode, first_top, fits,
    lemma_first_top, lemma_parse_layers_none, lemma_parse_nodes_none, lemma_parse_nodes_span,
    links_view, load_outcome, parse_layers, parse_list, parse_node, parse_nodes, parse_params,
    vectors_view,
};
use crate::graph::{HnswParams, IndexView};
use crate::index::HnswIndex;
use crate::level::MAX_LEVEL;
use crate::metric::Metric;
use crate::roundtrip::{lemma_loaded_index_encodes, lemma_save_load};

verus! {

/// The words that `bytes` hold, where they are whole words.
pub(crate) fn bytes_to_words(bytes: &[u8]) -> (r: Option<Vec<u64>>)
    ensures
        match r {
            Some(words) => bytes@.len() % 8 == 0 && words@ == bytes_words(bytes@),
            None => bytes@.len() % 8 != 0,
        },
{
    if bytes.len() % 8 != 0 {
        return None;
    }
    let count = bytes.len() / 8;
    let mut words: Vec<u64> = Vec::new();
    let mut i: usize = 0;
    while i < count
        invariant
            i <= count,
            count * 8 == bytes.len(),
            count == bytes@.len() / 8,
            words.len() == i,
            forall|t: int| 0 <= t < i ==> (#[trigger] words[t]) == bytes_words(bytes@)[t],
        decreases count - i,
    {
        let piece = slice_subrange(bytes, 8 * i, 8 * i + 8);
        words.push(u64_from_le_bytes(piece));
        i += 1;
    }
    Some(words)
}

/// Reads the list that starts at `pos`.
pub(crate) fn read_list(words: &Vec<u64>, pos: usize) -> (r: Option<(Vec<usize>, usize)>)
    ensures
        match r {
            Some((list, next)) => parse_list(words@, pos as int) == Some((list@, next as int)),
            None => parse_list(words@, pos as int) is None,
        },
{
    if pos >= words.len() {
        return None;
    }
    let room = words.len() - pos - 1;
    if words[pos] > room as u64 {
        return None;
    }
    let count = words[pos] as usize;
    let ghost raw = words@.subrange(pos + 1, pos + 1 + count);
    let mut list: Vec<usize> = Vec::new();
    let mut j: usize = 0;
    while j < count
        invariant
            j <= count,
            pos + 1 + count <= words.len(),
            words@[pos as int] == count,
            raw == words@.subrange(pos + 1, pos + 1 + count),
            list.len() == j,
            forall|t: int| 0 <= t < j ==> fits(#[trigger] raw[t]) && list[t] == raw[t] as usize,
        decreases count - j,
    {
        let w = words[pos + 1 + j];
        assert(w == raw[j as int]);
        if w > usize::MAX as u64 {
            return None;
        }
        list.push(w as usize);
        j += 1;
    }
    Some((list, pos + 1 + count))
}

/// Reads the `count` lists that start at `pos`.
pub(crate) fn read_layers(words: &Vec<u64>, pos: usize, count: usize) -> (r: Option<
    (Vec<Vec<usize>>, usize),
>)
    ensures
        match r {
            Some((layers, next)) => {
                &&& parse_layers(words@, pos as int, count as nat) == Some(
                    (Seq::new(layers.len() as nat, |l: int| layers[l]@), next as int),
                )
                &&& layers.len() == count
            },
            None => parse_layers(words@, pos as int, count as nat) is None,
        },
{
    let mut layers: Vec<Vec<usize>> = Vec::new();
    let mut at: usize = pos;
    let mut l: usize = 0;
    while l < count
        invariant
            l <= count,
            layers.len() == l,
            parse_layers(words@, pos as int, l as nat) == Some(
                (Seq::new(layers.len() as nat, |l: int| layers[l]@), at as int),
            ),
        decreases count - l,
    {
        match read_list(words, at) {
            Some((list, next)) => {
                layers.push(list);
                at = next;
            },
            None => {
                proof {
                    lemma_parse_layers_none(words@, pos as int, (l + 1) as nat, count as nat);
                }
                return None;
            },
        }
        l += 1;
    }
    Some((layers, at))
}

/// Reads the node that starts at `pos`.
pub(crate) fn read_node(words: &Vec<u64>, pos: usize) -> (r: Option<(Vec<Vec<usize>>, usize)>)
    ensures
        match r {
            Some((layers, next)) => {
                &&& parse_node(words@, pos as int) == Some(
                    (Seq::new(layers.len() as nat, |l: int| layers[l]@), next as int),
                )
                &&& 1 <= layers.len() <= MAX_LEVEL + 1
            },
            None => parse_node(words@, pos as int) is None,
        },
{
    if pos >= words.len() {
        return None;
    }
    let top = words[pos];
    if top > MAX_LEVEL as u64 {
        return None;
    }
    read_layers(words, pos + 1, top as usize + 1)
}

/// Reads the `count` nodes that start at `pos`.
pub(crate) fn read_nodes(words: &Vec<u64>, pos: usize, count: usize) -> (r: Option<
    (Vec<Vec<Vec<usize>>>, usize),
>)
    ensures
        match r {
            Some((links, next)) => {
                &&& parse_nodes(words@, pos as int, count as nat) == Some(
                    (links_view(links@), next as int),
                )
                &&& links.len() == count
                &&& forall|i: int| 0 <= i < links.len() ==> 1 <= (#[trigger] links[i]).len() <= MAX_LEVEL + 1
            },
            None => parse_nodes(words@, pos as int, count as nat) is None,
        },
{
    let mut links: Vec<Vec<Vec<usize>>> = Vec::new();
    let mut at: usize = pos;
    let mut i: usize = 0;
    while i < count
        invariant
            i <= count,
            links.len() == i,
            forall|t: int| 0 <= t < links.len() ==> 1 <= (#[trigger] links[t]).len() <= MAX_LEVEL + 1,
            parse_nodes(words@, pos as int, i as nat) == Some((links_view(links@), at as int)),
        decreases count - i,
    {
        match read_node(words, at) {
            Some((node, next)) => {
                links.push(node);
                at = next;
            },
            None => {
                proof {
                    lemma_parse_nodes_none(words@, pos as int, (i + 1) as nat, count as nat);
                }
                return None;
            },
        }
        i += 1;
    }
    Some((links, at))
}

/// Whether a word can be a size or an identifier on this machine.
pub(crate) fn word_fits(w: u64) -> (r: bool)
    ensures
        r == fits(w),
{
    w <= usize::MAX as u64
}

/// Reads the parameters that a header holds.
pub(crate) fn read_params(words: &Vec<u64>) -> (r: Option<HnswParams>)
    ensures
        r == parse_params(words@),
{
    if words.len() < HEADER_WORDS || words[0] != MAGIC || words[1] != VERSION {
        return None;
    }
    if !word_fits(words[2]) || !word_fits(words[4]) || !word_fits(words[5]) || !word_fits(words[7])
        || !word_fits(words[8]) {
        return None;
    }
    let metric = if words[3] == 0 {
        Metric::Euclidean
    } else if words[3] == 1 {
        Metric::DotProduct
    } else if words[3] == 2 {
        Metric::Cosine
    } else {
        return None;
    };
    Some(
        HnswParams {
            dimension: words[2] as usize,
            metric,
            max_neighbors: words[4] as usize,
            max_neighbors_base: words[5] as usize,
            level_base: words[6],
            ef_construction: words[7] as usize,
            ef_search: words[8] as usize,
        },
    )
}

/// Reads the snapshot that `bytes` are.
pub(crate) fn read_snapshot(bytes: &[u8]) -> (r: Option<(HnswParams, Vec<Vec<Vec<usize>>>)>)
    ensures
        match r {
            Some((params, links)) => {
                &&& decode(bytes@) == Some(Snapshot { params, links: links_view(links@) })
                &&& forall|i: int| 0 <= i < links.len() ==> 1 <= (#[trigger] links[i]).len() <= MAX_LEVEL + 1
            },
            None => decode(bytes@) is None,
        },
{
    let words = match bytes_to_words(bytes) {
        Some(words) => words,
        None => {
            return None;
        },
    };
    let params = match read_params(&words) {
        Some(params) => params,
        None => {
            return None;
        },
    };
    if !word_fits(words[9]) {
        proof {
            if parse_nodes(words@, HEADER_WORDS as int, words[9] as nat) is Some {
                lemma_parse_nodes_span(words@, HEADER_WORDS as int, words[9] as nat);
            }
        }
        return None;
    }
    match read_nodes(&words, HEADER_WORDS, words[9] as usize) {
        Some((links, end)) => {
            if end != words.len() {
                return None;
            }
            Some((params, links))
        },
        None => None,
    }
}

/// The first of the nodes that are on the highest layer.
pub(crate) fn entry_of(links: &Vec<Vec<Vec<usize>>>) -> (entry: usize)
    ensures
        entry == first_top(links_view(links@), links.len() as nat),
{
    let ghost all = links_view(links@);
    let mut best: usize = 0;
    let mut i: usize = 1;
    while i < links.len()
        invariant
            1 <= i,
            all == links_view(links@),
            links.len() > 1 ==> i <= links.len(),
            links.len() > 1 ==> best < i,
            links.len() > 1 ==> best == first_top(all, i as nat),
            links.len() <= 1 ==> best == 0,
        decreases links.len() - i,
    {
        if links[i].len() > links[best].len() {
            best = i;
        }
        i += 1;
    }
    best
}

impl HnswIndex {
    /// Whether the neighbours of `i` on `l` are within the cap, are nodes of
    /// that layer other than `i`, and are all different.
    pub(crate) fn list_valid(&self, i: usize, l: usize) -> (r: bool)
        requires
            self@.on_layer(i as int, l as int),
        ensures
            r == self@.list_ok(i as int, l as int),
    {
        let ghost g = self@;
        let list = &self.links[i][l];
        let cap = if l == 0 {
            self.params.max_neighbors_base
        } else {
            self.params.max_neighbors
        };
        if list.len() > cap {
            return false;
        }
        let n = self.links.len();
        let mut j: usize = 0;
        while j < list.len()
            invariant
                g == self@,
                n == g.links.len(),
                j <= list.len(),
                list@ == g.links[i as int][l as int],
                forall|t: int|
                    0 <= t < j ==> g.on_layer((#[trigger] list[t]) as int, l as int) && list[t] != i,
                forall|a: int, b: int| 0 <= a < b < j ==> list[a] != list[b],
            decreases list.len() - j,
        {
            let e = list[j];
            if e >= n || e == i {
                return false;
            }
            if l >= self.links[e].len() {
                return false;
            }
            let mut k: usize = 0;
            while k < j
                invariant
                    g == self@,
                    list@ == g.links[i as int][l as int],
                    k <= j,
                    j < list.len(),
                    e == list[j as int],
                    forall|a: int| 0 <= a < k ==> list[a] != e,
                decreases j - k,
            {
                if list[k] == e {
                    return false;
                }
                k += 1;
            }
            j += 1;
        }
        true
    }

    /// Whether every list of neighbours is as the invariant asks.
    pub(crate) fn graph_valid(&self) -> (r: bool)
        ensures
            r == (forall|i: int, l: int| self@.on_layer(i, l) ==> #[trigger] self@.list_ok(i, l)),
    {
        let ghost g = self@;
        let mut i: usize = 0;
        while i < self.links.len()
            invariant
                g == self@,
                i <= self.links.len(),
                forall|a: int, l: int| g.on_layer(a, l) && a < i ==> #[trigger] g.list_ok(a, l),
            decreases self.links.len() - i,
        {
            let mut l: usize = 0;
            while l < self.links[i].len()
                invariant
                    g == self@,
                    i < self.links.len(),
                    l <= self.links[i as int].len(),
                    g.links[i as int].len() == self.links[i as int].len(),
                    forall|a: int, b: int| g.on_layer(a, b) && a < i ==> #[trigger] g.list_ok(a, b),
                    forall|b: int| 0 <= b < l ==> #[trigger] g.list_ok(i as int, b),
                decreases self.links[i as int].len() - l,
            {
                if !self.list_valid(i, l) {
                    return false;
                }
                l += 1;
            }
            i += 1;
        }
        true
    }

    /// Whether every vector has the dimension that the parameters name.
    pub(crate) fn vectors_fit(&self) -> (r: bool)
        ensures
            r == (forall|i: int|
                0 <= i < self@.vectors.len() ==> (#[trigger] self@.vectors[i]).len()
                    == self@.params.dimension),
    {
        let ghost g = self@;
        let mut i: usize = 0;
        while i < self.vectors.len()
            invariant
                g == self@,
                i <= self.vectors.len(),
                forall|a: int| 0 <= a < i ==> (#[trigger] g.vectors[a]).len() == g.params.dimension,
            decreases self.vectors.len() - i,
        {
            assert(g.vectors[i as int] == self.vectors[i as int]@);
            if self.vectors[i].len() != self.params.dimension {
                return false;
            }
            i += 1;
        }
        true
    }

    /// Restores an index from a snapshot and the vectors of its nodes, the
    /// vector of node `i` at position `i`.
    ///
    /// Fails with `CorruptIndex` where the bytes are no snapshot (the magic
    /// word, the version or the metric is unknown, the nodes are cut short
    /// or followed by more), where the snapshot has not one node for each
    /// vector, or where a list of neighbours is over its cap, repeats a
    /// node, or names the node itself or one that is not on the layer. Fails
    /// with `DimensionMismatch` where a vector has not the dimension that
    /// the snapshot names.
    pub fn load(bytes: &[u8], vectors: Vec<Vec<i16>>) -> (r: Result<HnswIndex, Error>)
        ensures
            match r {
                Ok(index) => {
                    &&& index.wf()
                    &&& load_outcome(bytes@, vectors_view(vectors@)) == Ok::<IndexView, Error>(index@)
                    &&& index@.vectors == vectors_view(vectors@)
                    &&& encode(index@) == bytes@
                },
                Err(e) => {
                    &&& load_outcome(bytes@, vectors_view(vectors@)) == Err::<IndexView, Error>(e)
                    &&& forall|g: IndexView|
                        g.wf() && g.vectors == vectors_view(vectors@) ==> #[trigger] encode(g)
                            != bytes@
                },
            },
    {
        let ghost given = vectors_view(vectors@);
        proof {
            if load_outcome(bytes@, given) is Ok {
                lemma_loaded_index_encodes(bytes@, given);
            } else {
                assert forall|g: IndexView| g.wf() && g.vectors == given implies #[trigger] encode(g)
                    != bytes@ by {
                    lemma_save_load(g);
                }
            }
        }
        let (params, links) = match read_snapshot(bytes) {
            Some(parts) => parts,
            None => {
                return Err(Error::CorruptIndex);
            },
        };
        if links.len() != vectors.len() {
            return Err(Error::CorruptIndex);
        }
        let entry = entry_of(&links);
        let index = HnswIndex { params, vectors, links, entry };
        if !index.vectors_fit() {
            return Err(Error::DimensionMismatch);
        }
        if !index.graph_valid() {
            return Err(Error::CorruptIndex);
        }
        proof {
            let g = index@;
            if g.links.len() > 0 {
                lemma_first_top(g.links, g.links.len());
            }
        }
        Ok(index)
    }
}

} // verus!
