//! The format of a snapshot: the words that an index is written as, and
//! the index that words are read as.

use vstd::prelude::*;
use vstd::bytes::{spec_u64_from_le_bytes, spec_u64_to_le_bytes};
use crate::error::Error;
use crate::graph::{HnswParams, IndexView};
use crate::level::MAX_LEVEL;
use crate::metric::Metric;

verus! {

/// The first word of every snapshot.
pub const MAGIC: u64 = 0x0058_4449_5753_4e48;

/// The version of the snapshot format.
pub const VERSION: u64 = 1;

/// The number of words before the nodes.
pub const HEADER_WORDS: usize = 10;

/// What a snapshot holds: the parameters and the graph, without the vectors.
pub struct Snapshot {
    pub params: HnswParams,
    pub links: Seq<Seq<Seq<usize>>>,
}

/// The number that stands for a metric in a snapshot.
pub open spec fn metric_id(metric: Metric) -> u64 {
    match metric {
        Metric::Euclidean => 0,
        Metric::DotProduct => 1,
        Metric::Cosine => 2,
    }
}

/// The words of a list of neighbours: their number, then each of them.
pub open spec fn list_words(list: Seq<usize>) -> Seq<u64> {
    seq![list.len() as u64] + list.map_values(|x: usize| x as u64)
}

/// The words of the lists of a node, from layer zero up.
pub open spec fn layers_words(layers: Seq<Seq<usize>>) -> Seq<u64>
    decreases layers.len(),
{
    if layers.len() == 0 {
        Seq::empty()
    } else {
        layers_words(layers.drop_last()) + list_words(layers.last())
    }
}

/// The words of a node: its top layer, then its lists.
pub open spec fn node_words(layers: Seq<Seq<usize>>) -> Seq<u64> {
    seq![(layers.len() - 1) as u64] + layers_words(layers)
}

/// The words of the nodes, by ascending identifier.
pub open spec fn nodes_words(links: Seq<Seq<Seq<usize>>>) -> Seq<u64>
    decreases links.len(),
{
    if links.len() == 0 {
        Seq::empty()
    } else {
        nodes_words(links.drop_last()) + node_words(links.last())
    }
}

/// The words that begin a snapshot of `count` nodes.
pub open spec fn header_words(params: HnswParams, count: nat) -> Seq<u64> {
    seq![
        MAGIC,
        VERSION,
        params.dimension as u64,
        metric_id(params.metric),
        params.max_neighbors as u64,
        params.max_neighbors_base as u64,
        params.level_base,
        params.ef_construction as u64,
        params.ef_search as u64,
        count as u64,
    ]
}

/// The words of a snapshot.
pub open spec fn snapshot_words(params: HnswParams, links: Seq<Seq<Seq<usize>>>) -> Seq<u64> {
    header_words(params, links.len()) + nodes_words(links)
}

/// The bytes of `words`: eight for each, the lowest first.
pub open spec fn words_bytes(words: Seq<u64>) -> Seq<u8>
    decreases words.len(),
{
    if words.len() == 0 {
        Seq::empty()
    } else {
        words_bytes(words.drop_last()) + spec_u64_to_le_bytes(words.last())
    }
}

/// The snapshot of an index.
pub open spec fn encode(g: IndexView) -> Seq<u8> {
    words_bytes(snapshot_words(g.params, g.links))
}

/// The words that `bytes` hold, eight bytes each.
pub open spec fn bytes_words(bytes: Seq<u8>) -> Seq<u64> {
    Seq::new(
        (bytes.len() / 8) as nat,
        |i: int| spec_u64_from_le_bytes(bytes.subrange(8 * i, 8 * i + 8)),
    )
}

/// Whether a word can be a size or an identifier on this machine.
pub open spec fn fits(w: u64) -> bool {
    w <= usize::MAX
}

/// The list that starts at `pos`, and the position after it.
pub open spec fn parse_list(words: Seq<u64>, pos: int) -> Option<(Seq<usize>, int)> {
    if 0 <= pos < words.len() && pos + 1 + words[pos] <= words.len() {
        let raw = words.subrange(pos + 1, pos + 1 + words[pos]);
        if forall|j: int| 0 <= j < raw.len() ==> fits(#[trigger] raw[j]) {
            Some((raw.map_values(|w: u64| w as usize), pos + 1 + words[pos]))
        } else {
            None
        }
    } else {
        None
    }
}

/// The `count` lists that start at `pos`, and the position after them.
pub open spec fn parse_layers(words: Seq<u64>, pos: int, count: nat) -> Option<
    (Seq<Seq<usize>>, int),
>
    decreases count,
{
    if count == 0 {
        Some((Seq::empty(), pos))
    } else {
        match parse_layers(words, pos, (count - 1) as nat) {
            Some((layers, mid)) => match parse_list(words, mid) {
                Some((list, end)) => Some((layers.push(list), end)),
                None => None,
            },
            None => None,
        }
    }
}

/// The node that starts at `pos`, and the position after it.
pub open spec fn parse_node(words: Seq<u64>, pos: int) -> Option<(Seq<Seq<usize>>, int)> {
    if 0 <= pos < words.len() && words[pos] <= MAX_LEVEL {
        parse_layers(words, pos + 1, (words[pos] + 1) as nat)
    } else {
        None
    }
}

/// The `count` nodes that start at `pos`, and the position after them.
pub open spec fn parse_nodes(words: Seq<u64>, pos: int, count: nat) -> Option<
    (Seq<Seq<Seq<usize>>>, int),
>
    decreases count,
{
    if count == 0 {
        Some((Seq::empty(), pos))
    } else {
        match parse_nodes(words, pos, (count - 1) as nat) {
            Some((nodes, mid)) => match parse_node(words, mid) {
                Some((node, end)) => Some((nodes.push(node), end)),
                None => None,
            },
            None => None,
        }
    }
}

/// The metric that `id` stands for.
pub open spec fn parse_metric(id: u64) -> Option<Metric> {
    if id == 0 {
        Some(Metric::Euclidean)
    } else if id == 1 {
        Some(Metric::DotProduct)
    } else if id == 2 {
        Some(Metric::Cosine)
    } else {
        None
    }
}

/// The parameters that a header holds.
pub open spec fn parse_params(words: Seq<u64>) -> Option<HnswParams> {
    if words.len() >= HEADER_WORDS && words[0] == MAGIC && words[1] == VERSION && fits(words[2])
        && fits(words[4]) && fits(words[5]) && fits(words[7]) && fits(words[8]) {
        match parse_metric(words[3]) {
            Some(metric) => Some(
                HnswParams {
                    dimension: words[2] as usize,
                    metric,
                    max_neighbors: words[4] as usize,
                    max_neighbors_base: words[5] as usize,
                    level_base: words[6],
                    ef_construction: words[7] as usize,
                    ef_search: words[8] as usize,
                },
            ),
            None => None,
        }
    } else {
        None
    }
}

/// The snapshot that `words` are, if they are one: a header with the magic
/// word, the version and a known metric, then exactly as many nodes as the
/// header counts, and nothing after them.
pub open spec fn decode_words(words: Seq<u64>) -> Option<Snapshot> {
    match parse_params(words) {
        Some(params) => match parse_nodes(words, HEADER_WORDS as int, words[9] as nat) {
            Some((links, end)) => if end == words.len() {
                Some(Snapshot { params, links })
            } else {
                None
            },
            None => None,
        },
        None => None,
    }
}

/// The snapshot that `bytes` are, if they are one.
pub open spec fn decode(bytes: Seq<u8>) -> Option<Snapshot> {
    if bytes.len() % 8 == 0 {
        decode_words(bytes_words(bytes))
    } else {
        None
    }
}

/// The first of the nodes `links[..count]` that are on the highest layer.
pub open spec fn first_top(links: Seq<Seq<Seq<usize>>>, count: nat) -> usize
    decreases count,
{
    if count <= 1 {
        0
    } else {
        let best = first_top(links, (count - 1) as nat);
        if links[count - 1].len() > links[best as int].len() {
            (count - 1) as usize
        } else {
            best
        }
    }
}

/// The index that a snapshot and the vectors of its nodes make.
pub open spec fn restored(s: Snapshot, vectors: Seq<Seq<i16>>) -> IndexView {
    IndexView {
        params: s.params,
        vectors,
        links: s.links,
        entry: first_top(s.links, s.links.len()),
    }
}

/// What `load` returns: `CorruptIndex` where the bytes are no snapshot,
/// where the snapshot has not one node for each vector, or where its graph
/// breaks the invariant of an index; `DimensionMismatch` where a vector has
/// not the dimension that the snapshot names; else the index.
pub open spec fn load_outcome(bytes: Seq<u8>, vectors: Seq<Seq<i16>>) -> Result<IndexView, Error> {
    match decode(bytes) {
        None => Err(Error::CorruptIndex),
        Some(s) => if s.links.len() != vectors.len() {
            Err(Error::CorruptIndex)
        } else if exists|i: int|
            0 <= i < vectors.len() && (#[trigger] vectors[i]).len() != s.params.dimension {
            Err(Error::DimensionMismatch)
        } else if !restored(s, vectors).wf() {
            Err(Error::CorruptIndex)
        } else {
            Ok(restored(s, vectors))
        },
    }
}

/// The graph held in `links`.
pub open spec fn links_view(links: Seq<Vec<Vec<usize>>>) -> Seq<Seq<Seq<usize>>> {
    Seq::new(links.len(), |i: int| Seq::new(links[i]@.len(), |l: int| links[i]@[l]@))
}

/// The vectors held in `vectors`.
pub open spec fn vectors_view(vectors: Seq<Vec<i16>>) -> Seq<Seq<i16>> {
    Seq::new(vectors.len(), |i: int| vectors[i]@)
}

/// Where fewer lists cannot be read, more cannot either.
pub proof fn lemma_parse_layers_none(words: Seq<u64>, pos: int, fewer: nat, more: nat)
    requires
        fewer <= more,
        parse_layers(words, pos, fewer) is None,
    ensures
        parse_layers(words, pos, more) is None,
    decreases more,
{
    if fewer < more {
        lemma_parse_layers_none(words, pos, fewer, (more - 1) as nat);
    }
}

/// Where fewer nodes cannot be read, more cannot either.
pub proof fn lemma_parse_nodes_none(words: Seq<u64>, pos: int, fewer: nat, more: nat)
    requires
        fewer <= more,
        parse_nodes(words, pos, fewer) is None,
    ensures
        parse_nodes(words, pos, more) is None,
    decreases more,
{
    if fewer < more {
        lemma_parse_nodes_none(words, pos, fewer, (more - 1) as nat);
    }
}

/// Lists that are read take at least one word each.
pub proof fn lemma_parse_layers_span(words: Seq<u64>, pos: int, count: nat)
    requires
        parse_layers(words, pos, count) is Some,
        0 <= pos,
    ensures
        pos + count <= (parse_layers(words, pos, count)->0).1 <= words.len() || count == 0,
        pos <= (parse_layers(words, pos, count)->0).1,
    decreases count,
{
    if count > 0 {
        lemma_parse_layers_span(words, pos, (count - 1) as nat);
    }
}

/// Nodes that are read take at least one word each, so that there are no
/// more nodes than words.
pub proof fn lemma_parse_nodes_span(words: Seq<u64>, pos: int, count: nat)
    requires
        parse_nodes(words, pos, count) is Some,
        0 <= pos,
    ensures
        pos + count <= (parse_nodes(words, pos, count)->0).1 <= words.len() || count == 0,
        pos <= (parse_nodes(words, pos, count)->0).1,
    decreases count,
{
    if count > 0 {
        lemma_parse_nodes_span(words, pos, (count - 1) as nat);
        let mid = (parse_nodes(words, pos, (count - 1) as nat)->0).1;
        lemma_parse_layers_span(words, mid + 1, (words[mid] + 1) as nat);
    }
}

/// The first of the nodes on the highest layer is one of them, no node lies
/// higher, and every node before it lies lower.
pub proof fn lemma_first_top(links: Seq<Seq<Seq<usize>>>, count: nat)
    requires
        1 <= count <= links.len(),
        count <= usize::MAX,
    ensures
        first_top(links, count) < count,
        forall|i: int|
            0 <= i < count ==> (#[trigger] links[i]).len() <= links[first_top(
                links,
                count,
            ) as int].len(),
        forall|i: int|
            0 <= i < first_top(links, count) ==> (#[trigger] links[i]).len() < links[first_top(
                links,
                count,
            ) as int].len(),
    decreases count,
{
    if count > 1 {
        lemma_first_top(links, (count - 1) as nat);
    }
}

} // verus!
