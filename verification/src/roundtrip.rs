//! Reading a snapshot undoes writing it, and writing undoes reading.

use vstd::prelude::*;
use vstd::bytes::{
    lemma_auto_spec_u64_to_from_le_bytes, spec_u64_from_le_bytes, spec_u64_to_le_bytes,
};
use crate::error::Error;
use crate::format::{
    HEADER_WORDS, Snapshot, bytes_words, decode, decode_words, encode, first_top, fits,
    header_words, layers_words, lemma_first_top, list_words, load_outcome, node_words, nodes_words,
    parse_layers, parse_list, parse_node, parse_nodes, snapshot_words, words_bytes,
};
use crate::graph::{HnswParams, IndexView};
use crate::level::MAX_LEVEL;
use crate::search::search_outcome;

verus! {

/// Whether `part` stands in `words` at `pos`.
pub open spec fn holds_at(words: Seq<u64>, pos: int, part: Seq<u64>) -> bool {
    0 <= pos && pos + part.len() <= words.len() && words.subrange(pos, pos + part.len()) == part
}

/// Where two parts stand one after the other, each of them stands.
pub proof fn lemma_holds_split(words: Seq<u64>, pos: int, a: Seq<u64>, b: Seq<u64>)
    requires
        holds_at(words, pos, a + b),
    ensures
        holds_at(words, pos, a),
        holds_at(words, pos + a.len(), b),
{
    let whole = words.subrange(pos, pos + (a + b).len());
    assert(words.subrange(pos, pos + a.len()) =~= a);
    assert(words.subrange(pos + a.len(), pos + a.len() + b.len()) =~= b) by {
        assert forall|k: int| 0 <= k < b.len() implies words.subrange(
            pos + a.len(),
            pos + a.len() + b.len(),
        )[k] == b[k] by {
            assert(whole[a.len() + k] == (a + b)[a.len() + k]);
        }
    }
}

/// Every word takes eight bytes.
pub proof fn lemma_words_bytes_len(words: Seq<u64>)
    ensures
        words_bytes(words).len() == 8 * words.len(),
    decreases words.len(),
{
    lemma_auto_spec_u64_to_from_le_bytes();
    if words.len() > 0 {
        lemma_words_bytes_len(words.drop_last());
    }
}

/// The eight bytes at `8 * i` are those of the word `i`.
pub proof fn lemma_words_bytes_chunk(words: Seq<u64>, i: int)
    requires
        0 <= i < words.len(),
    ensures
        words_bytes(words).subrange(8 * i, 8 * i + 8) == spec_u64_to_le_bytes(words[i]),
    decreases words.len(),
{
    lemma_auto_spec_u64_to_from_le_bytes();
    lemma_words_bytes_len(words);
    if i < words.len() - 1 {
        lemma_words_bytes_chunk(words.drop_last(), i);
    }
}

/// The words of the bytes of `words` are `words`.
pub proof fn lemma_bytes_words_roundtrip(words: Seq<u64>)
    ensures
        words_bytes(words).len() % 8 == 0,
        bytes_words(words_bytes(words)) == words,
{
    lemma_auto_spec_u64_to_from_le_bytes();
    lemma_words_bytes_len(words);
    let bytes = words_bytes(words);
    assert forall|i: int| 0 <= i < words.len() implies bytes_words(bytes)[i] == words[i] by {
        lemma_words_bytes_chunk(words, i);
    }
}

/// A list that stands at `pos` is read back.
pub proof fn lemma_parse_list_roundtrip(words: Seq<u64>, pos: int, list: Seq<usize>)
    requires
        holds_at(words, pos, list_words(list)),
        list.len() <= usize::MAX,
    ensures
        parse_list(words, pos) == Some((list, pos + list_words(list).len())),
        list_words(list).len() == list.len() + 1,
{
    let part = list_words(list);
    let held = words.subrange(pos, pos + part.len());
    assert(held[0] == part[0]);
    let raw = words.subrange(pos + 1, pos + 1 + words[pos]);
    assert forall|j: int| 0 <= j < raw.len() implies fits(#[trigger] raw[j]) && raw[j]
        == list[j] as u64 by {
        assert(held[j + 1] == part[j + 1]);
    }
}

/// Lists that stand at `pos` are read back.
pub proof fn lemma_parse_layers_roundtrip(words: Seq<u64>, pos: int, layers: Seq<Seq<usize>>)
    requires
        holds_at(words, pos, layers_words(layers)),
        forall|l: int| 0 <= l < layers.len() ==> (#[trigger] layers[l]).len() <= usize::MAX,
    ensures
        parse_layers(words, pos, layers.len()) == Some(
            (layers, pos + layers_words(layers).len()),
        ),
    decreases layers.len(),
{
    if layers.len() > 0 {
        let front = layers.drop_last();
        lemma_holds_split(words, pos, layers_words(front), list_words(layers.last()));
        lemma_parse_layers_roundtrip(words, pos, front);
        lemma_parse_list_roundtrip(words, pos + layers_words(front).len(), layers.last());
    }
}

/// A node that stands at `pos` is read back.
pub proof fn lemma_parse_node_roundtrip(words: Seq<u64>, pos: int, layers: Seq<Seq<usize>>)
    requires
        holds_at(words, pos, node_words(layers)),
        1 <= layers.len() <= MAX_LEVEL + 1,
        forall|l: int| 0 <= l < layers.len() ==> (#[trigger] layers[l]).len() <= usize::MAX,
    ensures
        parse_node(words, pos) == Some((layers, pos + node_words(layers).len())),
{
    let top = seq![(layers.len() - 1) as u64];
    lemma_holds_split(words, pos, top, layers_words(layers));
    assert(words.subrange(pos, pos + 1)[0] == top[0]);
    lemma_parse_layers_roundtrip(words, pos + 1, layers);
}

/// Whether the lists of every node can be written as words.
pub open spec fn writable(links: Seq<Seq<Seq<usize>>>) -> bool {
    forall|i: int|
        0 <= i < links.len() ==> {
            &&& 1 <= (#[trigger] links[i]).len() <= MAX_LEVEL + 1
            &&& forall|l: int| 0 <= l < links[i].len() ==> (#[trigger] links[i][l]).len() <= usize::MAX
        }
}

/// Nodes that stand at `pos` are read back.
pub proof fn lemma_parse_nodes_roundtrip(words: Seq<u64>, pos: int, links: Seq<Seq<Seq<usize>>>)
    requires
        holds_at(words, pos, nodes_words(links)),
        writable(links),
    ensures
        parse_nodes(words, pos, links.len()) == Some((links, pos + nodes_words(links).len())),
    decreases links.len(),
{
    if links.len() > 0 {
        let front = links.drop_last();
        lemma_holds_split(words, pos, nodes_words(front), node_words(links.last()));
        lemma_parse_nodes_roundtrip(words, pos, front);
        lemma_parse_node_roundtrip(words, pos + nodes_words(front).len(), links.last());
    }
}

/// The words of a snapshot are read back as that snapshot.
pub proof fn lemma_decode_words_roundtrip(params: HnswParams, links: Seq<Seq<Seq<usize>>>)
    requires
        writable(links),
        links.len() <= usize::MAX,
    ensures
        decode_words(snapshot_words(params, links)) == Some(Snapshot { params, links }),
{
    let words = snapshot_words(params, links);
    assert(words.subrange(HEADER_WORDS as int, HEADER_WORDS + nodes_words(links).len())
        =~= nodes_words(links));
    lemma_parse_nodes_roundtrip(words, HEADER_WORDS as int, links);
}

/// The entry point of a well-formed index is the first of the nodes on its
/// highest layer.
pub proof fn lemma_entry_is_first_top(g: IndexView)
    requires
        g.wf(),
    ensures
        g.entry == first_top(g.links, g.links.len()),
{
    if g.links.len() > 0 {
        lemma_first_top(g.links, g.links.len());
    }
}

/// A well-formed graph can be written as words.
pub proof fn lemma_wf_writable(g: IndexView)
    requires
        g.wf(),
    ensures
        writable(g.links),
{
    assert forall|i: int| 0 <= i < g.links.len() implies {
        &&& 1 <= (#[trigger] g.links[i]).len() <= MAX_LEVEL + 1
        &&& forall|l: int| 0 <= l < g.links[i].len() ==> (#[trigger] g.links[i][l]).len() <= usize::MAX
    } by {
        assert forall|l: int| 0 <= l < g.links[i].len() implies (#[trigger] g.links[i][l]).len()
            <= usize::MAX by {
            assert(g.list_ok(i, l));
        }
    }
}

/// Saving an index and loading the snapshot with the index's vectors gives
/// the index back.
pub proof fn lemma_save_load(g: IndexView)
    requires
        g.wf(),
    ensures
        load_outcome(encode(g), g.vectors) == Ok::<IndexView, Error>(g),
{
    let words = snapshot_words(g.params, g.links);
    lemma_wf_writable(g);
    lemma_bytes_words_roundtrip(words);
    lemma_decode_words_roundtrip(g.params, g.links);
    lemma_entry_is_first_top(g);
}

/// An index that was saved and loaded again answers every query as the
/// index that was saved does.
pub proof fn lemma_loaded_index_answers_alike(g: IndexView, query: Seq<i16>, k: int)
    requires
        g.wf(),
    ensures
        load_outcome(encode(g), g.vectors) is Ok,
        search_outcome(load_outcome(encode(g), g.vectors)->Ok_0, query, k) == search_outcome(
            g,
            query,
            k,
        ),
{
    lemma_save_load(g);
}


/// Lists that are read are what stands where they were read.
pub proof fn lemma_parse_layers_sound(words: Seq<u64>, pos: int, count: nat)
    requires
        0 <= pos <= words.len(),
        parse_layers(words, pos, count) is Some,
    ensures
        pos <= (parse_layers(words, pos, count)->0).1 <= words.len(),
        (parse_layers(words, pos, count)->0).0.len() == count,
        words.subrange(pos, (parse_layers(words, pos, count)->0).1) == layers_words(
            (parse_layers(words, pos, count)->0).0,
        ),
    decreases count,
{
    if count > 0 {
        let (front, mid) = parse_layers(words, pos, (count - 1) as nat)->0;
        let (list, end) = parse_list(words, mid)->0;
        let layers = front.push(list);
        lemma_parse_layers_sound(words, pos, (count - 1) as nat);
        assert(layers.drop_last() =~= front);
    }
}

/// Nodes that are read are what stands where they were read.
pub proof fn lemma_parse_nodes_sound(words: Seq<u64>, pos: int, count: nat)
    requires
        0 <= pos <= words.len(),
        parse_nodes(words, pos, count) is Some,
    ensures
        pos <= (parse_nodes(words, pos, count)->0).1 <= words.len(),
        (parse_nodes(words, pos, count)->0).0.len() == count,
        words.subrange(pos, (parse_nodes(words, pos, count)->0).1) == nodes_words(
            (parse_nodes(words, pos, count)->0).0,
        ),
    decreases count,
{
    if count > 0 {
        let (front, mid) = parse_nodes(words, pos, (count - 1) as nat)->0;
        let (node, end) = parse_node(words, mid)->0;
        let links = front.push(node);
        lemma_parse_nodes_sound(words, pos, (count - 1) as nat);
        lemma_parse_layers_sound(words, mid + 1, (words[mid] + 1) as nat);
        assert(links.drop_last() =~= front);
    }
}

/// Words that are read as a snapshot are the words of that snapshot.
pub proof fn lemma_decode_words_sound(words: Seq<u64>)
    requires
        decode_words(words) is Some,
    ensures
        snapshot_words(decode_words(words)->0.params, decode_words(words)->0.links) == words,
{
    let s = decode_words(words)->0;
    lemma_parse_nodes_sound(words, HEADER_WORDS as int, words[9] as nat);
    let head = header_words(s.params, s.links.len());
    assert(head =~= words.subrange(0, HEADER_WORDS as int));
    assert(words =~= words.subrange(0, HEADER_WORDS as int) + words.subrange(
        HEADER_WORDS as int,
        words.len() as int,
    ));
}

/// The bytes of the first `count` words that `bytes` hold are the first
/// bytes of `bytes`.
pub proof fn lemma_bytes_words_prefix(bytes: Seq<u8>, count: nat)
    requires
        8 * count <= bytes.len(),
    ensures
        words_bytes(bytes_words(bytes).take(count as int)) == bytes.take(8 * (count as int)),
    decreases count,
{
    lemma_auto_spec_u64_to_from_le_bytes();
    let words = bytes_words(bytes).take(count as int);
    if count == 0 {
        assert(bytes.take(0) =~= Seq::empty());
    } else {
        lemma_bytes_words_prefix(bytes, (count - 1) as nat);
        assert(words.drop_last() =~= bytes_words(bytes).take(count - 1));
        let piece = bytes.subrange(8 * (count - 1), 8 * (count - 1) + 8);
        assert(words.last() == spec_u64_from_le_bytes(piece));
        assert(spec_u64_to_le_bytes(spec_u64_from_le_bytes(piece)) == piece);
        assert(bytes.take(8 * (count as int)) =~= bytes.take(8 * (count - 1)) + piece);
    }
}

/// Bytes that are read as a snapshot are the bytes of that snapshot, which
/// is then the only one that they are the bytes of.
pub proof fn lemma_decode_sound(bytes: Seq<u8>)
    requires
        decode(bytes) is Some,
    ensures
        words_bytes(snapshot_words(decode(bytes)->0.params, decode(bytes)->0.links)) == bytes,
{
    let count = (bytes.len() / 8) as nat;
    let words = bytes_words(bytes);
    assert(bytes.len() % 8 == 0);
    assert(8 * count == bytes.len());
    assert(decode_words(words) == decode(bytes));
    lemma_decode_words_sound(words);
    lemma_bytes_words_prefix(bytes, count);
    assert(words.take(count as int) =~= words);
    assert(bytes.take(8 * (count as int)) =~= bytes);
}

/// Whatever is loaded from bytes has those bytes as its snapshot.
pub proof fn lemma_loaded_index_encodes(bytes: Seq<u8>, vectors: Seq<Seq<i16>>)
    requires
        load_outcome(bytes, vectors) is Ok,
    ensures
        encode(load_outcome(bytes, vectors)->Ok_0) == bytes,
        load_outcome(bytes, vectors)->Ok_0.vectors == vectors,
        load_outcome(bytes, vectors)->Ok_0.wf(),
{
    lemma_decode_sound(bytes);
}

} // verus!
