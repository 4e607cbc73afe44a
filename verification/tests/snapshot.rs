use docsearch::format::{HEADER_WORDS, MAGIC, VERSION};
use docsearch::error::Error;
use docsearch::graph::HnswParams;
use docsearch::index::HnswIndex;
use docsearch::metric::Metric;

fn params() -> HnswParams {
    HnswParams {
        dimension: 2,
        metric: Metric::DotProduct,
        max_neighbors: 3,
        max_neighbors_base: 5,
        level_base: 4,
        ef_construction: 10,
        ef_search: 7,
    }
}

fn bytes_of(words: &[u64]) -> Vec<u8> {
    words.iter().flat_map(|w| w.to_le_bytes()).collect()
}

fn words_of(bytes: &[u8]) -> Vec<u64> {
    bytes.chunks(8).map(|c| u64::from_le_bytes(c.try_into().unwrap())).collect()
}

fn header(count: u64) -> Vec<u64> {
    vec![MAGIC, VERSION, 2, 1, 3, 5, 4, 10, 7, count]
}

fn points(count: usize) -> Vec<Vec<i16>> {
    (0..count).map(|i| vec![(i * 13 % 50) as i16, (i * 29 % 50) as i16]).collect()
}

fn built(count: usize) -> HnswIndex {
    let mut index = HnswIndex::new(params());
    let mut draw: u64 = 17;
    for (id, p) in points(count).iter().enumerate() {
        draw = draw.wrapping_mul(6364136223846793005).wrapping_add(1442695040888963407);
        index.insert(id, p, draw ^ (draw >> 31)).unwrap();
    }
    index
}

fn load_error(bytes: &[u8], vectors: Vec<Vec<i16>>) -> Option<Error> {
    HnswIndex::load(bytes, vectors).err()
}

#[test]
fn snapshot_of_an_empty_index() {
    let bytes = HnswIndex::new(params()).save();
    assert_eq!(bytes, bytes_of(&header(0)));
    assert_eq!(&bytes[..8], b"HNSWIDX\0");
    assert_eq!(HEADER_WORDS, 10);
}

#[test]
fn snapshot_of_one_node() {
    let mut index = HnswIndex::new(params());
    // To the base four this draw puts the node on layer one.
    index.insert(0, &[1, 2], (1 << 62) - 1).unwrap();
    let mut words = header(1);
    words.extend([1, 0, 0]);
    assert_eq!(index.save(), bytes_of(&words));
}

#[test]
fn snapshot_of_two_linked_nodes() {
    let mut index = HnswIndex::new(params());
    index.insert(0, &[1, 2], u64::MAX).unwrap();
    index.insert(1, &[2, 1], u64::MAX).unwrap();
    let mut words = header(2);
    words.extend([0, 1, 1, 0, 1, 0]);
    assert_eq!(index.save(), bytes_of(&words));
}

#[test]
fn loaded_index_answers_as_the_saved_one() {
    let index = built(80);
    let bytes = index.save();
    let loaded = HnswIndex::load(&bytes, points(80)).unwrap();
    assert_eq!(loaded.len(), 80);
    assert_eq!(loaded.params(), params());
    assert_eq!(loaded.save(), bytes);
    for q in 0..50i16 {
        let query = [q, 49 - q];
        for k in [1usize, 5, 20] {
            assert_eq!(loaded.search(&query, k), index.search(&query, k));
        }
    }
}

#[test]
fn loaded_index_grows_as_the_saved_one() {
    let mut index = built(30);
    let mut loaded = HnswIndex::load(&index.save(), points(30)).unwrap();
    for id in 30..40usize {
        let v = [id as i16, 3];
        let draw = (id as u64).wrapping_mul(0x9e3779b97f4a7c15);
        assert_eq!(index.insert(id, &v, draw), Ok(()));
        assert_eq!(loaded.insert(id, &v, draw), Ok(()));
    }
    assert_eq!(index.save(), loaded.save());
}

#[test]
fn empty_snapshot_loads_to_an_empty_index() {
    let loaded = HnswIndex::load(&bytes_of(&header(0)), vec![]).unwrap();
    assert_eq!(loaded.len(), 0);
    assert_eq!(loaded.search(&[1, 2], 1), Err(Error::IndexEmpty));
}

#[test]
fn unknown_magic_is_corrupt() {
    let mut words = header(0);
    words[0] = MAGIC + 1;
    assert_eq!(load_error(&bytes_of(&words), vec![]), Some(Error::CorruptIndex));
}

#[test]
fn unknown_version_is_corrupt() {
    let mut words = header(0);
    words[1] = VERSION + 1;
    assert_eq!(load_error(&bytes_of(&words), vec![]), Some(Error::CorruptIndex));
    words[1] = 0;
    assert_eq!(load_error(&bytes_of(&words), vec![]), Some(Error::CorruptIndex));
}

#[test]
fn unknown_metric_is_corrupt() {
    let mut words = header(0);
    words[3] = 3;
    assert_eq!(load_error(&bytes_of(&words), vec![]), Some(Error::CorruptIndex));
}

#[test]
fn known_metrics_are_read() {
    for (id, metric) in [(0, Metric::Euclidean), (1, Metric::DotProduct), (2, Metric::Cosine)] {
        let mut words = header(0);
        words[3] = id;
        assert_eq!(HnswIndex::load(&bytes_of(&words), vec![]).unwrap().params().metric, metric);
    }
}

#[test]
fn neighbour_beyond_the_node_count_is_corrupt() {
    let mut words = header(2);
    words.extend([0, 1, 2, 0, 1, 0]);
    assert_eq!(load_error(&bytes_of(&words), points(2)), Some(Error::CorruptIndex));
    let mut words = header(2);
    words.extend([0, 1, u64::MAX, 0, 1, 0]);
    assert_eq!(load_error(&bytes_of(&words), points(2)), Some(Error::CorruptIndex));
}

#[test]
fn neighbour_lists_must_fit_the_invariant() {
    // A node that names itself.
    let mut words = header(2);
    words.extend([0, 1, 0, 0, 1, 0]);
    assert_eq!(load_error(&bytes_of(&words), points(2)), Some(Error::CorruptIndex));
    // A neighbour named twice.
    let mut words = header(2);
    words.extend([0, 2, 1, 1, 0, 0]);
    assert_eq!(load_error(&bytes_of(&words), points(2)), Some(Error::CorruptIndex));
    // A neighbour on layer one that is on layer zero only.
    let mut words = header(2);
    words.extend([1, 0, 1, 1, 0, 0]);
    assert_eq!(load_error(&bytes_of(&words), points(2)), Some(Error::CorruptIndex));
    // More neighbours on layer zero than the cap of five.
    let mut words = header(7);
    words.extend([0, 6, 1, 2, 3, 4, 5, 6]);
    for _ in 1..7 {
        words.extend([0, 0]);
    }
    assert_eq!(load_error(&bytes_of(&words), points(7)), Some(Error::CorruptIndex));
    // Five are within it.
    let mut words = header(7);
    words.extend([0, 5, 1, 2, 3, 4, 5]);
    for _ in 1..7 {
        words.extend([0, 0]);
    }
    assert!(HnswIndex::load(&bytes_of(&words), points(7)).is_ok());
}

#[test]
fn cut_or_padded_snapshots_are_corrupt() {
    let bytes = built(10).save();
    assert!(HnswIndex::load(&bytes, points(10)).is_ok());
    assert_eq!(load_error(&bytes[..bytes.len() - 8], points(10)), Some(Error::CorruptIndex));
    assert_eq!(load_error(&bytes[..bytes.len() - 1], points(10)), Some(Error::CorruptIndex));
    assert_eq!(load_error(&bytes[..40], points(10)), Some(Error::CorruptIndex));
    assert_eq!(load_error(&[], points(10)), Some(Error::CorruptIndex));
    let mut longer = bytes.clone();
    longer.extend([0u8; 8]);
    assert_eq!(load_error(&longer, points(10)), Some(Error::CorruptIndex));
}

#[test]
fn layer_above_the_highest_is_corrupt() {
    let mut words = header(1);
    words.push(65);
    words.extend(std::iter::repeat(0).take(66));
    assert_eq!(load_error(&bytes_of(&words), points(1)), Some(Error::CorruptIndex));
    let mut words = header(1);
    words.push(64);
    words.extend(std::iter::repeat(0).take(65));
    assert!(HnswIndex::load(&bytes_of(&words), points(1)).is_ok());
}

#[test]
fn node_count_must_match_the_vectors() {
    let bytes = built(10).save();
    assert_eq!(load_error(&bytes, points(9)), Some(Error::CorruptIndex));
    assert_eq!(load_error(&bytes, points(11)), Some(Error::CorruptIndex));
    let mut words = header(u64::MAX);
    words.extend([0, 0]);
    assert_eq!(load_error(&bytes_of(&words), points(1)), Some(Error::CorruptIndex));
}

#[test]
fn vectors_must_have_the_dimension() {
    let bytes = built(3).save();
    let mut vectors = points(3);
    vectors[1].push(0);
    assert_eq!(load_error(&bytes, vectors), Some(Error::DimensionMismatch));
}

#[test]
fn entry_point_is_the_first_node_of_the_top_layer() {
    // Nodes one and two are both on layer one; node one is where searches start.
    let mut words = header(3);
    words.extend([0, 1, 1]);
    words.extend([1, 1, 0, 0]);
    words.extend([1, 0, 0]);
    let loaded = HnswIndex::load(&bytes_of(&words), vec![vec![0, 0], vec![1, 0], vec![9, 9]]).unwrap();
    // From node one the walk reaches node zero, never node two.
    assert_eq!(loaded.search(&[9, 9], 3), Ok(vec![1, 0]));
    assert_eq!(words_of(&loaded.save()), words);
}

#[test]
fn one_way_links_do_not_span() {
    // Node one names node zero, which does not name it back.
    let mut words = header(2);
    words.extend([0, 0, 0, 1, 0]);
    let loaded = HnswIndex::load(&bytes_of(&words), points(2)).unwrap();
    assert!(!loaded.is_spanning());
    let mut words = header(2);
    words.extend([0, 1, 1, 0, 1, 0]);
    let loaded = HnswIndex::load(&bytes_of(&words), points(2)).unwrap();
    assert!(loaded.is_spanning());
}
