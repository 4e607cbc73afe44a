use docsearch::error::Error;
use docsearch::graph::HnswParams;
use docsearch::index::HnswIndex;
use docsearch::metric::Metric;

fn params(dimension: usize, metric: Metric) -> HnswParams {
    HnswParams {
        dimension,
        metric,
        max_neighbors: 4,
        max_neighbors_base: 8,
        level_base: 4,
        ef_construction: 16,
        ef_search: 8,
    }
}

#[test]
fn search_on_empty_index_fails() {
    let index = HnswIndex::new(params(3, Metric::Euclidean));
    assert_eq!(index.search(&[1, 2, 3], 1), Err(Error::IndexEmpty));
    assert_eq!(index.search(&[1, 2], 1), Err(Error::IndexEmpty));
}

#[test]
fn first_insert_is_found() {
    let mut index = HnswIndex::new(params(3, Metric::Euclidean));
    assert_eq!(index.insert(0, &[5, -7, 9], 12345), Ok(()));
    assert_eq!(index.search(&[5, -7, 9], 1), Ok(vec![0]));
}

#[test]
fn wrong_length_is_rejected() {
    let mut index = HnswIndex::new(params(3, Metric::Euclidean));
    assert_eq!(index.insert(0, &[5, -7], 1), Err(Error::DimensionMismatch));
    assert_eq!(index.len(), 0);
    assert_eq!(index.insert(0, &[5, -7, 9], 1), Ok(()));
    assert_eq!(index.search(&[5, -7], 1), Err(Error::DimensionMismatch));
}

#[test]
fn identifier_out_of_sequence_is_rejected() {
    let mut index = HnswIndex::new(params(2, Metric::Euclidean));
    assert_eq!(index.insert(1, &[0, 0], 1), Err(Error::NotFound));
    assert_eq!(index.insert(0, &[0, 0], 1), Ok(()));
    assert_eq!(index.insert(0, &[1, 1], 1), Err(Error::NotFound));
    assert_eq!(index.len(), 1);
}

#[test]
fn nearest_come_first_on_a_line() {
    let mut index = HnswIndex::new(params(1, Metric::Euclidean));
    let mut draw: u64 = 0x9e3779b97f4a7c15;
    for i in 0..200usize {
        draw = draw.wrapping_mul(6364136223846793005).wrapping_add(1442695040888963407);
        let x = ((i * 37) % 200) as i16;
        assert_eq!(index.insert(i, &[x * 10], draw), Ok(()));
    }
    let found = index.search(&[1003], 5).unwrap();
    let values: Vec<i16> = found.iter().map(|&id| (((id * 37) % 200) as i16) * 10).collect();
    assert_eq!(values, vec![1000, 1010, 990, 1020, 980]);
}

struct Lcg(u64);

impl Lcg {
    fn next(&mut self) -> u64 {
        self.0 = self.0.wrapping_mul(6364136223846793005).wrapping_add(1442695040888963407);
        let mixed = (self.0 ^ (self.0 >> 30)).wrapping_mul(0xbf58476d1ce4e5b9);
        mixed ^ (mixed >> 27)
    }

    fn component(&mut self, spread: u64) -> i16 {
        (self.next() % (2 * spread + 1)) as i16 - spread as i16
    }
}

fn brute_force(vectors: &[Vec<i16>], metric: Metric, query: &[i16], k: usize) -> Vec<usize> {
    let mut ranked: Vec<(i128, usize)> = vectors
        .iter()
        .enumerate()
        .map(|(id, v)| (docsearch::metric::distance(metric, query, v).unwrap(), id))
        .collect();
    ranked.sort();
    ranked.truncate(k);
    ranked.into_iter().map(|(_, id)| id).collect()
}

fn clustered(rng: &mut Lcg, count: usize, dimension: usize) -> Vec<Vec<i16>> {
    let centres: Vec<Vec<i16>> =
        (0..8).map(|_| (0..dimension).map(|_| rng.component(8000)).collect()).collect();
    (0..count)
        .map(|i| centres[i % 8].iter().map(|&c| c + rng.component(700)).collect())
        .collect()
}

#[test]
fn result_count_is_bounded_and_ids_are_unique() {
    let mut rng = Lcg(7);
    let vectors = clustered(&mut rng, 40, 4);
    let mut index = HnswIndex::new(params(4, Metric::Euclidean));
    for (id, v) in vectors.iter().enumerate() {
        assert_eq!(index.insert(id, v, rng.next()), Ok(()));
        for k in [0usize, 1, 3, id + 1, id + 2, 1000] {
            let found = index.search(&vectors[0], k).unwrap();
            assert!(found.len() <= k.min(id + 1));
            assert_eq!(found.is_empty(), k == 0);
            let mut sorted = found.clone();
            sorted.sort();
            sorted.dedup();
            assert_eq!(sorted.len(), found.len());
            assert!(found.iter().all(|&f| f <= id));
        }
    }
}

#[test]
fn asking_for_no_result_gives_none() {
    let mut index = HnswIndex::new(params(2, Metric::Euclidean));
    index.insert(0, &[1, 1], 5).unwrap();
    assert_eq!(index.search(&[1, 1], 0), Ok(vec![]));
}

#[test]
fn equal_distances_come_by_ascending_identifier() {
    let mut index = HnswIndex::new(params(2, Metric::Euclidean));
    let mut rng = Lcg(3);
    let points: [[i16; 2]; 5] = [[10, 0], [0, 10], [-10, 0], [0, -10], [10, 0]];
    for (id, p) in points.iter().enumerate() {
        index.insert(id, p, rng.next()).unwrap();
    }
    assert_eq!(index.search(&[0, 0], 5), Ok(vec![0, 1, 2, 3, 4]));
    assert_eq!(index.search(&[0, 0], 2), Ok(vec![0, 1]));
    assert_eq!(index.search(&[9, 0], 3), Ok(vec![0, 4, 1]));
}

#[test]
fn dot_product_prefers_the_largest_similarity() {
    let mut index = HnswIndex::new(params(2, Metric::DotProduct));
    let mut rng = Lcg(11);
    let points: [[i16; 2]; 4] = [[1, 0], [5, 0], [-3, 0], [2, 2]];
    for (id, p) in points.iter().enumerate() {
        index.insert(id, p, rng.next()).unwrap();
    }
    assert_eq!(index.search(&[1, 0], 4), Ok(vec![1, 3, 0, 2]));
    assert_eq!(index.search(&[-1, 0], 1), Ok(vec![2]));
}

#[test]
fn cosine_prefers_the_smallest_angle() {
    let mut index = HnswIndex::new(params(2, Metric::Cosine));
    let mut rng = Lcg(13);
    let points: [[i16; 2]; 4] = [[1000, 0], [0, 1000], [3000, 3000], [-1000, 10]];
    for (id, p) in points.iter().enumerate() {
        index.insert(id, p, rng.next()).unwrap();
    }
    assert_eq!(index.search(&[500, 400], 4), Ok(vec![2, 0, 1, 3]));
}

#[test]
fn generous_widths_recall_the_true_neighbours() {
    let mut rng = Lcg(2024);
    let vectors = clustered(&mut rng, 400, 8);
    let mut index = HnswIndex::new(HnswParams {
        dimension: 8,
        metric: Metric::Euclidean,
        max_neighbors: 16,
        max_neighbors_base: 32,
        level_base: 16,
        ef_construction: 200,
        ef_search: 200,
    });
    for (id, v) in vectors.iter().enumerate() {
        assert_eq!(index.insert(id, v, rng.next()), Ok(()));
    }
    let mut hits = 0;
    let mut asked = 0;
    for q in 0..40 {
        let query: Vec<i16> = vectors[(q * 7) % 400].iter().map(|&c| c + rng.component(300)).collect();
        let truth = brute_force(&vectors, Metric::Euclidean, &query, 10);
        let found = index.search(&query, 10).unwrap();
        assert_eq!(found.len(), 10);
        asked += truth.len();
        hits += truth.iter().filter(|id| found.contains(id)).count();
    }
    assert!(hits * 100 >= asked * 95, "recall {hits}/{asked}");
}

#[test]
fn results_are_ranked_by_distance() {
    let mut rng = Lcg(99);
    let vectors = clustered(&mut rng, 120, 6);
    let mut index = HnswIndex::new(params(6, Metric::Euclidean));
    for (id, v) in vectors.iter().enumerate() {
        index.insert(id, v, rng.next()).unwrap();
    }
    let query = vec![10, -20, 30, -40, 50, -60];
    let found = index.search(&query, 20).unwrap();
    let keys: Vec<(i128, usize)> = found
        .iter()
        .map(|&id| (docsearch::metric::distance(Metric::Euclidean, &query, &vectors[id]).unwrap(), id))
        .collect();
    assert!(keys.windows(2).all(|w| w[0] < w[1]));
}

#[test]
fn same_draws_build_the_same_index() {
    let mut rng = Lcg(5);
    let vectors = clustered(&mut rng, 60, 3);
    let draws: Vec<u64> = (0..60).map(|_| rng.next()).collect();
    let mut first = HnswIndex::new(params(3, Metric::Euclidean));
    let mut second = HnswIndex::new(params(3, Metric::Euclidean));
    for (id, v) in vectors.iter().enumerate() {
        first.insert(id, v, draws[id]).unwrap();
        second.insert(id, v, draws[id]).unwrap();
    }
    assert_eq!(first.save(), second.save());
}

#[test]
fn widths_of_zero_still_answer() {
    let mut index = HnswIndex::new(HnswParams {
        dimension: 1,
        metric: Metric::Euclidean,
        max_neighbors: 0,
        max_neighbors_base: 0,
        level_base: 0,
        ef_construction: 0,
        ef_search: 0,
    });
    for id in 0..5usize {
        assert_eq!(index.insert(id, &[id as i16], 0), Ok(()));
    }
    // Without neighbours only the entry point is reached.
    assert_eq!(index.search(&[4], 3), Ok(vec![0]));
}

#[test]
fn usual_parameters() {
    let p = HnswParams::new(4096, Metric::DotProduct);
    assert_eq!(
        p,
        HnswParams {
            dimension: 4096,
            metric: Metric::DotProduct,
            max_neighbors: 16,
            max_neighbors_base: 32,
            level_base: 16,
            ef_construction: 200,
            ef_search: 50,
        }
    );
    assert_eq!(HnswIndex::new(p).params(), p);
}

#[test]
fn widths_as_large_as_the_index_make_the_search_exact() {
    for metric in [Metric::Euclidean, Metric::DotProduct, Metric::Cosine] {
        let mut rng = Lcg(77);
        let vectors = clustered(&mut rng, 90, 5);
        let mut index = HnswIndex::new(HnswParams {
            dimension: 5,
            metric,
            max_neighbors: 2,
            max_neighbors_base: 90,
            level_base: 3,
            ef_construction: 1,
            ef_search: 90,
        });
        for (id, v) in vectors.iter().enumerate() {
            assert_eq!(index.insert(id, v, rng.next()), Ok(()));
        }
        for q in 0..30 {
            let query: Vec<i16> = (0..5).map(|_| rng.component(9000)).collect();
            for k in [1usize, 7, 90, 200] {
                let truth = brute_force(&vectors, metric, &query, k);
                assert_eq!(index.search(&query, k), Ok(truth), "query {q}, k {k}");
            }
        }
    }
}

#[test]
fn asking_for_all_nodes_widens_the_beam() {
    // The beam is as wide as the number of results asked for, so that with
    // lists that are never cut back every node is found.
    let mut rng = Lcg(8);
    let vectors = clustered(&mut rng, 50, 3);
    let mut index = HnswIndex::new(HnswParams {
        dimension: 3,
        metric: Metric::Euclidean,
        max_neighbors: 1,
        max_neighbors_base: 50,
        level_base: 2,
        ef_construction: 2,
        ef_search: 1,
    });
    for (id, v) in vectors.iter().enumerate() {
        index.insert(id, v, rng.next()).unwrap();
    }
    let query = [5, 5, 5];
    assert_eq!(index.search(&query, 50), Ok(brute_force(&vectors, Metric::Euclidean, &query, 50)));
}

#[test]
fn uncut_lists_keep_the_lowest_layer_spanning() {
    let mut rng = Lcg(21);
    let vectors = clustered(&mut rng, 40, 3);
    let mut wide = HnswIndex::new(HnswParams {
        dimension: 3,
        metric: Metric::Euclidean,
        max_neighbors: 2,
        max_neighbors_base: 40,
        level_base: 3,
        ef_construction: 4,
        ef_search: 4,
    });
    assert!(wide.is_spanning());
    for (id, v) in vectors.iter().enumerate() {
        wide.insert(id, v, rng.next()).unwrap();
        assert!(wide.is_spanning());
    }
    let loaded = HnswIndex::load(&wide.save(), vectors.clone()).unwrap();
    assert!(loaded.is_spanning());
}

#[test]
fn nodes_without_neighbours_do_not_span() {
    let mut index = HnswIndex::new(HnswParams {
        dimension: 1,
        metric: Metric::Euclidean,
        max_neighbors: 0,
        max_neighbors_base: 0,
        level_base: 2,
        ef_construction: 4,
        ef_search: 4,
    });
    index.insert(0, &[1], 1).unwrap();
    assert!(index.is_spanning());
    index.insert(1, &[2], 1).unwrap();
    assert!(!index.is_spanning());
}
