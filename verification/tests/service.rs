use docsearch::error::Error;
use docsearch::graph::HnswParams;
use docsearch::metric::Metric;
use docsearch::service::{assemble_context, question_prompt, EmbeddingService, ANSWER_CHUNKS};

const REAGAN: &str = "Ronald Reagan was president in 1986";
const CLINTON: &str = "Bill Clinton was president in 1996";
const CLOWNS: &str = "Clowns perform at circuses";

fn stub(text: &String) -> Option<Vec<i16>> {
    match text.as_str() {
        REAGAN => Some(vec![1000, 0, 0]),
        CLINTON => Some(vec![0, 1000, 0]),
        CLOWNS => Some(vec![0, 0, 1000]),
        "Who was president in 1986?" => Some(vec![900, 300, 0]),
        "Who was president in 1996?" => Some(vec![300, 900, 0]),
        "too short" => Some(vec![1, 2]),
        _ => None,
    }
}

fn service(metric: Metric) -> EmbeddingService {
    EmbeddingService::new(
        HnswParams {
            dimension: 3,
            metric,
            max_neighbors: 4,
            max_neighbors_base: 8,
            level_base: 4,
            ef_construction: 16,
            ef_search: 8,
        },
        42,
    )
}

fn ingested(metric: Metric) -> EmbeddingService {
    let mut s = service(metric);
    assert_eq!(s.add_document(REAGAN.to_string(), stub), Ok(0));
    assert_eq!(s.add_document(CLINTON.to_string(), stub), Ok(1));
    assert_eq!(s.add_document(CLOWNS.to_string(), stub), Ok(2));
    s
}

#[test]
fn question_about_1986_finds_reagan() {
    for metric in [Metric::Euclidean, Metric::DotProduct, Metric::Cosine] {
        let s = ingested(metric);
        let found = s.retrieve(&"Who was president in 1986?".to_string(), stub, 1);
        assert_eq!(found, Ok(vec![REAGAN.to_string()]));
        let found = s.retrieve(&"Who was president in 1996?".to_string(), stub, 1);
        assert_eq!(found, Ok(vec![CLINTON.to_string()]));
    }
}

#[test]
fn texts_come_nearest_first() {
    let s = ingested(Metric::Euclidean);
    let found = s.retrieve(&"Who was president in 1986?".to_string(), stub, 3);
    assert_eq!(found, Ok(vec![REAGAN.to_string(), CLINTON.to_string(), CLOWNS.to_string()]));
    let found = s.ask_question(&"Who was president in 1996?".to_string(), stub);
    assert_eq!(found, Ok(vec![CLINTON.to_string(), REAGAN.to_string(), CLOWNS.to_string()]));
    assert_eq!(ANSWER_CHUNKS, 10);
}

#[test]
fn retrieval_before_ingestion_fails() {
    let s = service(Metric::DotProduct);
    let found = s.retrieve(&"Who was president in 1986?".to_string(), stub, 1);
    assert_eq!(found, Err(Error::IndexEmpty));
    assert_eq!(s.ask_question(&"Who was president in 1986?".to_string(), stub), Err(Error::IndexEmpty));
    assert_eq!(s.query(&[1, 2, 3], 1), Err(Error::IndexEmpty));
}

#[test]
fn failed_embedding_is_reported() {
    let mut s = ingested(Metric::Euclidean);
    assert_eq!(s.add_document("unknown".to_string(), stub), Err(Error::EmbeddingError));
    assert_eq!(s.store().count(), 3);
    assert_eq!(s.index().len(), 3);
    assert_eq!(s.retrieve(&"unknown".to_string(), stub, 1), Err(Error::EmbeddingError));
    let empty = service(Metric::Euclidean);
    assert_eq!(empty.retrieve(&"unknown".to_string(), stub, 1), Err(Error::EmbeddingError));
}

#[test]
fn embedding_of_another_length_is_refused() {
    let mut s = ingested(Metric::Euclidean);
    assert_eq!(s.add_document("too short".to_string(), stub), Err(Error::DimensionMismatch));
    assert_eq!(s.store().count(), 3);
    assert_eq!(s.index().len(), 3);
    assert_eq!(s.retrieve(&"too short".to_string(), stub, 1), Err(Error::DimensionMismatch));
}

#[test]
fn record_stays_where_the_index_refuses_the_vector() {
    // The store takes the first vector whatever its length; the index asks for three.
    let mut s = service(Metric::Euclidean);
    assert_eq!(s.add_document("too short".to_string(), stub), Err(Error::DimensionMismatch));
    assert_eq!(s.store().count(), 1);
    assert_eq!(s.index().len(), 0);
    assert_eq!(s.store().get(0).unwrap().1, "too short");
}

#[test]
fn ingestion_with_given_embedding_and_draw() {
    let mut s = service(Metric::Euclidean);
    assert_eq!(s.ingest_embedded("a".to_string(), Some(vec![1, 2, 3]), 7), Ok(0));
    assert_eq!(s.ingest_embedded("b".to_string(), None, 7), Err(Error::EmbeddingError));
    assert_eq!(s.ingest_embedded("c".to_string(), Some(vec![4, 5, 6]), 8), Ok(1));
    assert_eq!(s.retrieve_embedded(Some(vec![4, 5, 5]), 2), Ok(vec!["c".to_string(), "a".to_string()]));
    assert_eq!(s.retrieve_embedded(None, 2), Err(Error::EmbeddingError));
    assert_eq!(s.retrieve_embedded(Some(vec![4, 5]), 2), Err(Error::DimensionMismatch));
}

#[test]
fn vectors_are_added_under_the_next_identifier() {
    let mut s = service(Metric::Euclidean);
    assert_eq!(s.add_to_index(1, &[1, 2, 3]), Err(Error::NotFound));
    assert_eq!(s.add_to_index(0, &[1, 2]), Err(Error::DimensionMismatch));
    assert_eq!(s.add_to_index(0, &[1, 2, 3]), Ok(()));
    assert_eq!(s.add_to_index(1, &[7, 8, 9]), Ok(()));
    assert_eq!(s.query(&[7, 8, 8], 2), Ok(vec![1, 0]));
    // The store knows neither record, so that their texts are not found.
    assert_eq!(s.retrieve_embedded(Some(vec![7, 8, 8]), 1), Err(Error::NotFound));
}

#[test]
fn many_vectors_are_drawn_onto_layers_and_found() {
    let mut s = EmbeddingService::new(HnswParams::new(2, Metric::Euclidean), 1);
    for id in 0..300usize {
        let v = [(id % 20) as i16 * 10, (id / 20) as i16 * 10];
        assert_eq!(s.add_to_index(id, &v), Ok(()));
    }
    for id in [0usize, 19, 150, 299] {
        let v = [(id % 20) as i16 * 10, (id / 20) as i16 * 10];
        assert_eq!(s.query(&v, 1), Ok(vec![id]));
    }
}

#[test]
fn snapshot_is_loaded_over_the_same_records() {
    let s = ingested(Metric::Euclidean);
    let bytes = s.build_index();
    let mut other = service(Metric::Euclidean);
    // Without the records the snapshot has more nodes than there are vectors.
    assert_eq!(other.load_index(&bytes), Err(Error::CorruptIndex));
    assert_eq!(other.index().len(), 0);
    for (text, vector) in [(REAGAN, [1000, 0, 0]), (CLINTON, [0, 1000, 0]), (CLOWNS, [0, 0, 1000])] {
        other.store().count();
        assert!(other.ingest_embedded(text.to_string(), Some(vector.to_vec()), 3).is_ok());
    }
    assert_eq!(other.load_index(&bytes), Ok(()));
    assert_eq!(other.build_index(), bytes);
    for q in ["Who was president in 1986?", "Who was president in 1996?"] {
        assert_eq!(other.retrieve(&q.to_string(), stub, 3), s.retrieve(&q.to_string(), stub, 3));
    }
}

#[test]
fn failed_load_keeps_the_index() {
    let mut s = ingested(Metric::Euclidean);
    let before = s.build_index();
    assert_eq!(s.load_index(&before[..before.len() - 3]), Err(Error::CorruptIndex));
    assert_eq!(s.load_index(b"not a snapshot at all...."), Err(Error::CorruptIndex));
    assert_eq!(s.build_index(), before);
    assert_eq!(s.query(&[900, 300, 0], 1), Ok(vec![0]));
}

#[test]
fn context_joins_texts_by_newlines() {
    let texts = vec!["one".to_string(), "two".to_string(), "three".to_string()];
    assert_eq!(assemble_context(&texts), "one\ntwo\nthree");
    assert_eq!(assemble_context(&vec!["only".to_string()]), "only");
    assert_eq!(assemble_context(&vec![]), "");
    assert_eq!(assemble_context(&vec!["".to_string(), "".to_string()]), "\n");
}

#[test]
fn prompt_holds_context_and_question() {
    assert_eq!(
        question_prompt("one\ntwo", "Which?"),
        "<human>:You will give a brief answer to a question using the following text between the <doc> tags:\n\n<doc>\none\ntwo\n<doc>\n\nHere is the question: Which?\n<bot>:"
    );
    assert_eq!(
        question_prompt("", ""),
        "<human>:You will give a brief answer to a question using the following text between the <doc> tags:\n\n<doc>\n\n<doc>\n\nHere is the question: \n<bot>:"
    );
}

#[test]
fn records_come_back_before_a_snapshot_is_loaded() {
    let s = ingested(Metric::DotProduct);
    let bytes = s.build_index();
    let mut other = service(Metric::DotProduct);
    assert_eq!(other.add_record(vec![1000, 0, 0], REAGAN.to_string()), Ok(0));
    assert_eq!(other.add_record(vec![0, 1000], "short".to_string()), Err(Error::DimensionMismatch));
    assert_eq!(other.add_record(vec![0, 1000, 0], CLINTON.to_string()), Ok(1));
    assert_eq!(other.index().len(), 0);
    // Two records are not enough for a snapshot of three nodes.
    assert_eq!(other.load_index(&bytes), Err(Error::CorruptIndex));
    assert_eq!(other.add_record(vec![0, 0, 1000], CLOWNS.to_string()), Ok(2));
    assert_eq!(other.load_index(&bytes), Ok(()));
    assert_eq!(other.index().len(), 3);
    let found = other.retrieve(&"Who was president in 1996?".to_string(), stub, 2);
    assert_eq!(found, Ok(vec![CLINTON.to_string(), REAGAN.to_string()]));
}

#[test]
fn loading_checks_the_vectors_against_the_snapshot() {
    let s = ingested(Metric::Euclidean);
    let bytes = s.build_index();
    let mut other = service(Metric::Euclidean);
    for text in ["a", "b", "c"] {
        other.add_record(vec![1, 2], text.to_string()).unwrap();
    }
    // The records have two components, the snapshot asks for three.
    assert_eq!(other.load_index(&bytes), Err(Error::DimensionMismatch));
    assert_eq!(other.index().len(), 0);
}
