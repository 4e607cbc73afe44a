use docsearch::chunk::{DocParser, CHUNK_CHARS};

fn chunks(size: usize, text: &str) -> Vec<String> {
    DocParser::split_string_to_chunks(size, text.to_string())
}

#[test]
fn text_is_cut_into_equal_chunks() {
    assert_eq!(chunks(3, "abcdefg"), vec!["abc", "def", "g"]);
    assert_eq!(chunks(3, "abcdef"), vec!["abc", "def"]);
    assert_eq!(chunks(1, "abc"), vec!["a", "b", "c"]);
}

#[test]
fn short_text_is_one_chunk() {
    assert_eq!(chunks(10, "abc"), vec!["abc"]);
    assert_eq!(chunks(3, "abc"), vec!["abc"]);
    assert_eq!(chunks(usize::MAX, "abc"), vec!["abc"]);
}

#[test]
fn empty_text_gives_no_chunk() {
    assert_eq!(chunks(5, ""), Vec::<String>::new());
}

#[test]
fn chunks_count_characters_not_bytes() {
    assert_eq!(chunks(4, "héllo wörld"), vec!["héll", "o wö", "rld"]);
    assert_eq!(chunks(2, "日本語の文"), vec!["日本", "語の", "文"]);
}

#[test]
fn chunks_join_to_the_text() {
    let text: String = (0..1234).map(|i| char::from(b'a' + (i % 26) as u8)).collect();
    let sections = DocParser::split_string_to_chunks(CHUNK_CHARS, text.clone());
    assert_eq!(sections.len(), 13);
    assert!(sections[..12].iter().all(|s| s.chars().count() == 100));
    assert_eq!(sections[12].chars().count(), 34);
    assert_eq!(sections.concat(), text);
}
