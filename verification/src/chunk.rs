//! Cutting a document's text into chunks.

use vstd::prelude::*;
use vstd::string::{StrSliceExecFns, StringExecFns};

verus! {

/// The number of characters of a chunk of a document.
pub const CHUNK_CHARS: usize = 100;

/// The number of chunks of `size` characters that `len` characters make.
pub open spec fn chunk_count(len: int, size: int) -> int {
    (len + size - 1) / size
}

/// The chunk `i` of `text`: the characters from `i * size` up to
/// `(i + 1) * size`, or up to the end of the text if that comes first.
pub open spec fn chunk_at(text: Seq<char>, size: int, i: int) -> Seq<char> {
    text.subrange(
        i * size,
        if (i + 1) * size <= text.len() {
            (i + 1) * size
        } else {
            text.len() as int
        },
    )
}

/// Cuts documents into chunks.
pub struct DocParser {}

impl DocParser {
    /// Cuts `text` into consecutive chunks of `size_of_char_chunks`
    /// characters each; the last chunk holds what is left and may be
    /// shorter. An empty text gives no chunk.
    pub fn split_string_to_chunks(size_of_char_chunks: usize, text: String) -> (sections: Vec<String>)
        requires
            size_of_char_chunks > 0,
        ensures
            sections.len() == chunk_count(text@.len() as int, size_of_char_chunks as int),
            forall|i: int|
                0 <= i < sections.len() ==> (#[trigger] sections[i])@ == chunk_at(
                    text@,
                    size_of_char_chunks as int,
                    i,
                ),
    {
        let size = size_of_char_chunks;
        let whole = text.as_str();
        let len = whole.unicode_len();
        let mut sections: Vec<String> = Vec::new();
        let mut start: usize = 0;
        proof {
            assert(0 == 0 * size) by (nonlinear_arith);
            assert(chunk_count(0, size as int) == 0) by (nonlinear_arith)
                requires
                    size > 0,
            ;
        }
        while start < len
            invariant
                size > 0,
                len == text@.len(),
                whole@ == text@,
                start <= len,
                start == len ==> sections.len() == chunk_count(len as int, size as int),
                start < len ==> start == sections.len() * size,
                forall|i: int|
                    0 <= i < sections.len() ==> (#[trigger] sections[i])@ == chunk_at(
                        text@,
                        size as int,
                        i,
                    ),
            decreases len - start,
        {
            let end = if len - start > size {
                start + size
            } else {
                len
            };
            let ghost i = sections.len() as int;
            proof {
                assert((i + 1) * size == i * size + size) by (nonlinear_arith);
                if end == len {
                    assert(chunk_count(len as int, size as int) == i + 1) by (nonlinear_arith)
                        requires
                            i * size < len <= (i + 1) * size,
                            size > 0,
                    ;
                }
            }
            let piece = whole.substring_char(start, end);
            sections.push(String::from_str(piece));
            start = end;
        }
        sections
    }
}

} // verus!
