//! Decoding of the start section: the function, if any, that runs
//! automatically once a module is instantiated, before the host calls
//! anything itself.
//!
//! There can be at most one start section, and its payload is nothing but a
//! single function index.
use crate::sections::{
    error_at,
    index_at,
    lemma_index_shift,
    read_index,
    shifted,
    ParseError,
    ParseErrorKind,
};
use crate::leb::u32_outcome;
use vstd::prelude::*;

verus! {

/// The function index a start section payload names, or why it is
/// malformed: one `u32` and nothing after it.
#[verifier::opaque]
pub open spec fn start_section(bytes: Seq<u8>, base: int) -> Result<u32, ParseError> {
    match index_at(bytes, 0, base) {
        Ok((index, end)) => if end != bytes.len() {
            Err(error_at(base + end, ParseErrorKind::SectionSizeMismatch))
        } else {
            Ok(index)
        },
        Err(e) => Err(e),
    }
}

/// Decodes the payload of a start section (id 8) into the index of the
/// function it names. `base` is the offset of `bytes` within the whole
/// module, so a `ParseError` reports a position the caller can find in the
/// input rather than one relative to the section payload.
pub fn decode_start_section(bytes: &[u8], base: usize) -> (res: Result<u32, ParseError>)
    requires
        base + bytes@.len() <= usize::MAX,
    ensures
        res == start_section(bytes@, base as int),
        res matches Err(e) ==> base <= e.offset <= base + bytes@.len(),
{
    reveal(start_section);
    let mut pos: usize = 0;
    let index = read_index(bytes, &mut pos, base)?;
    if pos != bytes.len() {
        return Err(ParseError { offset: base + pos, kind: ParseErrorKind::SectionSizeMismatch });
    }
    Ok(index)
}

/// Decoding a start section payload that sits `base` bytes into the module
/// gives what decoding it as if it sat at offset 0 gives, with every error
/// offset moved by `base`.
pub proof fn lemma_start_section_offsets(bytes: Seq<u8>, base: int)
    requires
        0 <= base,
        base + bytes.len() <= usize::MAX,
    ensures
        start_section(bytes, base) == shifted(start_section(bytes, 0), base),
{
    reveal(start_section);
    lemma_index_shift(bytes, 0, base);
}

/// A start section payload is one `u32` and nothing else: a malformed one
/// is a `Leb` error at the payload's start, bytes after it are a size
/// mismatch at the first of them, and otherwise it names its index.
pub proof fn lemma_start_section_reads_one_index(bytes: Seq<u8>, base: int)
    ensures
        start_section(bytes, base) == (match u32_outcome(bytes, 0) {
            (Err(_), _) => Err(error_at(base, ParseErrorKind::Leb)),
            (Ok(index), end) => if end == bytes.len() {
                Ok(index)
            } else {
                Err(error_at(base + end, ParseErrorKind::SectionSizeMismatch))
            },
        }),
{
    reveal(start_section);
}

} // verus!
