//! Binary format framing: the module header and the sequence of sections
//! that follow it.
//!
//! This layer does not know what a type or an export is. It checks the magic
//! number and version, then walks the section list making sure every section
//! id is one the format defines, that sections appear in the order the
//! specification requires, and that each section's declared size actually
//! fits in what is left of the input.
use crate::leb::{
    encode_unsigned,
    lemma_u32_outcome_advances,
    lemma_u32_outcome_agree,
    lemma_unsigned_round_trip,
    read_u32,
    u32_outcome,
    LebError,
};
use vstd::arithmetic::power2::{lemma2_to64, pow2};
use vstd::prelude::*;

verus! {

/// Why a module could not be parsed.
#[derive(Debug, Clone, Copy, PartialEq, Eq)]
pub enum ParseErrorKind {
    /// The first four bytes are not `\0asm`.
    NotWasm,
    /// The version field is not `1`, the only version this crate understands.
    UnsupportedVersion,
    /// The input ended where more bytes were expected.
    UnexpectedEof,
    /// A LEB128 integer was malformed.
    Leb,
    /// A section id this format does not define.
    UnknownSectionId,
    /// Sections did not appear in the order the specification requires.
    SectionOutOfOrder,
    /// A section's declared size disagrees with its contents or with what
    /// remains of the input.
    SectionSizeMismatch,
    /// A byte where a value type was expected is not one of `i32`/`i64`/
    /// `f32`/`f64`.
    InvalidValType,
    /// A function type did not start with the `0x60` form byte.
    InvalidFuncType,
    /// An import or export kind byte, a table element type or a global
    /// mutability byte is not one the format defines.
    InvalidExternKind,
    /// A limits flag is not 0 or 1, or a maximum is below its minimum.
    InvalidLimits,
    /// A name is not valid UTF-8.
    InvalidUtf8,
    /// The code section does not hold one body per declared function.
    FunctionCodeMismatch,
    /// A type index names a type the type section does not define.
    TypeIndexOutOfRange,
    /// A function body declares more locals than it may.
    TooManyLocals,
    /// A function body does not finish with `end`.
    MissingEnd,
}

/// A parse failure, with the byte offset that caused it.
#[derive(Debug, Clone, Copy, PartialEq, Eq)]
pub struct ParseError {
    pub offset: usize,
    pub kind: ParseErrorKind,
}

/// One section as found by the framing pass: an id and its raw payload
/// bytes, not yet decoded.
#[derive(Debug, Clone, Copy, PartialEq, Eq)]
pub struct RawSection<'a> {
    pub id: u8,
    pub bytes: &'a [u8],
}

/// Where one section's payload lies in the module: `start..end`, as byte
/// offsets into the whole input.
#[derive(Debug, Clone, Copy, PartialEq, Eq)]
pub struct SectionBounds {
    pub id: u8,
    pub start: usize,
    pub end: usize,
}

/// The error of the given kind at the given offset.
pub open spec fn error_at(offset: int, kind: ParseErrorKind) -> ParseError {
    ParseError { offset: offset as usize, kind }
}

/// A vector result seen through the view of its vector.
pub open spec fn seq_result<T>(r: Result<Vec<T>, ParseError>) -> Result<Seq<T>, ParseError> {
    match r {
        Ok(v) => Ok(v@),
        Err(e) => Err(e),
    }
}

/// Where a non-custom section must stand: sections appear in the order
/// 1, 2, 3, 4, 5, 6, 7, 8, 9, 12, 10, 11, each at most once. The data-count
/// section (12) sits between element (9) and code (10). `None` for an id the
/// format does not define, and for the custom section 0, which may appear
/// anywhere.
pub open spec fn section_rank(id: u8) -> Option<int> {
    if 1 <= id <= 9 {
        Some(id - 1)
    } else if id == 12 {
        Some(9)
    } else if id == 10 {
        Some(10)
    } else if id == 11 {
        Some(11)
    } else {
        None
    }
}

/// The order the format lays non-custom sections out in: type, import,
/// function, table, memory, global, export, start, element, data count,
/// code, data.
pub open spec fn section_order() -> Seq<u8> {
    seq![1u8, 2, 3, 4, 5, 6, 7, 8, 9, 12, 10, 11]
}

proof fn lemma_rank_at_position(k: int)
    requires
        0 <= k < section_order().len(),
    ensures
        section_rank(section_order()[k]) == Some(k),
        section_order()[k] != 0,
{
    let o = section_order();
    assert(o[0] == 1 && o[1] == 2 && o[2] == 3 && o[3] == 4 && o[4] == 5 && o[5] == 6);
    assert(o[6] == 7 && o[7] == 8 && o[8] == 9 && o[9] == 12 && o[10] == 10 && o[11] == 11);
}

/// Ranks follow the format's section order: an id has a rank exactly when it
/// is listed in `section_order`, and of two listed ids the one listed first
/// ranks lower, so framing accepts them in that order and refuses them in the
/// other.
pub proof fn lemma_section_rank_follows_order(id: u8)
    ensures
        section_rank(id) is Some <==> section_order().contains(id),
        forall|i: int, j: int|
            0 <= i < j < section_order().len() ==> section_rank(#[trigger] section_order()[i]) is Some
                && section_rank(#[trigger] section_order()[j]) is Some
                && section_rank(section_order()[i]).unwrap() < section_rank(section_order()[j]).unwrap(),
{
    let o = section_order();
    assert forall|i: int| 0 <= i < o.len() implies section_rank(#[trigger] o[i]) == Some(i) by {
        lemma_rank_at_position(i);
    }
    if section_rank(id) is Some {
        let k = section_rank(id).unwrap();
        assert(o[k] == id);
    }
}

/// Framing `bytes` found the sections `b`, which hold the sections `secs`:
/// one for one, with the same ids and payloads.
pub open spec fn holds_sections(bytes: Seq<u8>, b: Seq<SectionBounds>, secs: Seq<(u8, Seq<u8>)>) -> bool {
    &&& b.len() == secs.len()
    &&& forall|i: int|
        0 <= i < b.len() ==> #[trigger] b[i].id == secs[i].0 && bytes.subrange(
            b[i].start as int,
            b[i].end as int,
        ) == secs[i].1
}

/// The eight bytes every module starts with: the magic number `\0asm` and
/// version 1.
pub open spec fn module_header() -> Seq<u8> {
    seq![0x00u8, 0x61, 0x73, 0x6D, 0x01, 0x00, 0x00, 0x00]
}

/// One section as the format writes it: the id byte, the payload's length in
/// unsigned LEB128, then the payload.
pub open spec fn section_bytes(id: u8, payload: Seq<u8>) -> Seq<u8> {
    seq![id] + encode_unsigned(payload.len()) + payload
}

/// Sections written one after another.
pub open spec fn sections_bytes(secs: Seq<(u8, Seq<u8>)>) -> Seq<u8>
    decreases secs.len(),
{
    if secs.len() == 0 {
        Seq::empty()
    } else {
        section_bytes(secs[0].0, secs[0].1) + sections_bytes(secs.drop_first())
    }
}

/// Every section of `secs` is a custom one (id 0) or the section listed at
/// position `ks[i]` of `section_order`, after position `after`; the
/// non-custom ones stand at strictly increasing positions; and every payload
/// fits a `u32` length.
pub open spec fn laid_out_in_order(secs: Seq<(u8, Seq<u8>)>, ks: Seq<int>, after: int) -> bool {
    &&& ks.len() == secs.len()
    &&& forall|i: int|
        0 <= i < secs.len() ==> (#[trigger] secs[i]).1.len() < 0x1_0000_0000 && (secs[i].0 != 0 ==> after
            < ks[i] < section_order().len() && section_order()[ks[i]] == secs[i].0)
    &&& forall|i: int, j: int|
        0 <= i < j < secs.len() && (#[trigger] secs[i]).0 != 0 && (#[trigger] secs[j]).0 != 0 ==> ks[i]
            < ks[j]
}

#[verifier::spinoff_prover]
#[verifier::rlimit(40)]
proof fn lemma_frame_written_sections(
    prefix: Seq<u8>,
    secs: Seq<(u8, Seq<u8>)>,
    ks: Seq<int>,
    last: int,
)
    requires
        laid_out_in_order(secs, ks, last),
        -1 <= last,
        prefix.len() + sections_bytes(secs).len() <= usize::MAX,
    ensures
        ({
            let whole = prefix + sections_bytes(secs);
            frame_from(whole, prefix.len() as int, last) matches Ok(b) && holds_sections(whole, b, secs)
        }),
    decreases secs.len(),
{
    let whole = prefix + sections_bytes(secs);
    let p = prefix.len() as int;
    if secs.len() == 0 {
        assert(whole =~= prefix);
        assert(frame_from(whole, p, last) == Ok::<Seq<SectionBounds>, ParseError>(Seq::empty()));
    } else {
        let id = secs[0].0;
        let payload = secs[0].1;
        let rest = secs.drop_first();
        let e = encode_unsigned(payload.len());
        let tail = sections_bytes(rest);
        let prefix2 = prefix + section_bytes(id, payload);
        assert(whole =~= (prefix + seq![id]) + e + (payload + tail));
        assert(whole =~= prefix2 + tail);
        assert(whole[p] == id);
        lemma2_to64();
        lemma_unsigned_round_trip(prefix + seq![id], payload.len(), payload + tail, 32);
        let payload_start = p + 1 + e.len();
        let payload_end = payload_start + payload.len();
        assert(u32_outcome(whole, p + 1) == (Ok::<u32, LebError>(payload.len() as u32), payload_start));
        assert(prefix2.len() == payload_end);
        let next_last = if id == 0 {
            last
        } else {
            lemma_rank_at_position(ks[0]);
            ks[0]
        };
        assert(next_last == (if id == 0 {
            last
        } else {
            section_rank(id).unwrap()
        }));
        let ks2 = ks.drop_first();
        assert forall|i: int| 0 <= i < rest.len() implies #[trigger] rest[i] == secs[i + 1] by {}
        assert(laid_out_in_order(rest, ks2, next_last)) by {
            assert forall|i: int|
                0 <= i < rest.len() implies (#[trigger] rest[i]).1.len() < 0x1_0000_0000 && (rest[i].0
                != 0 ==> next_last < ks2[i] < section_order().len() && section_order()[ks2[i]]
                == rest[i].0) by {
                assert(rest[i] == secs[i + 1]);
                if rest[i].0 != 0 && id != 0 {
                    assert(ks[0] < ks[i + 1]);
                }
            }
            assert forall|i: int, j: int|
                0 <= i < j < rest.len() && (#[trigger] rest[i]).0 != 0 && (#[trigger] rest[j]).0
                    != 0 implies ks2[i] < ks2[j] by {
                assert(rest[i] == secs[i + 1] && rest[j] == secs[j + 1]);
            }
        }
        assert(prefix2.len() + tail.len() == whole.len());
        lemma_frame_written_sections(prefix2, rest, ks2, next_last);
        let rb = frame_from(whole, payload_end, next_last).unwrap();
        assert(holds_sections(whole, rb, rest));
        let sb = SectionBounds { id, start: payload_start as usize, end: payload_end as usize };
        assert(frame_from(whole, p, last) == Ok::<Seq<SectionBounds>, ParseError>(seq![sb] + rb));
        let b = seq![sb] + rb;
        assert(whole.subrange(payload_start, payload_end) =~= payload);
        assert forall|i: int| 0 <= i < b.len() implies #[trigger] b[i].id == secs[i].0 && whole.subrange(
            b[i].start as int,
            b[i].end as int,
        ) == secs[i].1 by {
            if i > 0 {
                assert(b[i] == rb[i - 1]);
                assert(rest[i - 1] == secs[i]);
                assert(rb[i - 1].id == rest[i - 1].0);
            } else {
                assert(b[0] == sb);
                assert(sb.start as int == payload_start && sb.end as int == payload_end);
                assert(secs[0].1 == payload);
            }
        }
        assert(holds_sections(whole, b, secs));
        assert(frame_from(whole, prefix.len() as int, last) == Ok::<Seq<SectionBounds>, ParseError>(b));
    }
}

/// A module written as the header and then sections in the format's order -
/// type, import, function, table, memory, global, export, start, element,
/// data count, code, data, each at most once, with custom sections anywhere
/// among them - frames to exactly those sections: the same ids, in the same
/// order, each with its own payload.
pub proof fn lemma_sections_in_format_order_frame(secs: Seq<(u8, Seq<u8>)>, ks: Seq<int>)
    requires
        laid_out_in_order(secs, ks, -1),
        module_header().len() + sections_bytes(secs).len() <= usize::MAX,
    ensures
        ({
            let bytes = module_header() + sections_bytes(secs);
            frame(bytes) matches Ok(b) && holds_sections(bytes, b, secs)
        }),
{
    let bytes = module_header() + sections_bytes(secs);
    assert(bytes[0] == 0x00 && bytes[1] == 0x61 && bytes[2] == 0x73 && bytes[3] == 0x6D);
    assert(bytes[4] == 0x01 && bytes[5] == 0x00 && bytes[6] == 0x00 && bytes[7] == 0x00);
    lemma_frame_written_sections(module_header(), secs, ks, -1);
}

/// The rank of the last non-custom section of `secs`, laid out at positions
/// `ks`, or `last` when there is none.
pub open spec fn last_rank(secs: Seq<(u8, Seq<u8>)>, ks: Seq<int>, last: int) -> int
    decreases secs.len(),
{
    if secs.len() == 0 {
        last
    } else {
        last_rank(secs.drop_first(), ks.drop_first(), if secs[0].0 == 0 {
            last
        } else {
            ks[0]
        })
    }
}

#[verifier::spinoff_prover]
#[verifier::rlimit(40)]
proof fn lemma_frame_passes_written(
    prefix: Seq<u8>,
    secs: Seq<(u8, Seq<u8>)>,
    ks: Seq<int>,
    last: int,
    post: Seq<u8>,
)
    requires
        laid_out_in_order(secs, ks, last),
        -1 <= last,
        prefix.len() + sections_bytes(secs).len() + post.len() <= usize::MAX,
    ensures
        ({
            let whole = prefix + sections_bytes(secs) + post;
            let end = (prefix.len() + sections_bytes(secs).len()) as int;
            &&& last_rank(secs, ks, last) >= last
            &&& frame_from(whole, end, last_rank(secs, ks, last)) is Err ==> frame_from(
                whole,
                prefix.len() as int,
                last,
            ) == frame_from(whole, end, last_rank(secs, ks, last))
        }),
    decreases secs.len(),
{
    let whole = prefix + sections_bytes(secs) + post;
    let p = prefix.len() as int;
    if secs.len() == 0 {
        assert(sections_bytes(secs).len() == 0);
    } else {
        let id = secs[0].0;
        let payload = secs[0].1;
        let rest = secs.drop_first();
        let e = encode_unsigned(payload.len());
        let tail = sections_bytes(rest);
        let prefix2 = prefix + section_bytes(id, payload);
        assert(whole =~= (prefix + seq![id]) + e + (payload + tail + post));
        assert(whole =~= prefix2 + tail + post);
        assert(whole[p] == id);
        lemma2_to64();
        lemma_unsigned_round_trip(prefix + seq![id], payload.len(), payload + tail + post, 32);
        let payload_start = p + 1 + e.len();
        let payload_end = payload_start + payload.len();
        assert(u32_outcome(whole, p + 1) == (Ok::<u32, LebError>(payload.len() as u32), payload_start));
        assert(prefix2.len() == payload_end);
        let next_last = if id == 0 {
            last
        } else {
            lemma_rank_at_position(ks[0]);
            ks[0]
        };
        let ks2 = ks.drop_first();
        assert forall|i: int| 0 <= i < rest.len() implies #[trigger] rest[i] == secs[i + 1] by {}
        assert(laid_out_in_order(rest, ks2, next_last)) by {
            assert forall|i: int|
                0 <= i < rest.len() implies (#[trigger] rest[i]).1.len() < 0x1_0000_0000 && (rest[i].0
                != 0 ==> next_last < ks2[i] < section_order().len() && section_order()[ks2[i]]
                == rest[i].0) by {
                assert(rest[i] == secs[i + 1]);
                if rest[i].0 != 0 && id != 0 {
                    assert(ks[0] < ks[i + 1]);
                }
            }
            assert forall|i: int, j: int|
                0 <= i < j < rest.len() && (#[trigger] rest[i]).0 != 0 && (#[trigger] rest[j]).0
                    != 0 implies ks2[i] < ks2[j] by {
                assert(rest[i] == secs[i + 1] && rest[j] == secs[j + 1]);
            }
        }
        assert(prefix2.len() + tail.len() + post.len() == whole.len());
        lemma_frame_passes_written(prefix2, rest, ks2, next_last, post);
        assert(prefix2.len() + tail.len() == prefix.len() + sections_bytes(secs).len());
    }
}

/// Framing refuses a section that comes after one it must precede, or
/// repeats one, with `SectionOutOfOrder` at the refused section's id byte:
/// after a header and sections in the format's order, a section listed in
/// `section_order` no later than the last of them is refused there.
pub proof fn lemma_section_out_of_order_refused(
    secs: Seq<(u8, Seq<u8>)>,
    ks: Seq<int>,
    k: int,
    payload: Seq<u8>,
)
    requires
        laid_out_in_order(secs, ks, -1),
        0 <= k <= last_rank(secs, ks, -1),
        k < section_order().len(),
        payload.len() < 0x1_0000_0000,
        module_header().len() + sections_bytes(secs).len() + section_bytes(section_order()[k], payload).len()
            <= usize::MAX,
    ensures
        frame(module_header() + sections_bytes(secs) + section_bytes(section_order()[k], payload))
            == Err::<Seq<SectionBounds>, ParseError>(
            error_at(8 + sections_bytes(secs).len() as int, ParseErrorKind::SectionOutOfOrder),
        ),
{
    let id = section_order()[k];
    let bad = section_bytes(id, payload);
    let bytes = module_header() + sections_bytes(secs) + bad;
    assert(bytes[0] == 0x00 && bytes[1] == 0x61 && bytes[2] == 0x73 && bytes[3] == 0x6D);
    assert(bytes[4] == 0x01 && bytes[5] == 0x00 && bytes[6] == 0x00 && bytes[7] == 0x00);
    lemma_frame_passes_written(module_header(), secs, ks, -1, bad);
    lemma_rank_at_position(k);
    let end = 8 + sections_bytes(secs).len() as int;
    let e = encode_unsigned(payload.len());
    assert(bytes =~= (module_header() + sections_bytes(secs) + seq![id]) + e + payload);
    assert(bytes[end] == id);
    lemma2_to64();
    lemma_unsigned_round_trip(module_header() + sections_bytes(secs) + seq![id], payload.len(), payload, 32);
}

/// Framing refuses a section whose declared size runs past the end of the
/// input with `SectionSizeMismatch` where its payload would start, whatever
/// its id, after a header and any sections in the format's order.
pub proof fn lemma_truncated_section_refused(
    secs: Seq<(u8, Seq<u8>)>,
    ks: Seq<int>,
    id: u8,
    size: u32,
    payload: Seq<u8>,
)
    requires
        laid_out_in_order(secs, ks, -1),
        payload.len() < size,
        module_header().len() + sections_bytes(secs).len() + 1 + encode_unsigned(size as nat).len()
            + payload.len() <= usize::MAX,
    ensures
        frame(module_header() + sections_bytes(secs) + (seq![id] + encode_unsigned(size as nat) + payload))
            == Err::<Seq<SectionBounds>, ParseError>(
            error_at(
                8 + sections_bytes(secs).len() + 1 + encode_unsigned(size as nat).len() as int,
                ParseErrorKind::SectionSizeMismatch,
            ),
        ),
{
    let e = encode_unsigned(size as nat);
    let bad = seq![id] + e + payload;
    let bytes = module_header() + sections_bytes(secs) + bad;
    assert(bytes[0] == 0x00 && bytes[1] == 0x61 && bytes[2] == 0x73 && bytes[3] == 0x6D);
    assert(bytes[4] == 0x01 && bytes[5] == 0x00 && bytes[6] == 0x00 && bytes[7] == 0x00);
    lemma_frame_passes_written(module_header(), secs, ks, -1, bad);
    let end = 8 + sections_bytes(secs).len() as int;
    assert(bytes =~= (module_header() + sections_bytes(secs) + seq![id]) + e + payload);
    assert(bytes[end] == id);
    lemma2_to64();
    lemma_unsigned_round_trip(module_header() + sections_bytes(secs) + seq![id], size as nat, payload, 32);
}

/// Framing refuses a section whose id the format does not define with
/// `UnknownSectionId` at its id byte, after a header and any sections in
/// the format's order.
pub proof fn lemma_unknown_section_refused(secs: Seq<(u8, Seq<u8>)>, ks: Seq<int>, id: u8, payload: Seq<u8>)
    requires
        laid_out_in_order(secs, ks, -1),
        id != 0,
        !section_order().contains(id),
        payload.len() < 0x1_0000_0000,
        module_header().len() + sections_bytes(secs).len() + section_bytes(id, payload).len() <= usize::MAX,
    ensures
        frame(module_header() + sections_bytes(secs) + section_bytes(id, payload)) == Err::<
            Seq<SectionBounds>,
            ParseError,
        >(error_at(8 + sections_bytes(secs).len() as int, ParseErrorKind::UnknownSectionId)),
{
    let bad = section_bytes(id, payload);
    let bytes = module_header() + sections_bytes(secs) + bad;
    assert(bytes[0] == 0x00 && bytes[1] == 0x61 && bytes[2] == 0x73 && bytes[3] == 0x6D);
    assert(bytes[4] == 0x01 && bytes[5] == 0x00 && bytes[6] == 0x00 && bytes[7] == 0x00);
    lemma_frame_passes_written(module_header(), secs, ks, -1, bad);
    lemma_section_rank_follows_order(id);
    let end = 8 + sections_bytes(secs).len() as int;
    let e = encode_unsigned(payload.len());
    assert(bytes =~= (module_header() + sections_bytes(secs) + seq![id]) + e + payload);
    assert(bytes[end] == id);
    lemma2_to64();
    lemma_unsigned_round_trip(module_header() + sections_bytes(secs) + seq![id], payload.len(), payload, 32);
}

/// The error the module header gives, if any: the magic number `\0asm`
/// followed by version 1, as four little-endian bytes.
pub open spec fn header_error(bytes: Seq<u8>) -> Option<ParseError> {
    if !(bytes.len() >= 4 && bytes[0] == 0x00 && bytes[1] == 0x61 && bytes[2] == 0x73 && bytes[3]
        == 0x6D) {
        Some(error_at(0, ParseErrorKind::NotWasm))
    } else if bytes.len() < 8 {
        Some(error_at(bytes.len() as int, ParseErrorKind::UnexpectedEof))
    } else if !(bytes[4] == 0x01 && bytes[5] == 0x00 && bytes[6] == 0x00 && bytes[7] == 0x00) {
        Some(error_at(4, ParseErrorKind::UnsupportedVersion))
    } else {
        None
    }
}

/// The sections from `pos` to the end of the input, when the last non-custom
/// section before `pos` had rank `last` (-1 for none). Each section is an id
/// byte, a `u32` payload size and the payload.
pub open spec fn frame_from(bytes: Seq<u8>, pos: int, last: int) -> Result<
    Seq<SectionBounds>,
    ParseError,
>
    decreases bytes.len() - pos,
{
    if pos < 0 || pos >= bytes.len() {
        Ok(Seq::empty())
    } else {
        let id = bytes[pos];
        let (size, payload_start) = u32_outcome(bytes, pos + 1);
        match size {
            Err(_) => Err(error_at(pos + 1, ParseErrorKind::Leb)),
            Ok(size) => {
                let payload_end = payload_start + size;
                if payload_end > bytes.len() {
                    Err(error_at(payload_start, ParseErrorKind::SectionSizeMismatch))
                } else if id != 0 && section_rank(id) is None {
                    Err(error_at(pos, ParseErrorKind::UnknownSectionId))
                } else if id != 0 && section_rank(id).unwrap() <= last {
                    Err(error_at(pos, ParseErrorKind::SectionOutOfOrder))
                } else {
                    proof {
                        lemma_u32_outcome_advances(bytes, pos + 1);
                    }
                    let next_last = if id == 0 {
                        last
                    } else {
                        section_rank(id).unwrap()
                    };
                    match frame_from(bytes, payload_end, next_last) {
                        Ok(rest) => Ok(
                            seq![SectionBounds { id, start: payload_start as usize, end: payload_end as usize }]
                                + rest,
                        ),
                        Err(e) => Err(e),
                    }
                }
            },
        }
    }
}

/// The header decides first: input that does not start with `\0asm` is not
/// a module (error at 0); `\0asm` with fewer than eight bytes ends early
/// (error at the end); `\0asm` with a version other than 1 is refused
/// (error at 4); and after the standard eight-byte header framing goes on
/// to the sections.
pub proof fn lemma_header_decides_first(bytes: Seq<u8>)
    ensures
        bytes.len() < 4 || bytes.take(4) != module_header().take(4) ==> frame(bytes) == Err::<
            Seq<SectionBounds>,
            ParseError,
        >(error_at(0, ParseErrorKind::NotWasm)),
        4 <= bytes.len() < 8 && bytes.take(4) == module_header().take(4) ==> frame(bytes) == Err::<
            Seq<SectionBounds>,
            ParseError,
        >(error_at(bytes.len() as int, ParseErrorKind::UnexpectedEof)),
        bytes.len() >= 8 && bytes.take(4) == module_header().take(4) && bytes.subrange(4, 8)
            != module_header().subrange(4, 8) ==> frame(bytes) == Err::<Seq<SectionBounds>, ParseError>(
            error_at(4, ParseErrorKind::UnsupportedVersion),
        ),
        bytes.len() >= 8 && bytes.take(8) == module_header() ==> frame(bytes) == frame_from(bytes, 8, -1),
{
    let h = module_header();
    if bytes.len() >= 4 {
        let magic = bytes[0] == 0x00 && bytes[1] == 0x61 && bytes[2] == 0x73 && bytes[3] == 0x6D;
        if magic {
            assert(bytes.take(4) =~= h.take(4));
        } else if bytes.take(4) == h.take(4) {
            assert(bytes[0] == bytes.take(4)[0] && bytes[1] == bytes.take(4)[1]);
            assert(bytes[2] == bytes.take(4)[2] && bytes[3] == bytes.take(4)[3]);
        }
        if bytes.len() >= 8 {
            let version = bytes[4] == 0x01 && bytes[5] == 0x00 && bytes[6] == 0x00 && bytes[7] == 0x00;
            if version {
                assert(bytes.subrange(4, 8) =~= h.subrange(4, 8));
                if magic {
                    assert(bytes.take(8) =~= h);
                }
            } else if bytes.subrange(4, 8) == h.subrange(4, 8) {
                assert(bytes[4] == bytes.subrange(4, 8)[0] && bytes[5] == bytes.subrange(4, 8)[1]);
                assert(bytes[6] == bytes.subrange(4, 8)[2] && bytes[7] == bytes.subrange(4, 8)[3]);
            }
            if bytes.take(8) == h {
                assert(bytes[0] == bytes.take(8)[0] && bytes[1] == bytes.take(8)[1]);
                assert(bytes[2] == bytes.take(8)[2] && bytes[3] == bytes.take(8)[3]);
                assert(bytes[4] == bytes.take(8)[4] && bytes[5] == bytes.take(8)[5]);
                assert(bytes[6] == bytes.take(8)[6] && bytes[7] == bytes.take(8)[7]);
            }
        }
    }
}

/// The sections of a whole module, in the order they appear, or the error
/// that stops the framing pass.
pub open spec fn frame(bytes: Seq<u8>) -> Result<Seq<SectionBounds>, ParseError> {
    match header_error(bytes) {
        Some(e) => Err(e),
        None => frame_from(bytes, 8, -1),
    }
}

/// Sections that lie inside the input after the header, in order and apart
/// from one another, whose ids the format defines, and whose non-custom ids
/// follow the required order, each at most once.
pub open spec fn well_framed(bytes: Seq<u8>, b: Seq<SectionBounds>) -> bool {
    &&& forall|i: int| 0 <= i < b.len() ==> 8 < #[trigger] b[i].start <= b[i].end <= bytes.len()
    &&& forall|i: int, j: int| 0 <= i < j < b.len() ==> #[trigger] b[i].end < #[trigger] b[j].start
    &&& forall|i: int| 0 <= i < b.len() ==> (#[trigger] b[i].id == 0 || section_rank(b[i].id) is Some)
    &&& forall|i: int, j: int|
        0 <= i < j < b.len() && #[trigger] b[i].id != 0 && #[trigger] b[j].id != 0 ==> section_rank(
            b[i].id,
        ).unwrap() < section_rank(b[j].id).unwrap()
    &&& forall|i: int, j: int|
        0 <= i < j < b.len() && #[trigger] b[i].id != 0 ==> b[i].id != #[trigger] b[j].id
}

spec fn prepend(acc: Seq<SectionBounds>, r: Result<Seq<SectionBounds>, ParseError>) -> Result<
    Seq<SectionBounds>,
    ParseError,
> {
    match r {
        Ok(rest) => Ok(acc + rest),
        Err(e) => Err(e),
    }
}

fn rank_of(id: u8) -> (r: Option<i32>)
    ensures
        r is None <==> section_rank(id) is None,
        r matches Some(k) ==> section_rank(id) == Some(k as int) && 0 <= k <= 11,
{
    if 1 <= id && id <= 9 {
        Some(id as i32 - 1)
    } else if id == 12 {
        Some(9)
    } else if id == 10 {
        Some(10)
    } else if id == 11 {
        Some(11)
    } else {
        None
    }
}

/// Validates the module header and finds where each section's payload lies.
pub fn section_bounds(bytes: &[u8]) -> (res: Result<Vec<SectionBounds>, ParseError>)
    ensures
        seq_result(res) == frame(bytes@),
        res matches Ok(v) ==> well_framed(bytes@, v@),
        res matches Err(e) ==> e.offset <= bytes@.len(),
{
    if !(bytes.len() >= 4 && bytes[0] == 0x00 && bytes[1] == 0x61 && bytes[2] == 0x73 && bytes[3]
        == 0x6D) {
        return Err(ParseError { offset: 0, kind: ParseErrorKind::NotWasm });
    }
    if bytes.len() < 8 {
        return Err(ParseError { offset: bytes.len(), kind: ParseErrorKind::UnexpectedEof });
    }
    if !(bytes[4] == 0x01 && bytes[5] == 0x00 && bytes[6] == 0x00 && bytes[7] == 0x00) {
        return Err(ParseError { offset: 4, kind: ParseErrorKind::UnsupportedVersion });
    }
    let mut pos: usize = 8;
    let mut last: i32 = -1;
    let mut out: Vec<SectionBounds> = Vec::new();
    assert(out@ + Seq::<SectionBounds>::empty() =~= out@);
    while pos < bytes.len()
        invariant
            8 <= pos <= bytes@.len(),
            -1 <= last <= 11,
            header_error(bytes@) is None,
            frame(bytes@) == prepend(out@, frame_from(bytes@, pos as int, last as int)),
            well_framed(bytes@, out@),
            forall|i: int| 0 <= i < out@.len() ==> #[trigger] out@[i].end <= pos,
            forall|i: int|
                0 <= i < out@.len() && #[trigger] out@[i].id != 0 ==> section_rank(
                    out@[i].id,
                ).unwrap() <= last,
        decreases bytes@.len() - pos,
    {
        let id = bytes[pos];
        let size_offset = pos + 1;
        let mut p = pos + 1;
        let size = match read_u32(bytes, &mut p) {
            Ok(size) => size as usize,
            Err(_) => {
                return Err(ParseError { offset: size_offset, kind: ParseErrorKind::Leb });
            },
        };
        proof {
            lemma_u32_outcome_advances(bytes@, size_offset as int);
        }
        let payload_start = p;
        if size > bytes.len() - payload_start {
            return Err(
                ParseError { offset: payload_start, kind: ParseErrorKind::SectionSizeMismatch },
            );
        }
        let payload_end = payload_start + size;
        let ghost old_last = last;
        if id != 0 {
            match rank_of(id) {
                None => {
                    return Err(ParseError { offset: pos, kind: ParseErrorKind::UnknownSectionId });
                },
                Some(rank) => {
                    if rank <= last {
                        return Err(
                            ParseError { offset: pos, kind: ParseErrorKind::SectionOutOfOrder },
                        );
                    }
                    last = rank;
                },
            }
        }
        let section = SectionBounds { id, start: payload_start, end: payload_end };
        let ghost before = out@;
        out.push(section);
        proof {
            let rest = frame_from(bytes@, payload_end as int, last as int);
            assert(frame_from(bytes@, pos as int, old_last as int) == match rest {
                Ok(r) => Ok(seq![section] + r),
                Err(e) => Err(e),
            });
            if let Ok(r) = rest {
                assert(before + (seq![section] + r) =~= out@ + r);
            }
            assert(forall|i: int| 0 <= i < before.len() ==> out@[i] == before[i]);
        }
        pos = payload_end;
    }
    assert(out@ + Seq::<SectionBounds>::empty() =~= out@);
    Ok(out)
}

/// Validates the module header and splits the rest of `bytes` into raw
/// sections, in the order they appear.
pub fn parse_module_sections(bytes: &[u8]) -> (res: Result<Vec<RawSection<'_>>, ParseError>)
    ensures
        match frame(bytes@) {
            Ok(b) => res matches Ok(v) && v@.len() == b.len() && forall|i: int|
                0 <= i < b.len() ==> #[trigger] v@[i].id == b[i].id && v@[i].bytes@
                    == bytes@.subrange(b[i].start as int, b[i].end as int),
            Err(e) => res matches Err(e2) && e2 == e,
        },
        res matches Ok(v) ==> forall|i: int|
            0 <= i < v@.len() ==> (#[trigger] v@[i].id == 0 || section_rank(v@[i].id) is Some),
        res matches Ok(v) ==> forall|i: int, j: int|
            0 <= i < j < v@.len() && #[trigger] v@[i].id != 0 && #[trigger] v@[j].id != 0
                ==> section_rank(v@[i].id).unwrap() < section_rank(v@[j].id).unwrap(),
        res matches Err(e) ==> e.offset <= bytes@.len(),
{
    let bounds = match section_bounds(bytes) {
        Ok(bounds) => bounds,
        Err(e) => return Err(e),
    };
    let mut sections: Vec<RawSection<'_>> = Vec::new();
    let mut i: usize = 0;
    while i < bounds.len()
        invariant
            i <= bounds@.len(),
            frame(bytes@) == Ok::<Seq<SectionBounds>, ParseError>(bounds@),
            well_framed(bytes@, bounds@),
            sections@.len() == i,
            forall|k: int|
                0 <= k < i ==> #[trigger] sections@[k].id == bounds@[k].id && sections@[k].bytes@
                    == bytes@.subrange(bounds@[k].start as int, bounds@[k].end as int),
        decreases bounds@.len() - i,
    {
        let b = bounds[i];
        assert(8 < bounds@[i as int].start <= bounds@[i as int].end <= bytes@.len());
        sections.push(RawSection { id: b.id, bytes: vstd::slice::slice_subrange(bytes, b.start, b.end) });
        i = i + 1;
    }
    Ok(sections)
}

/// `n` items read one after another from `pos` by `item`, which gives each
/// item and the position just past it; the first item that fails fails the
/// whole run.
pub open spec fn repeat<T>(
    item: spec_fn(int) -> Result<(T, int), ParseError>,
    pos: int,
    n: nat,
) -> Result<(Seq<T>, int), ParseError>
    decreases n,
{
    if n == 0 {
        Ok((Seq::empty(), pos))
    } else {
        match repeat(item, pos, (n - 1) as nat) {
            Ok((xs, p)) => match item(p) {
                Ok((x, q)) => Ok((xs.push(x), q)),
                Err(e) => Err(e),
            },
            Err(e) => Err(e),
        }
    }
}

/// A vector at `pos`: a `u32` count, then that many items. A count that
/// cannot be read is a `Leb` error at the count's offset, `base + pos`.
pub open spec fn vector_at<T>(
    item: spec_fn(int) -> Result<(T, int), ParseError>,
    bytes: Seq<u8>,
    pos: int,
    base: int,
) -> Result<(Seq<T>, int), ParseError> {
    let (count, p) = u32_outcome(bytes, pos);
    match count {
        Err(_) => Err(error_at(base + pos, ParseErrorKind::Leb)),
        Ok(n) => repeat(item, p, n as nat),
    }
}

/// A section payload made of one vector: its items, which must end exactly
/// at the end of the payload. `base` is where the payload starts within the
/// module, so errors carry offsets into the whole module.
pub open spec fn vector_section<T>(
    item: spec_fn(int) -> Result<(T, int), ParseError>,
    bytes: Seq<u8>,
    base: int,
) -> Result<Seq<T>, ParseError> {
    match vector_at(item, bytes, 0, base) {
        Ok((xs, end)) => if end != bytes.len() {
            Err(error_at(base + end, ParseErrorKind::SectionSizeMismatch))
        } else {
            Ok(xs)
        },
        Err(e) => Err(e),
    }
}

/// Once a run of items has failed, running longer fails the same way.
pub proof fn lemma_repeat_error_persists<T>(
    item: spec_fn(int) -> Result<(T, int), ParseError>,
    pos: int,
    k: nat,
    n: nat,
)
    requires
        k <= n,
        repeat(item, pos, k) is Err,
    ensures
        repeat(item, pos, n) == repeat(item, pos, k),
    decreases n,
{
    if n > k {
        lemma_repeat_error_persists(item, pos, k, (n - 1) as nat);
    }
}

/// A `u32` index at `pos`; one that cannot be read is a `Leb` error at its
/// offset.
pub open spec fn index_at(bytes: Seq<u8>, pos: int, base: int) -> Result<(u32, int), ParseError> {
    let (r, p) = u32_outcome(bytes, pos);
    match r {
        Ok(index) => Ok((index, p)),
        Err(_) => Err(error_at(base + pos, ParseErrorKind::Leb)),
    }
}

/// `index_at` as an item reader.
pub open spec fn index_item(bytes: Seq<u8>, base: int) -> spec_fn(int) -> Result<(u32, int), ParseError> {
    |pos: int| index_at(bytes, pos, base)
}

/// Reads a `u32` index, reporting a malformed one at its own offset.
pub(crate) fn read_index(bytes: &[u8], pos: &mut usize, base: usize) -> (res: Result<u32, ParseError>)
    requires
        *old(pos) <= bytes@.len(),
        base + bytes@.len() <= usize::MAX,
    ensures
        match index_at(bytes@, *old(pos) as int, base as int) {
            Ok((i, p)) => res == Ok::<u32, ParseError>(i) && *final(pos) == p,
            Err(e) => res == Err::<u32, ParseError>(e),
        },
        res is Ok ==> *old(pos) < *final(pos) <= bytes@.len(),
        *final(pos) == u32_outcome(bytes@, *old(pos) as int).1,
        res matches Err(e) ==> e.offset == base + *old(pos),
{
    let offset = base + *pos;
    let ghost at = *pos;
    let r = read_u32(bytes, pos);
    proof {
        lemma_u32_outcome_advances(bytes@, at as int);
    }
    match r {
        Ok(index) => Ok(index),
        Err(_) => Err(ParseError { offset, kind: ParseErrorKind::Leb }),
    }
}

/// `r` with its error, if it is one, reported `by` bytes further on.
pub open spec fn shifted<T>(r: Result<T, ParseError>, by: int) -> Result<T, ParseError> {
    match r {
        Ok(x) => Ok(x),
        Err(e) => Err(error_at(e.offset + by, e.kind)),
    }
}

/// From every position up to `len`, `at` reads what `at0` reads, with its
/// errors `base` bytes further on, and `at0` never moves back or past `len`.
pub open spec fn item_shifts<T>(
    at: spec_fn(int) -> Result<(T, int), ParseError>,
    at0: spec_fn(int) -> Result<(T, int), ParseError>,
    base: int,
    len: int,
) -> bool {
    forall|p: int|
        #![trigger at0(p)]
        0 <= p <= len ==> {
            &&& at(p) == shifted(at0(p), base)
            &&& at0(p) matches Ok((_, q)) ==> p <= q <= len
        }
}

proof fn lemma_repeat_shift<T>(
    at: spec_fn(int) -> Result<(T, int), ParseError>,
    at0: spec_fn(int) -> Result<(T, int), ParseError>,
    base: int,
    len: int,
    pos: int,
    n: nat,
)
    requires
        item_shifts(at, at0, base, len),
        0 <= pos <= len,
    ensures
        repeat(at, pos, n) == shifted(repeat(at0, pos, n), base),
        repeat(at0, pos, n) matches Ok((_, q)) ==> pos <= q <= len,
    decreases n,
{
    if n > 0 {
        lemma_repeat_shift(at, at0, base, len, pos, (n - 1) as nat);
        if let Ok((_, p)) = repeat(at0, pos, (n - 1) as nat) {
            assert(at(p) == shifted(at0(p), base));
        }
    }
}

/// Reading a vector with errors reported from `base` is reading it with
/// errors reported from 0, every error moved by `base`.
pub proof fn lemma_vector_shift<T>(
    at: spec_fn(int) -> Result<(T, int), ParseError>,
    at0: spec_fn(int) -> Result<(T, int), ParseError>,
    bytes: Seq<u8>,
    pos: int,
    base: int,
)
    requires
        item_shifts(at, at0, base, bytes.len() as int),
        0 <= pos <= bytes.len(),
        0 <= base,
        base + bytes.len() <= usize::MAX,
    ensures
        vector_at(at, bytes, pos, base) == shifted(vector_at(at0, bytes, pos, 0), base),
        vector_at(at0, bytes, pos, 0) matches Ok((_, q)) ==> pos <= q <= bytes.len(),
{
    lemma_u32_outcome_advances(bytes, pos);
    let (count, p) = u32_outcome(bytes, pos);
    if let Ok(n) = count {
        lemma_repeat_shift(at, at0, base, bytes.len() as int, p, n as nat);
    }
}

/// The same for a whole vector section.
pub proof fn lemma_vector_section_shift<T>(
    at: spec_fn(int) -> Result<(T, int), ParseError>,
    at0: spec_fn(int) -> Result<(T, int), ParseError>,
    bytes: Seq<u8>,
    base: int,
)
    requires
        item_shifts(at, at0, base, bytes.len() as int),
        0 <= base,
        base + bytes.len() <= usize::MAX,
    ensures
        vector_section(at, bytes, base) == shifted(vector_section(at0, bytes, 0), base),
{
    lemma_vector_shift(at, at0, bytes, 0, base);
}

/// `index_at` reports its error `base` bytes further when read from `base`,
/// and reads the same index otherwise.
pub proof fn lemma_index_shift(bytes: Seq<u8>, pos: int, base: int)
    requires
        0 <= pos <= bytes.len(),
        0 <= base,
        base + bytes.len() <= usize::MAX,
    ensures
        index_at(bytes, pos, base) == shifted(index_at(bytes, pos, 0), base),
        index_at(bytes, pos, 0) matches Ok((_, q)) ==> pos <= q <= bytes.len(),
{
    lemma_u32_outcome_advances(bytes, pos);
}

/// `index_item` from `base` and from 0 agree as `item_shifts` says.
pub proof fn lemma_index_item_shifts(bytes: Seq<u8>, base: int)
    requires
        0 <= base,
        base + bytes.len() <= usize::MAX,
    ensures
        item_shifts(index_item(bytes, base), index_item(bytes, 0), base, bytes.len() as int),
{
    assert forall|p: int| 0 <= p <= bytes.len() implies {
        &&& (#[trigger] index_item(bytes, 0)(p)) == index_at(bytes, p, 0)
        &&& index_item(bytes, base)(p) == shifted(index_item(bytes, 0)(p), base)
        &&& index_item(bytes, 0)(p) matches Ok((_, q)) ==> p <= q <= bytes.len()
    } by {
        lemma_index_shift(bytes, p, base);
    }
}

/// What framing from `pos`, after a section of rank `last`, finds of the
/// sections `b`: inside the input after `pos`, in order and apart, with
/// defined ids, and the non-custom ones ranked above `last` and increasing.
spec fn frame_shaped(bytes: Seq<u8>, pos: int, last: int, b: Seq<SectionBounds>) -> bool {
    &&& forall|i: int| 0 <= i < b.len() ==> pos < #[trigger] b[i].start <= b[i].end <= bytes.len()
    &&& forall|i: int, j: int| 0 <= i < j < b.len() ==> #[trigger] b[i].end < #[trigger] b[j].start
    &&& forall|i: int| 0 <= i < b.len() ==> (#[trigger] b[i].id == 0 || section_rank(b[i].id) is Some)
    &&& forall|i: int| 0 <= i < b.len() && #[trigger] b[i].id != 0 ==> section_rank(b[i].id).unwrap() > last
    &&& forall|i: int, j: int|
        0 <= i < j < b.len() && #[trigger] b[i].id != 0 && #[trigger] b[j].id != 0
            ==> section_rank(b[i].id).unwrap() < section_rank(b[j].id).unwrap()
}

proof fn lemma_frame_shaped_step(
    bytes: Seq<u8>,
    pos: int,
    last: int,
    s: SectionBounds,
    next_last: int,
    rest: Seq<SectionBounds>,
)
    requires
        pos < s.start <= s.end <= bytes.len(),
        s.id == 0 || section_rank(s.id) is Some,
        s.id != 0 ==> section_rank(s.id).unwrap() > last && next_last == section_rank(s.id).unwrap(),
        s.id == 0 ==> next_last == last,
        frame_shaped(bytes, s.end as int, next_last, rest),
    ensures
        frame_shaped(bytes, pos, last, seq![s] + rest),
{
    let b = seq![s] + rest;
    assert forall|i: int| 0 < i < b.len() implies #[trigger] b[i] == rest[i - 1] by {}
    assert(b[0] == s);
    assert forall|i: int, j: int| 0 <= i < j < b.len() implies #[trigger] b[i].end < #[trigger] b[j].start by {
        assert(b[j] == rest[j - 1]);
        if i > 0 {
            assert(b[i] == rest[i - 1]);
        }
    }
    assert forall|i: int, j: int|
        0 <= i < j < b.len() && #[trigger] b[i].id != 0 && #[trigger] b[j].id != 0
            implies section_rank(b[i].id).unwrap() < section_rank(b[j].id).unwrap() by {
        assert(b[j] == rest[j - 1]);
        if i > 0 {
            assert(b[i] == rest[i - 1]);
        }
    }
    assert forall|i: int| 0 <= i < b.len() && #[trigger] b[i].id != 0 implies section_rank(
        b[i].id,
    ).unwrap() > last by {
        if i > 0 {
            assert(b[i] == rest[i - 1]);
        }
    }
    assert forall|i: int| 0 <= i < b.len() implies pos < #[trigger] b[i].start <= b[i].end <= bytes.len() by {
        if i > 0 {
            assert(b[i] == rest[i - 1]);
        }
    }
    assert forall|i: int| 0 <= i < b.len() implies (#[trigger] b[i].id == 0 || section_rank(b[i].id) is Some) by {
        if i > 0 {
            assert(b[i] == rest[i - 1]);
        }
    }
}

proof fn lemma_frame_from_shape(bytes: Seq<u8>, pos: int, last: int)
    requires
        0 <= pos,
        bytes.len() <= usize::MAX,
    ensures
        frame_from(bytes, pos, last) matches Ok(b) ==> frame_shaped(bytes, pos, last, b),
    decreases bytes.len() - pos,
{
    if pos < bytes.len() {
        let id = bytes[pos];
        lemma_u32_outcome_advances(bytes, pos + 1);
        let (size, payload_start) = u32_outcome(bytes, pos + 1);
        if let Ok(size) = size {
            let payload_end = payload_start + size;
            if payload_end <= bytes.len() && !(id != 0 && section_rank(id) is None) && !(id != 0
                && section_rank(id).unwrap() <= last) {
                let next_last = if id == 0 {
                    last
                } else {
                    section_rank(id).unwrap()
                };
                lemma_frame_from_shape(bytes, payload_end, next_last);
                if let Ok(rest) = frame_from(bytes, payload_end, next_last) {
                    let s = SectionBounds { id, start: payload_start as usize, end: payload_end as usize };
                    assert(frame_from(bytes, pos, last) == Ok::<Seq<SectionBounds>, ParseError>(
                        seq![s] + rest,
                    ));
                    lemma_frame_shaped_step(bytes, pos, last, s, next_last, rest);
                }
            }
        }
    } else {
        assert(frame_shaped(bytes, pos, last, Seq::<SectionBounds>::empty()));
    }
}

/// Whatever framing finds is well framed: sections inside the input after
/// the header, in order and apart, with defined ids, the non-custom ones in
/// the required order and each at most once.
pub proof fn lemma_frame_well_framed(bytes: Seq<u8>)
    requires
        bytes.len() <= usize::MAX,
    ensures
        frame(bytes) matches Ok(b) ==> well_framed(bytes, b),
{
    lemma_frame_from_shape(bytes, 8, -1);
    if let Ok(b) = frame(bytes) {
        assert forall|i: int, j: int|
            0 <= i < j < b.len() && #[trigger] b[i].id != 0 implies b[i].id != #[trigger] b[j].id by {
            if b[j].id != 0 {
                assert(section_rank(b[i].id).unwrap() < section_rank(b[j].id).unwrap());
            }
        }
    }
}

/// Every section of `b` with its payload moved `d` bytes further on.
pub open spec fn shift_bounds(b: Seq<SectionBounds>, d: int) -> Seq<SectionBounds> {
    b.map_values(
        |s: SectionBounds| SectionBounds { id: s.id, start: (s.start + d) as usize, end: (s.end + d) as usize },
    )
}

/// The frame of a custom section: id 0, `size` (the contents' length as a
/// `u32`) and the contents.
pub open spec fn custom_frame(size: Seq<u8>, contents: Seq<u8>) -> Seq<u8> {
    seq![0u8] + size + contents
}

/// `bytes` with a custom section frame inserted at `q`.
pub open spec fn with_custom(bytes: Seq<u8>, q: int, size: Seq<u8>, contents: Seq<u8>) -> Seq<u8> {
    bytes.take(q) + custom_frame(size, contents) + bytes.skip(q)
}

/// Where framing finds the payload of a custom section inserted at `q`.
pub open spec fn custom_bounds(q: int, size: Seq<u8>, contents: Seq<u8>) -> SectionBounds {
    SectionBounds {
        id: 0,
        start: (q + 1 + size.len()) as usize,
        end: (q + 1 + size.len() + contents.len()) as usize,
    }
}

#[verifier::spinoff_prover]
#[verifier::rlimit(40)]
proof fn lemma_frame_after(bytes: Seq<u8>, bytes2: Seq<u8>, d: int, pos: int, last: int)
    requires
        0 <= pos <= bytes.len(),
        0 <= d,
        bytes2.len() == bytes.len() + d,
        bytes2.len() <= usize::MAX,
        bytes2.subrange(pos + d, bytes2.len() as int) == bytes.subrange(pos, bytes.len() as int),
        frame_from(bytes, pos, last) is Ok,
    ensures
        frame_from(bytes2, pos + d, last) == Ok::<Seq<SectionBounds>, ParseError>(
            shift_bounds(frame_from(bytes, pos, last).unwrap(), d),
        ),
    decreases bytes.len() - pos,
{
    let tail1 = bytes.subrange(pos, bytes.len() as int);
    let tail2 = bytes2.subrange(pos + d, bytes2.len() as int);
    if pos < bytes.len() {
        assert(bytes2[pos + d] == tail2[0] && bytes[pos] == tail1[0]);
        lemma_u32_outcome_advances(bytes, pos + 1);
        let (size, payload_start) = u32_outcome(bytes, pos + 1);
        let n = payload_start - (pos + 1);
        assert(bytes2.subrange(pos + 1 + d, pos + 1 + d + n) =~= tail2.subrange(1, 1 + n));
        assert(bytes.subrange(pos + 1, payload_start) =~= tail1.subrange(1, 1 + n));
        lemma_u32_outcome_agree(bytes, pos + 1, bytes2, pos + 1 + d);
        let size = size.unwrap();
        let payload_end = payload_start + size;
        let id = bytes[pos];
        let next_last = if id == 0 {
            last
        } else {
            section_rank(id).unwrap()
        };
        let rest = frame_from(bytes, payload_end, next_last).unwrap();
        assert(bytes2.subrange(payload_end + d, bytes2.len() as int) =~= tail2.subrange(
            payload_end - pos,
            tail2.len() as int,
        ));
        assert(bytes.subrange(payload_end, bytes.len() as int) =~= tail1.subrange(
            payload_end - pos,
            tail1.len() as int,
        ));
        lemma_frame_after(bytes, bytes2, d, payload_end, next_last);
        let sec = SectionBounds { id, start: payload_start as usize, end: payload_end as usize };
        assert(shift_bounds(seq![sec] + rest, d) =~= seq![
            SectionBounds { id, start: (payload_start + d) as usize, end: (payload_end + d) as usize },
        ] + shift_bounds(rest, d));
    } else {
        assert(shift_bounds(Seq::<SectionBounds>::empty(), d) =~= Seq::<SectionBounds>::empty());
    }
}

proof fn lemma_frame_at_custom(bytes: Seq<u8>, q: int, size: Seq<u8>, contents: Seq<u8>, last: int)
    requires
        8 <= q <= bytes.len(),
        with_custom(bytes, q, size, contents).len() <= usize::MAX,
        contents.len() <= u32::MAX,
        u32_outcome(size, 0) == (Ok::<u32, LebError>(contents.len() as u32), size.len() as int),
        frame_from(bytes, q, last) is Ok,
    ensures
        frame_from(with_custom(bytes, q, size, contents), q, last) == Ok::<Seq<SectionBounds>, ParseError>(
            seq![custom_bounds(q, size, contents)] + shift_bounds(
                frame_from(bytes, q, last).unwrap(),
                custom_frame(size, contents).len() as int,
            ),
        ),
{
    let bytes2 = with_custom(bytes, q, size, contents);
    let frm = custom_frame(size, contents);
    let d = frm.len() as int;
    assert(bytes2.len() == bytes.len() + d);
    assert(bytes2[q] == frm[0]);
    assert(bytes2.subrange(q + 1, q + 1 + size.len()) =~= size.subrange(0, size.len() as int));
    lemma_u32_outcome_agree(size, 0, bytes2, q + 1);
    assert(bytes2.subrange(q + d, bytes2.len() as int) =~= bytes.subrange(q, bytes.len() as int));
    lemma_frame_after(bytes, bytes2, d, q, last);
}

/// Framing a module with a custom section inserted at `q`, a position where
/// framing starts a section or reaches the end: the sections before `q`, the
/// custom section, then the sections from `q` moved by the frame's length.
#[verifier::rlimit(50)]
proof fn lemma_frame_with_custom(
    bytes: Seq<u8>,
    q: int,
    size: Seq<u8>,
    contents: Seq<u8>,
    pos: int,
    last: int,
    k: int,
)
    requires
        8 <= pos <= q <= bytes.len(),
        with_custom(bytes, q, size, contents).len() <= usize::MAX,
        contents.len() <= u32::MAX,
        u32_outcome(size, 0) == (Ok::<u32, LebError>(contents.len() as u32), size.len() as int),
        frame_from(bytes, pos, last) matches Ok(r) && ((k == -1 && pos == q) || (0 <= k < r.len()
            && r[k].end == q)),
    ensures
        frame_from(with_custom(bytes, q, size, contents), pos, last) == Ok::<
            Seq<SectionBounds>,
            ParseError,
        >(
            frame_from(bytes, pos, last).unwrap().take(k + 1) + seq![custom_bounds(q, size, contents)]
                + shift_bounds(
                frame_from(bytes, pos, last).unwrap().skip(k + 1),
                custom_frame(size, contents).len() as int,
            ),
        ),
    decreases k + 1,
{
    let bytes2 = with_custom(bytes, q, size, contents);
    let d = custom_frame(size, contents).len() as int;
    let r = frame_from(bytes, pos, last).unwrap();
    let c = custom_bounds(q, size, contents);
    if k == -1 {
        lemma_frame_at_custom(bytes, q, size, contents, last);
        assert(r.take(0) + seq![c] + shift_bounds(r.skip(0), d) =~= seq![c] + shift_bounds(r, d));
    } else {
        assert(bytes2.take(q) =~= bytes.take(q));
        assert(bytes.len() <= usize::MAX);
        lemma_frame_from_shape(bytes, pos, last);
        assert(pos < r[0].start <= r[0].end <= q) by {
            if k > 0 {
                assert(r[0].end < r[k].start);
            }
        }
        assert(bytes2[pos] == bytes2.take(q)[pos] && bytes[pos] == bytes.take(q)[pos]);
        lemma_u32_outcome_advances(bytes, pos + 1);
        let (size_r, payload_start) = u32_outcome(bytes, pos + 1);
        let id = bytes[pos];
        let payload_end = payload_start + size_r.unwrap();
        assert(bytes2.subrange(pos + 1, payload_start) =~= bytes2.take(q).subrange(pos + 1, payload_start));
        assert(bytes.subrange(pos + 1, payload_start) =~= bytes.take(q).subrange(pos + 1, payload_start));
        lemma_u32_outcome_agree(bytes, pos + 1, bytes2, pos + 1);
        let next_last = if id == 0 {
            last
        } else {
            section_rank(id).unwrap()
        };
        let rest = frame_from(bytes, payload_end, next_last).unwrap();
        assert(r == seq![r[0]] + rest);
        assert(r[0].end == payload_end);
        if k > 0 {
            assert(rest[k - 1] == r[k]);
        }
        lemma_frame_with_custom(bytes, q, size, contents, payload_end, next_last, k - 1);
        assert(r.take(k + 1) =~= seq![r[0]] + rest.take(k));
        assert(r.skip(k + 1) =~= rest.skip(k));
        assert(r.take(k + 1) + seq![c] + shift_bounds(r.skip(k + 1), d) =~= seq![r[0]] + (rest.take(k)
            + seq![c] + shift_bounds(rest.skip(k), d)));
    }
}

/// Framing after a custom section is inserted where a section starts, or
/// at the end: the custom section joins the list, and the sections after it
/// move by its frame's length.
pub proof fn lemma_frame_with_custom_section(
    bytes: Seq<u8>,
    b: Seq<SectionBounds>,
    q: int,
    k: int,
    size: Seq<u8>,
    contents: Seq<u8>,
)
    requires
        bytes.len() <= usize::MAX,
        frame(bytes) == Ok::<Seq<SectionBounds>, ParseError>(b),
        (k == -1 && q == 8) || (0 <= k < b.len() && q == b[k].end),
        with_custom(bytes, q, size, contents).len() <= usize::MAX,
        contents.len() <= u32::MAX,
        u32_outcome(size, 0) == (Ok::<u32, LebError>(contents.len() as u32), size.len() as int),
    ensures
        frame(with_custom(bytes, q, size, contents)) == Ok::<Seq<SectionBounds>, ParseError>(
            b.take(k + 1) + seq![custom_bounds(q, size, contents)] + shift_bounds(
                b.skip(k + 1),
                custom_frame(size, contents).len() as int,
            ),
        ),
{
    let bytes2 = with_custom(bytes, q, size, contents);
    lemma_frame_from_shape(bytes, 8, -1);
    assert(8 <= q <= bytes.len()) by {
        if k >= 0 {
            assert(8 < b[k].start <= b[k].end <= bytes.len());
        }
    }
    assert(bytes2.len() == bytes.len() + custom_frame(size, contents).len());
    assert(bytes2.take(q) =~= bytes.take(q));
    assert forall|i: int| 0 <= i < 8 implies bytes2[i] == bytes[i] by {
        assert(bytes2[i] == bytes2.take(q)[i] && bytes[i] == bytes.take(q)[i]);
    }
    lemma_frame_with_custom(bytes, q, size, contents, 8, -1, k);
}

} // verus!
