//! Decoding of the export section: the names an instance's host can look up,
//! and what each one refers to.
//!
//! An export's index is into whichever space its kind names - the function
//! space, the table space, and so on - and function indices there include
//! imports, counted before any function the module defines itself. This
//! layer does not check an index against how many items actually exist in
//! that space.
use crate::imports::{lemma_name_read_back, lemma_name_shift, name_at, name_bytes, read_name, writable_name};
use vstd::utf8::decode_utf8;
use crate::leb::{
    encode_unsigned,
    lemma_u32_outcome_advances,
    lemma_unsigned_round_trip,
    read_u32,
    u32_outcome,
    LebError,
};
use vstd::arithmetic::power2::{lemma2_to64, pow2};
use crate::sections::{
    error_at,
    item_shifts,
    lemma_index_shift,
    lemma_vector_section_shift,
    shifted,
    index_at,
    lemma_repeat_error_persists,
    read_index,
    repeat,
    vector_at,
    vector_section,
    ParseError,
    ParseErrorKind,
};
use vstd::prelude::*;

verus! {

/// Which index space an export's `index` refers into.
#[derive(Debug, Clone, Copy, PartialEq, Eq)]
pub enum ExportKind {
    Func,
    Table,
    Memory,
    Global,
}

/// One entry of the export section: the name a host looks it up by, and what
/// it points to.
#[derive(Debug, Clone, PartialEq, Eq)]
pub struct Export {
    pub name: String,
    pub kind: ExportKind,
    pub index: u32,
}

/// An export with its name as a character sequence.
pub struct SpecExport {
    pub name: Seq<char>,
    pub kind: ExportKind,
    pub index: u32,
}

impl View for Export {
    type V = SpecExport;

    open spec fn view(&self) -> SpecExport {
        SpecExport { name: self.name@, kind: self.kind, index: self.index }
    }
}

/// Each export of `v` by its view.
pub open spec fn exports_view(v: Seq<Export>) -> Seq<SpecExport> {
    v.map_values(|e: Export| e@)
}

/// The export kind a byte encodes, if any.
pub open spec fn export_kind_of(byte: u8) -> Option<ExportKind> {
    if byte == 0 {
        Some(ExportKind::Func)
    } else if byte == 1 {
        Some(ExportKind::Table)
    } else if byte == 2 {
        Some(ExportKind::Memory)
    } else if byte == 3 {
        Some(ExportKind::Global)
    } else {
        None
    }
}

/// An export at `pos`: a name, a kind byte and a `u32` index.
pub open spec fn export_at(bytes: Seq<u8>, pos: int, base: int) -> Result<(SpecExport, int), ParseError> {
    match name_at(bytes, pos, base) {
        Err(e) => Err(e),
        Ok((name, p)) => if p >= bytes.len() {
            Err(error_at(base + p, ParseErrorKind::UnexpectedEof))
        } else {
            match export_kind_of(bytes[p]) {
                None => Err(error_at(base + p, ParseErrorKind::InvalidExternKind)),
                Some(kind) => match index_at(bytes, p + 1, base) {
                    Ok((index, q)) => Ok((SpecExport { name, kind, index }, q)),
                    Err(e) => Err(e),
                },
            }
        },
    }
}

/// The byte the binary format writes for each export kind.
pub open spec fn export_kind_code(kind: ExportKind) -> u8 {
    match kind {
        ExportKind::Func => 0,
        ExportKind::Table => 1,
        ExportKind::Memory => 2,
        ExportKind::Global => 3,
    }
}

/// An export written as its name, its kind's byte and its index in unsigned
/// LEB128 reads back as that name, that kind and that index, for every
/// `u32` index, and the reader stops just past the index.
pub proof fn lemma_export_round_trip(
    bytes: Seq<u8>,
    pos: int,
    base: int,
    kind: ExportKind,
    index: u32,
)
    requires
        name_at(bytes, pos, base) is Ok,
        ({
            let p = name_at(bytes, pos, base).unwrap().1;
            &&& p + 1 + encode_unsigned(index as nat).len() <= bytes.len()
            &&& bytes[p] == export_kind_code(kind)
            &&& bytes.subrange(p + 1, p + 1 + encode_unsigned(index as nat).len()) == encode_unsigned(
                index as nat,
            )
        }),
    ensures
        ({
            let (name, p) = name_at(bytes, pos, base).unwrap();
            export_at(bytes, pos, base) == Ok::<(SpecExport, int), ParseError>(
                (SpecExport { name, kind, index }, p + 1 + encode_unsigned(index as nat).len()),
            )
        }),
{
    let (name, p) = name_at(bytes, pos, base).unwrap();
    lemma_u32_outcome_advances(bytes, pos);
    let e = encode_unsigned(index as nat);
    let prefix = bytes.take(p + 1);
    let suffix = bytes.skip(p + 1 + e.len());
    assert(bytes =~= prefix + e + suffix);
    lemma2_to64();
    lemma_unsigned_round_trip(prefix, index as nat, suffix, 32);
}

/// `export_at` as an item reader.
pub open spec fn export_item(bytes: Seq<u8>, base: int) -> spec_fn(int) -> Result<
    (SpecExport, int),
    ParseError,
> {
    |pos: int| export_at(bytes, pos, base)
}

/// The exports an export section payload holds, or why it is malformed.
#[verifier::opaque]
pub open spec fn export_section(bytes: Seq<u8>, base: int) -> Result<Seq<SpecExport>, ParseError> {
    vector_section(export_item(bytes, base), bytes, base)
}

fn read_export(bytes: &[u8], pos: &mut usize, base: usize) -> (res: Result<Export, ParseError>)
    requires
        *old(pos) <= bytes@.len(),
        base + bytes@.len() <= usize::MAX,
    ensures
        match export_at(bytes@, *old(pos) as int, base as int) {
            Ok((x, p)) => res matches Ok(exp) && exp@ == x && *final(pos) == p,
            Err(e) => res matches Err(e2) && e2 == e,
        },
        res is Ok ==> *old(pos) <= *final(pos) <= bytes@.len(),
        res matches Err(e) ==> base + *old(pos) <= e.offset <= base + bytes@.len(),
{
    let name = read_name(bytes, pos, base)?;
    let kind_offset = base + *pos;
    if *pos >= bytes.len() {
        return Err(ParseError { offset: kind_offset, kind: ParseErrorKind::UnexpectedEof });
    }
    let kind_byte = bytes[*pos];
    *pos = *pos + 1;
    let kind = if kind_byte == 0x00 {
        ExportKind::Func
    } else if kind_byte == 0x01 {
        ExportKind::Table
    } else if kind_byte == 0x02 {
        ExportKind::Memory
    } else if kind_byte == 0x03 {
        ExportKind::Global
    } else {
        return Err(ParseError { offset: kind_offset, kind: ParseErrorKind::InvalidExternKind });
    };
    let index = read_index(bytes, pos, base)?;
    Ok(Export { name, kind, index })
}

/// Decodes the payload of an export section (id 7) into its entries, in the
/// order they appear. `base` is the offset of `bytes` within the whole
/// module, so a `ParseError` reports a position the caller can find in the
/// input rather than one relative to the section payload.
pub fn decode_export_section(bytes: &[u8], base: usize) -> (res: Result<Vec<Export>, ParseError>)
    requires
        base + bytes@.len() <= usize::MAX,
    ensures
        match export_section(bytes@, base as int) {
            Ok(xs) => res matches Ok(v) && exports_view(v@) == xs,
            Err(e) => res matches Err(e2) && e2 == e,
        },
        res matches Err(e) ==> base <= e.offset <= base + bytes@.len(),
{
    reveal(export_section);
    let mut pos: usize = 0;
    let count = match read_u32(bytes, &mut pos) {
        Ok(count) => count,
        Err(_) => return Err(ParseError { offset: base, kind: ParseErrorKind::Leb }),
    };
    proof {
        lemma_u32_outcome_advances(bytes@, 0);
    }
    let ghost first = pos;
    let ghost item = export_item(bytes@, base as int);
    let mut exports: Vec<Export> = Vec::new();
    assert(exports_view(exports@) =~= Seq::<SpecExport>::empty());
    let mut i: u32 = 0;
    while i < count
        invariant
            first <= pos <= bytes@.len(),
            base + bytes@.len() <= usize::MAX,
            i <= count,
            item == export_item(bytes@, base as int),
            vector_at(item, bytes@, 0, base as int) == repeat(item, first as int, count as nat),
            repeat(item, first as int, i as nat) == Ok::<(Seq<SpecExport>, int), ParseError>(
                (exports_view(exports@), pos as int),
            ),
        decreases count - i,
    {
        let ghost before = exports@;
        let ghost at = pos;
        assert(item(at as int) == export_at(bytes@, at as int, base as int));
        match read_export(bytes, &mut pos, base) {
            Ok(exp) => {
                exports.push(exp);
                assert(exports_view(exports@) =~= exports_view(before).push(exp@));
            },
            Err(e) => {
                proof {
                    assert(repeat(item, first as int, (i + 1) as nat) == Err::<
                        (Seq<SpecExport>, int),
                        ParseError,
                    >(e));
                    reveal(export_section);
                    lemma_repeat_error_persists(item, first as int, (i + 1) as nat, count as nat);
                }
                return Err(e);
            },
        }
        i = i + 1;
    }
    if pos != bytes.len() {
        return Err(ParseError { offset: base + pos, kind: ParseErrorKind::SectionSizeMismatch });
    }
    Ok(exports)
}

proof fn lemma_export_item_shifts(bytes: Seq<u8>, base: int)
    requires
        0 <= base,
        base + bytes.len() <= usize::MAX,
    ensures
        item_shifts(export_item(bytes, base), export_item(bytes, 0), base, bytes.len() as int),
{
    assert forall|p: int| 0 <= p <= bytes.len() implies {
        &&& (#[trigger] export_item(bytes, 0)(p)) == export_at(bytes, p, 0)
        &&& export_item(bytes, base)(p) == shifted(export_item(bytes, 0)(p), base)
        &&& export_item(bytes, 0)(p) matches Ok((_, q)) ==> p <= q <= bytes.len()
    } by {
        lemma_name_shift(bytes, p, base);
        if let Ok((_, q)) = name_at(bytes, p, 0) {
            if q < bytes.len() {
                lemma_index_shift(bytes, q + 1, base);
            }
        }
    }
}

/// Decoding an export section payload that sits `base` bytes into the
/// module gives what decoding it as if it sat at offset 0 gives, with every
/// error offset moved by `base`.
pub proof fn lemma_export_section_offsets(bytes: Seq<u8>, base: int)
    requires
        0 <= base,
        base + bytes.len() <= usize::MAX,
    ensures
        export_section(bytes, base) == shifted(export_section(bytes, 0), base),
{
    reveal(export_section);
    lemma_export_item_shifts(bytes, base);
    lemma_vector_section_shift(export_item(bytes, base), export_item(bytes, 0), bytes, base);
}

/// An export as the format writes it: its name, its kind's byte, then its
/// index in unsigned LEB128. The name is given by its UTF-8 bytes.
pub open spec fn export_bytes(e: (Seq<u8>, ExportKind, u32)) -> Seq<u8> {
    name_bytes(e.0) + seq![export_kind_code(e.1)] + encode_unsigned(e.2 as nat)
}

/// Exports written one after another.
pub open spec fn exports_bytes(es: Seq<(Seq<u8>, ExportKind, u32)>) -> Seq<u8>
    decreases es.len(),
{
    if es.len() == 0 {
        Seq::empty()
    } else {
        exports_bytes(es.drop_last()) + export_bytes(es.last())
    }
}

/// The exports written as `es` hold: each name decoded from its UTF-8
/// bytes, with its kind and index.
pub open spec fn written_exports(es: Seq<(Seq<u8>, ExportKind, u32)>) -> Seq<SpecExport> {
    es.map_values(|e: (Seq<u8>, ExportKind, u32)| SpecExport { name: decode_utf8(e.0), kind: e.1, index: e.2 })
}

#[verifier::spinoff_prover]
#[verifier::rlimit(40)]
proof fn lemma_export_read_back(
    bytes: Seq<u8>,
    pre: Seq<u8>,
    e: (Seq<u8>, ExportKind, u32),
    post: Seq<u8>,
    base: int,
)
    requires
        writable_name(e.0),
        bytes == pre + export_bytes(e) + post,
    ensures
        export_at(bytes, pre.len() as int, base) == Ok::<(SpecExport, int), ParseError>(
            (
                SpecExport { name: decode_utf8(e.0), kind: e.1, index: e.2 },
                (pre.len() + export_bytes(e).len()) as int,
            ),
        ),
{
    let nb = name_bytes(e.0);
    let ib = encode_unsigned(e.2 as nat);
    assert(bytes =~= pre + nb + (seq![export_kind_code(e.1)] + ib + post));
    lemma_name_read_back(bytes, pre, e.0, seq![export_kind_code(e.1)] + ib + post, base);
    let p = (pre.len() + nb.len()) as int;
    assert(bytes[p] == export_kind_code(e.1));
    let pre2 = pre + nb + seq![export_kind_code(e.1)];
    assert(bytes =~= pre2 + ib + post);
    lemma2_to64();
    lemma_unsigned_round_trip(pre2, e.2 as nat, post, 32);
    assert(u32_outcome(bytes, p + 1) == (Ok::<u32, LebError>(e.2), (pre2.len() + ib.len()) as int));
}

#[verifier::spinoff_prover]
#[verifier::rlimit(40)]
proof fn lemma_exports_repeat(
    bytes: Seq<u8>,
    pre: Seq<u8>,
    es: Seq<(Seq<u8>, ExportKind, u32)>,
    post: Seq<u8>,
    base: int,
)
    requires
        forall|i: int| 0 <= i < es.len() ==> writable_name((#[trigger] es[i]).0),
        bytes == pre + exports_bytes(es) + post,
    ensures
        repeat(export_item(bytes, base), pre.len() as int, es.len()) == Ok::<
            (Seq<SpecExport>, int),
            ParseError,
        >((written_exports(es), (pre.len() + exports_bytes(es).len()) as int)),
    decreases es.len(),
{
    if es.len() == 0 {
        assert(written_exports(es) =~= Seq::<SpecExport>::empty());
    } else {
        let init = es.drop_last();
        let last = es.last();
        let a = exports_bytes(init);
        let f = export_bytes(last);
        assert(bytes =~= pre + a + (f + post));
        assert forall|i: int| 0 <= i < init.len() implies writable_name((#[trigger] init[i]).0) by {
            assert(init[i] == es[i]);
        }
        lemma_exports_repeat(bytes, pre, init, f + post, base);
        assert(bytes =~= (pre + a) + f + post);
        lemma_export_read_back(bytes, pre + a, last, post, base);
        assert(written_exports(init).push(
            SpecExport { name: decode_utf8(last.0), kind: last.1, index: last.2 },
        ) =~= written_exports(es));
    }
}

/// An export section written as the number of exports and then each one -
/// its name's length and UTF-8 bytes, its kind's byte, its index - decodes
/// back to those exports, with every index and kind as written, wherever in
/// the module it sits.
pub proof fn lemma_export_section_round_trip(es: Seq<(Seq<u8>, ExportKind, u32)>, base: int)
    requires
        es.len() <= u32::MAX,
        forall|i: int| 0 <= i < es.len() ==> writable_name((#[trigger] es[i]).0),
    ensures
        export_section(encode_unsigned(es.len()) + exports_bytes(es), base) == Ok::<
            Seq<SpecExport>,
            ParseError,
        >(written_exports(es)),
{
    reveal(export_section);
    lemma2_to64();
    let head = encode_unsigned(es.len());
    let body = exports_bytes(es);
    let bytes = head + body;
    assert(bytes =~= Seq::<u8>::empty() + head + body);
    lemma_unsigned_round_trip(Seq::<u8>::empty(), es.len(), body, 32);
    assert(u32_outcome(bytes, 0) == (Ok::<u32, LebError>(es.len() as u32), head.len() as int));
    assert(bytes =~= head + body + Seq::<u8>::empty());
    lemma_exports_repeat(bytes, head, es, Seq::<u8>::empty(), base);
}

/// Bytes left over after the last export of an export section are refused
/// with `SectionSizeMismatch` at the first of them.
pub proof fn lemma_export_section_trailing_bytes(
    es: Seq<(Seq<u8>, ExportKind, u32)>,
    extra: Seq<u8>,
    base: int,
)
    requires
        es.len() <= u32::MAX,
        forall|i: int| 0 <= i < es.len() ==> writable_name((#[trigger] es[i]).0),
        extra.len() > 0,
    ensures
        export_section(encode_unsigned(es.len()) + exports_bytes(es) + extra, base) == Err::<
            Seq<SpecExport>,
            ParseError,
        >(
            error_at(
                base + encode_unsigned(es.len()).len() + exports_bytes(es).len(),
                ParseErrorKind::SectionSizeMismatch,
            ),
        ),
{
    reveal(export_section);
    lemma2_to64();
    let head = encode_unsigned(es.len());
    let body = exports_bytes(es);
    let bytes = head + body + extra;
    assert(bytes =~= Seq::<u8>::empty() + head + (body + extra));
    lemma_unsigned_round_trip(Seq::<u8>::empty(), es.len(), body + extra, 32);
    assert(u32_outcome(bytes, 0) == (Ok::<u32, LebError>(es.len() as u32), head.len() as int));
    lemma_exports_repeat(bytes, head, es, extra, base);
}

/// An export whose kind byte is above 3 is refused with
/// `InvalidExternKind` at that byte.
pub proof fn lemma_export_kind_refused(
    bytes: Seq<u8>,
    pre: Seq<u8>,
    name: Seq<u8>,
    kind: u8,
    post: Seq<u8>,
    base: int,
)
    requires
        writable_name(name),
        kind > 3,
        bytes == pre + name_bytes(name) + seq![kind] + post,
    ensures
        export_at(bytes, pre.len() as int, base) == Err::<(SpecExport, int), ParseError>(
            error_at(base + pre.len() + name_bytes(name).len(), ParseErrorKind::InvalidExternKind),
        ),
{
    let n = name_bytes(name);
    assert(bytes =~= pre + n + (seq![kind] + post));
    lemma_name_read_back(bytes, pre, name, seq![kind] + post, base);
    assert(bytes[(pre.len() + n.len()) as int] == kind);
}

} // verus!
