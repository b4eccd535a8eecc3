//! Decoding of the import section: the module/name pairs an instance expects
//! its host to supply, and what shape each one must have.
//!
//! Function imports occupy the low function indices, ahead of any function
//! defined by the module itself. Table, memory and global imports are decoded
//! too, because getting their payload length wrong would misalign every
//! import that follows.
use crate::leb::{
    encode_unsigned,
    lemma_u32_outcome_advances,
    lemma_unsigned_round_trip,
    read_u32,
    u32_outcome,
    LebError,
};
use vstd::arithmetic::power2::{lemma2_to64, pow2};
use crate::sections::{
    error_at,
    item_shifts,
    lemma_vector_section_shift,
    shifted,
    lemma_repeat_error_persists,
    repeat,
    vector_at,
    vector_section,
    ParseError,
    ParseErrorKind,
};
use crate::types::{lemma_val_type_at_reads_code, read_val_type, val_type_at, val_type_code, ValType};
use vstd::prelude::*;
use vstd::utf8::{decode_utf8, valid_utf8};

verus! {

/// A table or memory's size bounds, as a count of elements or pages.
#[derive(Debug, Clone, Copy, PartialEq, Eq)]
pub struct Limits {
    pub min: u32,
    pub max: Option<u32>,
}

impl Limits {
    /// A maximum, where there is one, is no smaller than the minimum.
    pub open spec fn valid(self) -> bool {
        self.max matches Some(max) ==> self.min <= max
    }
}

/// A table import's element type and size bounds. The element type is
/// always `funcref` in the instruction set this crate targets.
#[derive(Debug, Clone, Copy, PartialEq, Eq)]
pub struct TableType {
    pub limits: Limits,
}

/// A global import's value type and whether the host may write to it.
#[derive(Debug, Clone, Copy, PartialEq, Eq)]
pub struct GlobalType {
    pub val_type: ValType,
    pub mutable: bool,
}

/// What kind of item an import binds to, and the type information needed to
/// check it against whatever the host provides.
#[derive(Debug, Clone, Copy, PartialEq, Eq)]
pub enum ExternKind {
    Func(u32),
    Table(TableType),
    Memory(Limits),
    Global(GlobalType),
}

impl ExternKind {
    /// Every size bound the kind carries is valid.
    pub open spec fn limits_valid(self) -> bool {
        match self {
            ExternKind::Table(t) => t.limits.valid(),
            ExternKind::Memory(l) => l.valid(),
            _ => true,
        }
    }
}

/// One entry of the import section: the host module and field it is bound
/// to, and what it must look like.
#[derive(Debug, Clone, PartialEq, Eq)]
pub struct Import {
    pub module: String,
    pub name: String,
    pub kind: ExternKind,
}

/// An import with its names as character sequences.
pub struct SpecImport {
    pub module: Seq<char>,
    pub name: Seq<char>,
    pub kind: ExternKind,
}

impl View for Import {
    type V = SpecImport;

    open spec fn view(&self) -> SpecImport {
        SpecImport { module: self.module@, name: self.name@, kind: self.kind }
    }
}

/// Each import of `v` by its view.
pub open spec fn imports_view(v: Seq<Import>) -> Seq<SpecImport> {
    v.map_values(|i: Import| i@)
}

/// A name at `pos`: a `u32` byte length, then that many bytes of UTF-8.
pub open spec fn name_at(bytes: Seq<u8>, pos: int, base: int) -> Result<(Seq<char>, int), ParseError> {
    let (len, p) = u32_outcome(bytes, pos);
    match len {
        Err(_) => Err(error_at(base + pos, ParseErrorKind::Leb)),
        Ok(n) => if p + n > bytes.len() {
            Err(error_at(base + p, ParseErrorKind::UnexpectedEof))
        } else if !valid_utf8(bytes.subrange(p, p + n)) {
            Err(error_at(base + p, ParseErrorKind::InvalidUtf8))
        } else {
            Ok((decode_utf8(bytes.subrange(p, p + n)), p + n))
        },
    }
}

/// A name as the format writes it: its length in bytes, then its UTF-8
/// bytes.
pub open spec fn name_bytes(utf8: Seq<u8>) -> Seq<u8> {
    encode_unsigned(utf8.len()) + utf8
}

/// A name the format can hold: valid UTF-8 whose length fits a `u32`.
pub open spec fn writable_name(utf8: Seq<u8>) -> bool {
    utf8.len() <= u32::MAX && valid_utf8(utf8)
}

/// A name written as its length and its UTF-8 bytes reads back as the
/// characters those bytes encode, and the reader stops just past it.
pub proof fn lemma_name_read_back(bytes: Seq<u8>, pre: Seq<u8>, utf8: Seq<u8>, post: Seq<u8>, base: int)
    requires
        utf8.len() <= u32::MAX,
        valid_utf8(utf8),
        bytes == pre + name_bytes(utf8) + post,
    ensures
        name_at(bytes, pre.len() as int, base) == Ok::<(Seq<char>, int), ParseError>(
            (decode_utf8(utf8), (pre.len() + name_bytes(utf8).len()) as int),
        ),
{
    let e = encode_unsigned(utf8.len());
    lemma2_to64();
    assert(bytes =~= pre + e + (utf8 + post));
    lemma_unsigned_round_trip(pre, utf8.len(), utf8 + post, 32);
    let p = (pre.len() + e.len()) as int;
    assert(u32_outcome(bytes, pre.len() as int) == (Ok::<u32, LebError>(utf8.len() as u32), p));
    assert(bytes.subrange(p, p + utf8.len()) =~= utf8);
}

/// Limits at `pos`: a flag byte, 0 for a minimum alone and 1 for a minimum
/// and a maximum, each a `u32`.
pub open spec fn limits_at(bytes: Seq<u8>, pos: int, base: int) -> Result<(Limits, int), ParseError> {
    if pos < 0 || pos >= bytes.len() {
        Err(error_at(base + pos, ParseErrorKind::UnexpectedEof))
    } else if bytes[pos] > 1 {
        Err(error_at(base + pos, ParseErrorKind::InvalidLimits))
    } else {
        let (min, p) = u32_outcome(bytes, pos + 1);
        match min {
            Err(_) => Err(error_at(base + pos + 1, ParseErrorKind::Leb)),
            Ok(min) => if bytes[pos] == 1 {
                let (max, q) = u32_outcome(bytes, p);
                match max {
                    Err(_) => Err(error_at(base + p, ParseErrorKind::Leb)),
                    Ok(max) => if max < min {
                        Err(error_at(base + p, ParseErrorKind::InvalidLimits))
                    } else {
                        Ok((Limits { min, max: Some(max) }, q))
                    },
                }
            } else {
                Ok((Limits { min, max: None }, p))
            },
        }
    }
}

/// Where reading limits at `pos` leaves the reader when it fails: in place
/// at the end of the input, past the flag byte when that is invalid, and
/// otherwise where the `u32` that failed, or the maximum that lies below the
/// minimum, leaves it.
pub open spec fn limits_error_end(bytes: Seq<u8>, pos: int) -> int {
    if pos < 0 || pos >= bytes.len() {
        pos
    } else if bytes[pos] > 1 {
        pos + 1
    } else {
        let (min, p) = u32_outcome(bytes, pos + 1);
        match min {
            Err(_) => p,
            Ok(_) => u32_outcome(bytes, p).1,
        }
    }
}

/// A table type at `pos`: the element type `funcref` (`0x70`), then limits.
pub open spec fn table_type_at(bytes: Seq<u8>, pos: int, base: int) -> Result<(TableType, int), ParseError> {
    if pos < 0 || pos >= bytes.len() {
        Err(error_at(base + pos, ParseErrorKind::UnexpectedEof))
    } else if bytes[pos] != 0x70 {
        Err(error_at(base + pos, ParseErrorKind::InvalidExternKind))
    } else {
        match limits_at(bytes, pos + 1, base) {
            Ok((limits, p)) => Ok((TableType { limits }, p)),
            Err(e) => Err(e),
        }
    }
}

/// A global type at `pos`: a value type, then a mutability byte, 0 for
/// constant and 1 for mutable.
pub open spec fn global_type_at(bytes: Seq<u8>, pos: int, base: int) -> Result<(GlobalType, int), ParseError> {
    match val_type_at(bytes, pos, base) {
        Err(e) => Err(e),
        Ok((val_type, p)) => if p >= bytes.len() {
            Err(error_at(base + p, ParseErrorKind::UnexpectedEof))
        } else if bytes[p] > 1 {
            Err(error_at(base + p, ParseErrorKind::InvalidExternKind))
        } else {
            Ok((GlobalType { val_type, mutable: bytes[p] == 1 }, p + 1))
        },
    }
}

/// A global type takes two bytes: its value type's byte, then 1 for a
/// mutable global or 0 for a constant one. Every global type reads back from
/// those two bytes, and a global type that reads is mutable exactly when its
/// second byte is 1.
pub proof fn lemma_global_type_bytes(bytes: Seq<u8>, pos: int, base: int, t: ValType, mutable: bool)
    ensures
        global_type_at(bytes, pos, base) matches Ok((g, q)) ==> {
            &&& q == pos + 2
            &&& bytes[pos] == val_type_code(g.val_type)
            &&& bytes[pos + 1] == 0 || bytes[pos + 1] == 1
            &&& g.mutable <==> bytes[pos + 1] == 1
        },
        0 <= pos && pos + 1 < bytes.len() && bytes[pos] == val_type_code(t) && bytes[pos + 1] == (if mutable {
            1u8
        } else {
            0u8
        }) ==> global_type_at(bytes, pos, base) == Ok::<(GlobalType, int), ParseError>(
            (GlobalType { val_type: t, mutable }, pos + 2),
        ),
{
    lemma_val_type_at_reads_code(bytes, pos, base, t);
}

/// What follows an import's kind byte `kind`, which sits just before `pos`.
pub open spec fn extern_kind_at(kind: u8, bytes: Seq<u8>, pos: int, base: int) -> Result<
    (ExternKind, int),
    ParseError,
> {
    if kind == 0 {
        let (index, p) = u32_outcome(bytes, pos);
        match index {
            Ok(index) => Ok((ExternKind::Func(index), p)),
            Err(_) => Err(error_at(base + pos, ParseErrorKind::Leb)),
        }
    } else if kind == 1 {
        match table_type_at(bytes, pos, base) {
            Ok((t, p)) => Ok((ExternKind::Table(t), p)),
            Err(e) => Err(e),
        }
    } else if kind == 2 {
        match limits_at(bytes, pos, base) {
            Ok((l, p)) => Ok((ExternKind::Memory(l), p)),
            Err(e) => Err(e),
        }
    } else if kind == 3 {
        match global_type_at(bytes, pos, base) {
            Ok((g, p)) => Ok((ExternKind::Global(g), p)),
            Err(e) => Err(e),
        }
    } else {
        Err(error_at(base + pos - 1, ParseErrorKind::InvalidExternKind))
    }
}

/// An import at `pos`: module name, field name, kind byte and the kind's
/// type information.
pub open spec fn import_at(bytes: Seq<u8>, pos: int, base: int) -> Result<(SpecImport, int), ParseError> {
    match name_at(bytes, pos, base) {
        Err(e) => Err(e),
        Ok((module, p)) => match name_at(bytes, p, base) {
            Err(e) => Err(e),
            Ok((name, q)) => if q >= bytes.len() {
                Err(error_at(base + q, ParseErrorKind::UnexpectedEof))
            } else {
                match extern_kind_at(bytes[q], bytes, q + 1, base) {
                    Ok((kind, r)) => Ok((SpecImport { module, name, kind }, r)),
                    Err(e) => Err(e),
                }
            },
        },
    }
}

/// `import_at` as an item reader.
pub open spec fn import_item(bytes: Seq<u8>, base: int) -> spec_fn(int) -> Result<
    (SpecImport, int),
    ParseError,
> {
    |pos: int| import_at(bytes, pos, base)
}

/// The imports an import section payload holds, or why it is malformed.
#[verifier::opaque]
pub open spec fn import_section(bytes: Seq<u8>, base: int) -> Result<Seq<SpecImport>, ParseError> {
    vector_section(import_item(bytes, base), bytes, base)
}

/// `std::str::from_utf8`: by its documentation, `Some` exactly when the bytes
/// are well-formed UTF-8, and then the string whose characters they encode.
#[verifier::external_body]
fn str_from_utf8<'a>(bytes: &'a [u8]) -> (res: Option<&'a str>)
    ensures
        res is Some <==> valid_utf8(bytes@),
        res matches Some(s) ==> s@ == decode_utf8(bytes@),
{
    std::str::from_utf8(bytes).ok()
}

pub(crate) fn read_name(bytes: &[u8], pos: &mut usize, base: usize) -> (res: Result<
    String,
    ParseError,
>)
    requires
        *old(pos) <= bytes@.len(),
        base + bytes@.len() <= usize::MAX,
    ensures
        match name_at(bytes@, *old(pos) as int, base as int) {
            Ok((n, p)) => res matches Ok(s) && s@ == n && *final(pos) == p,
            Err(e) => res matches Err(e2) && e2 == e,
        },
        res is Ok ==> *old(pos) <= *final(pos) <= bytes@.len(),
        res is Err ==> *final(pos) == u32_outcome(bytes@, *old(pos) as int).1,
        res matches Err(e) ==> base + *old(pos) <= e.offset <= base + bytes@.len(),
{
    let len_offset = base + *pos;
    let ghost start = *pos;
    let len = match read_u32(bytes, pos) {
        Ok(len) => len as usize,
        Err(_) => return Err(ParseError { offset: len_offset, kind: ParseErrorKind::Leb }),
    };
    proof {
        lemma_u32_outcome_advances(bytes@, start as int);
    }
    let start_offset = base + *pos;
    if len > bytes.len() - *pos {
        return Err(ParseError { offset: start_offset, kind: ParseErrorKind::UnexpectedEof });
    }
    let raw = vstd::slice::slice_subrange(bytes, *pos, *pos + len);
    let name = match str_from_utf8(raw) {
        Some(s) => s.to_owned(),
        None => return Err(ParseError { offset: start_offset, kind: ParseErrorKind::InvalidUtf8 }),
    };
    *pos = *pos + len;
    Ok(name)
}

fn read_limits(bytes: &[u8], pos: &mut usize, base: usize) -> (res: Result<Limits, ParseError>)
    requires
        *old(pos) <= bytes@.len(),
        base + bytes@.len() <= usize::MAX,
    ensures
        match limits_at(bytes@, *old(pos) as int, base as int) {
            Ok((l, p)) => res == Ok::<Limits, ParseError>(l) && *final(pos) == p,
            Err(e) => res == Err::<Limits, ParseError>(e),
        },
        res matches Ok(l) ==> l.valid() && *old(pos) <= *final(pos) <= bytes@.len(),
        res is Err ==> *final(pos) == limits_error_end(bytes@, *old(pos) as int),
        res matches Err(e) ==> base + *old(pos) <= e.offset <= base + bytes@.len(),
{
    let flag_offset = base + *pos;
    if *pos >= bytes.len() {
        return Err(ParseError { offset: flag_offset, kind: ParseErrorKind::UnexpectedEof });
    }
    let flag = bytes[*pos];
    *pos = *pos + 1;
    if flag > 1 {
        return Err(ParseError { offset: flag_offset, kind: ParseErrorKind::InvalidLimits });
    }
    let min_offset = base + *pos;
    let ghost min_at = *pos;
    let min = match read_u32(bytes, pos) {
        Ok(min) => min,
        Err(_) => return Err(ParseError { offset: min_offset, kind: ParseErrorKind::Leb }),
    };
    proof {
        lemma_u32_outcome_advances(bytes@, min_at as int);
    }
    let max = if flag == 1 {
        let max_offset = base + *pos;
        let ghost max_at = *pos;
        let max = match read_u32(bytes, pos) {
            Ok(max) => max,
            Err(_) => return Err(ParseError { offset: max_offset, kind: ParseErrorKind::Leb }),
        };
        proof {
            lemma_u32_outcome_advances(bytes@, max_at as int);
        }
        if max < min {
            return Err(ParseError { offset: max_offset, kind: ParseErrorKind::InvalidLimits });
        }
        Some(max)
    } else {
        None
    };
    Ok(Limits { min, max })
}

fn read_table_type(bytes: &[u8], pos: &mut usize, base: usize) -> (res: Result<
    TableType,
    ParseError,
>)
    requires
        *old(pos) <= bytes@.len(),
        base + bytes@.len() <= usize::MAX,
    ensures
        match table_type_at(bytes@, *old(pos) as int, base as int) {
            Ok((t, p)) => res == Ok::<TableType, ParseError>(t) && *final(pos) == p,
            Err(e) => res == Err::<TableType, ParseError>(e),
        },
        res matches Ok(t) ==> t.limits.valid() && *old(pos) <= *final(pos) <= bytes@.len(),
        res is Err ==> *final(pos) == (if *old(pos) >= bytes@.len() || bytes@[*old(pos) as int]
            != 0x70 {
            *old(pos) as int
        } else {
            limits_error_end(bytes@, *old(pos) + 1)
        }),
        res matches Err(e) ==> base + *old(pos) <= e.offset <= base + bytes@.len(),
{
    let elem_offset = base + *pos;
    if *pos >= bytes.len() {
        return Err(ParseError { offset: elem_offset, kind: ParseErrorKind::UnexpectedEof });
    }
    if bytes[*pos] != 0x70 {
        return Err(ParseError { offset: elem_offset, kind: ParseErrorKind::InvalidExternKind });
    }
    *pos = *pos + 1;
    let limits = read_limits(bytes, pos, base)?;
    Ok(TableType { limits })
}

fn read_global_type(bytes: &[u8], pos: &mut usize, base: usize) -> (res: Result<
    GlobalType,
    ParseError,
>)
    requires
        *old(pos) <= bytes@.len(),
        base + bytes@.len() <= usize::MAX,
    ensures
        match global_type_at(bytes@, *old(pos) as int, base as int) {
            Ok((g, p)) => res == Ok::<GlobalType, ParseError>(g) && *final(pos) == p,
            Err(e) => res == Err::<GlobalType, ParseError>(e),
        },
        res is Ok ==> *old(pos) <= *final(pos) <= bytes@.len(),
        res is Err ==> *final(pos) == (match val_type_at(bytes@, *old(pos) as int, base as int) {
            Ok((_, p)) => p,
            Err(_) => *old(pos) as int,
        }),
        res matches Err(e) ==> base + *old(pos) <= e.offset <= base + bytes@.len(),
{
    let val_type = read_val_type(bytes, pos, base)?;
    let mut_offset = base + *pos;
    if *pos >= bytes.len() {
        return Err(ParseError { offset: mut_offset, kind: ParseErrorKind::UnexpectedEof });
    }
    let mutability = bytes[*pos];
    let mutable = if mutability == 0x00 {
        false
    } else if mutability == 0x01 {
        true
    } else {
        return Err(ParseError { offset: mut_offset, kind: ParseErrorKind::InvalidExternKind });
    };
    *pos = *pos + 1;
    Ok(GlobalType { val_type, mutable })
}

fn read_import(bytes: &[u8], pos: &mut usize, base: usize) -> (res: Result<Import, ParseError>)
    requires
        *old(pos) <= bytes@.len(),
        base + bytes@.len() <= usize::MAX,
    ensures
        match import_at(bytes@, *old(pos) as int, base as int) {
            Ok((i, p)) => res matches Ok(imp) && imp@ == i && *final(pos) == p,
            Err(e) => res matches Err(e2) && e2 == e,
        },
        res matches Ok(imp) ==> imp.kind.limits_valid() && *old(pos) <= *final(pos) <= bytes@.len(),
        res matches Err(e) ==> base + *old(pos) <= e.offset <= base + bytes@.len(),
{
    let module = read_name(bytes, pos, base)?;
    let name = read_name(bytes, pos, base)?;
    let kind_offset = base + *pos;
    if *pos >= bytes.len() {
        return Err(ParseError { offset: kind_offset, kind: ParseErrorKind::UnexpectedEof });
    }
    let kind_byte = bytes[*pos];
    *pos = *pos + 1;
    let kind = if kind_byte == 0x00 {
        let type_offset = base + *pos;
        let ghost at = *pos;
        let index = match read_u32(bytes, pos) {
            Ok(index) => index,
            Err(_) => return Err(ParseError { offset: type_offset, kind: ParseErrorKind::Leb }),
        };
        proof {
            lemma_u32_outcome_advances(bytes@, at as int);
        }
        ExternKind::Func(index)
    } else if kind_byte == 0x01 {
        ExternKind::Table(read_table_type(bytes, pos, base)?)
    } else if kind_byte == 0x02 {
        ExternKind::Memory(read_limits(bytes, pos, base)?)
    } else if kind_byte == 0x03 {
        ExternKind::Global(read_global_type(bytes, pos, base)?)
    } else {
        return Err(ParseError { offset: kind_offset, kind: ParseErrorKind::InvalidExternKind });
    };
    Ok(Import { module, name, kind })
}

/// Decodes the payload of an import section (id 2) into its entries, in the
/// order they appear. `base` is the offset of `bytes` within the whole
/// module, so a `ParseError` reports a position the caller can find in the
/// input rather than one relative to the section payload.
pub fn decode_import_section(bytes: &[u8], base: usize) -> (res: Result<Vec<Import>, ParseError>)
    requires
        base + bytes@.len() <= usize::MAX,
    ensures
        match import_section(bytes@, base as int) {
            Ok(is) => res matches Ok(v) && imports_view(v@) == is,
            Err(e) => res matches Err(e2) && e2 == e,
        },
        res matches Ok(v) ==> forall|i: int| 0 <= i < v@.len() ==> (#[trigger] v@[i]).kind.limits_valid(),
        res matches Err(e) ==> base <= e.offset <= base + bytes@.len(),
{
    reveal(import_section);
    let mut pos: usize = 0;
    let count = match read_u32(bytes, &mut pos) {
        Ok(count) => count,
        Err(_) => return Err(ParseError { offset: base, kind: ParseErrorKind::Leb }),
    };
    proof {
        lemma_u32_outcome_advances(bytes@, 0);
    }
    let ghost first = pos;
    let ghost item = import_item(bytes@, base as int);
    let mut imports: Vec<Import> = Vec::new();
    assert(imports_view(imports@) =~= Seq::<SpecImport>::empty());
    let mut i: u32 = 0;
    while i < count
        invariant
            first <= pos <= bytes@.len(),
            base + bytes@.len() <= usize::MAX,
            i <= count,
            item == import_item(bytes@, base as int),
            vector_at(item, bytes@, 0, base as int) == repeat(item, first as int, count as nat),
            repeat(item, first as int, i as nat) == Ok::<(Seq<SpecImport>, int), ParseError>(
                (imports_view(imports@), pos as int),
            ),
            forall|k: int| 0 <= k < imports@.len() ==> (#[trigger] imports@[k]).kind.limits_valid(),
        decreases count - i,
    {
        let ghost before = imports@;
        let ghost at = pos;
        assert(item(at as int) == import_at(bytes@, at as int, base as int));
        match read_import(bytes, &mut pos, base) {
            Ok(imp) => {
                imports.push(imp);
                assert(imports_view(imports@) =~= imports_view(before).push(imp@));
            },
            Err(e) => {
                proof {
                    assert(repeat(item, first as int, (i + 1) as nat) == Err::<
                        (Seq<SpecImport>, int),
                        ParseError,
                    >(e));
                    reveal(import_section);
                    lemma_repeat_error_persists(item, first as int, (i + 1) as nat, count as nat);
                }
                return Err(e);
            },
        }
        i = i + 1;
    }
    if pos != bytes.len() {
        return Err(ParseError { offset: base + pos, kind: ParseErrorKind::SectionSizeMismatch });
    }
    Ok(imports)
}

pub(crate) proof fn lemma_name_shift(bytes: Seq<u8>, pos: int, base: int)
    requires
        0 <= pos <= bytes.len(),
        0 <= base,
        base + bytes.len() <= usize::MAX,
    ensures
        name_at(bytes, pos, base) == shifted(name_at(bytes, pos, 0), base),
        name_at(bytes, pos, 0) matches Ok((_, q)) ==> pos <= q <= bytes.len(),
{
    lemma_u32_outcome_advances(bytes, pos);
}

proof fn lemma_limits_shift(bytes: Seq<u8>, pos: int, base: int)
    requires
        0 <= pos <= bytes.len(),
        0 <= base,
        base + bytes.len() <= usize::MAX,
    ensures
        limits_at(bytes, pos, base) == shifted(limits_at(bytes, pos, 0), base),
        limits_at(bytes, pos, 0) matches Ok((_, q)) ==> pos <= q <= bytes.len(),
{
    if pos < bytes.len() && bytes[pos] <= 1 {
        lemma_u32_outcome_advances(bytes, pos + 1);
        let (_, q) = u32_outcome(bytes, pos + 1);
        lemma_u32_outcome_advances(bytes, q);
    }
}

proof fn lemma_extern_kind_shift(kind: u8, bytes: Seq<u8>, pos: int, base: int)
    requires
        1 <= pos <= bytes.len(),
        0 <= base,
        base + bytes.len() <= usize::MAX,
    ensures
        extern_kind_at(kind, bytes, pos, base) == shifted(extern_kind_at(kind, bytes, pos, 0), base),
        extern_kind_at(kind, bytes, pos, 0) matches Ok((_, q)) ==> pos <= q <= bytes.len(),
{
    lemma_u32_outcome_advances(bytes, pos);
    lemma_limits_shift(bytes, pos, base);
    if pos < bytes.len() {
        lemma_limits_shift(bytes, pos + 1, base);
    }
}

proof fn lemma_import_item_shifts(bytes: Seq<u8>, base: int)
    requires
        0 <= base,
        base + bytes.len() <= usize::MAX,
    ensures
        item_shifts(import_item(bytes, base), import_item(bytes, 0), base, bytes.len() as int),
{
    assert forall|p: int| 0 <= p <= bytes.len() implies {
        &&& (#[trigger] import_item(bytes, 0)(p)) == import_at(bytes, p, 0)
        &&& import_item(bytes, base)(p) == shifted(import_item(bytes, 0)(p), base)
        &&& import_item(bytes, 0)(p) matches Ok((_, q)) ==> p <= q <= bytes.len()
    } by {
        lemma_name_shift(bytes, p, base);
        if let Ok((_, q1)) = name_at(bytes, p, 0) {
            lemma_name_shift(bytes, q1, base);
            if let Ok((_, q2)) = name_at(bytes, q1, 0) {
                if q2 < bytes.len() {
                    lemma_extern_kind_shift(bytes[q2], bytes, q2 + 1, base);
                }
            }
        }
    }
}

/// Decoding an import section payload that sits `base` bytes into the
/// module gives what decoding it as if it sat at offset 0 gives, with every
/// error offset moved by `base`.
pub proof fn lemma_import_section_offsets(bytes: Seq<u8>, base: int)
    requires
        0 <= base,
        base + bytes.len() <= usize::MAX,
    ensures
        import_section(bytes, base) == shifted(import_section(bytes, 0), base),
{
    reveal(import_section);
    lemma_import_item_shifts(bytes, base);
    lemma_vector_section_shift(import_item(bytes, base), import_item(bytes, 0), bytes, base);
}

/// Limits as the format writes them: flag 0 and the minimum, or flag 1, the
/// minimum and the maximum.
pub open spec fn limits_bytes(l: Limits) -> Seq<u8> {
    match l.max {
        Some(max) => seq![1u8] + encode_unsigned(l.min as nat) + encode_unsigned(max as nat),
        None => seq![0u8] + encode_unsigned(l.min as nat),
    }
}

/// What an import binds to as the format writes it: the kind byte (0
/// function, 1 table, 2 memory, 3 global), then the type index, the table
/// type (`0x70` and limits), the limits, or the global type (value type
/// byte and 1 for mutable, 0 for constant).
pub open spec fn extern_kind_bytes(k: ExternKind) -> Seq<u8> {
    match k {
        ExternKind::Func(index) => seq![0u8] + encode_unsigned(index as nat),
        ExternKind::Table(t) => seq![1u8, 0x70u8] + limits_bytes(t.limits),
        ExternKind::Memory(l) => seq![2u8] + limits_bytes(l),
        ExternKind::Global(g) => seq![
            3u8,
            val_type_code(g.val_type),
            if g.mutable {
                1u8
            } else {
                0u8
            },
        ],
    }
}

/// An import as the format writes it: the module name, the field name, then
/// what it binds to. Names are given by their UTF-8 bytes.
pub open spec fn import_bytes(i: (Seq<u8>, Seq<u8>, ExternKind)) -> Seq<u8> {
    name_bytes(i.0) + name_bytes(i.1) + extern_kind_bytes(i.2)
}

/// Imports written one after another.
pub open spec fn imports_bytes(is: Seq<(Seq<u8>, Seq<u8>, ExternKind)>) -> Seq<u8>
    decreases is.len(),
{
    if is.len() == 0 {
        Seq::empty()
    } else {
        imports_bytes(is.drop_last()) + import_bytes(is.last())
    }
}

/// The imports written as `is` hold: both names decoded from their UTF-8
/// bytes, with what each binds to.
pub open spec fn written_imports(is: Seq<(Seq<u8>, Seq<u8>, ExternKind)>) -> Seq<SpecImport> {
    is.map_values(
        |i: (Seq<u8>, Seq<u8>, ExternKind)|
            SpecImport { module: decode_utf8(i.0), name: decode_utf8(i.1), kind: i.2 },
    )
}

/// An import the format can hold: both names writable and its limits valid.
pub open spec fn writable_import(i: (Seq<u8>, Seq<u8>, ExternKind)) -> bool {
    writable_name(i.0) && writable_name(i.1) && i.2.limits_valid()
}

proof fn lemma_u32_read_back(bytes: Seq<u8>, pre: Seq<u8>, v: u32, post: Seq<u8>)
    requires
        bytes == pre + encode_unsigned(v as nat) + post,
    ensures
        u32_outcome(bytes, pre.len() as int) == (Ok::<u32, LebError>(v), (pre.len() + encode_unsigned(
            v as nat,
        ).len()) as int),
{
    lemma2_to64();
    lemma_unsigned_round_trip(pre, v as nat, post, 32);
}

#[verifier::spinoff_prover]
#[verifier::rlimit(40)]
proof fn lemma_limits_read_back(bytes: Seq<u8>, pre: Seq<u8>, l: Limits, post: Seq<u8>, base: int)
    requires
        l.valid(),
        bytes == pre + limits_bytes(l) + post,
    ensures
        limits_at(bytes, pre.len() as int, base) == Ok::<(Limits, int), ParseError>(
            (l, (pre.len() + limits_bytes(l).len()) as int),
        ),
{
    let e1 = encode_unsigned(l.min as nat);
    let pre1 = pre + seq![if l.max is Some {
        1u8
    } else {
        0u8
    }];
    assert(bytes[pre.len() as int] == (if l.max is Some {
        1u8
    } else {
        0u8
    }));
    match l.max {
        Some(max) => {
            let e2 = encode_unsigned(max as nat);
            assert(bytes =~= pre1 + e1 + (e2 + post));
            lemma_u32_read_back(bytes, pre1, l.min, e2 + post);
            assert(bytes =~= (pre1 + e1) + e2 + post);
            lemma_u32_read_back(bytes, pre1 + e1, max, post);
            assert(Limits { min: l.min, max: Some(max) } == l);
        },
        None => {
            assert(bytes =~= pre1 + e1 + post);
            lemma_u32_read_back(bytes, pre1, l.min, post);
            assert(Limits { min: l.min, max: None } == l);
        },
    }
}

#[verifier::spinoff_prover]
#[verifier::rlimit(40)]
proof fn lemma_extern_kind_read_back(bytes: Seq<u8>, pre: Seq<u8>, k: ExternKind, post: Seq<u8>, base: int)
    requires
        k.limits_valid(),
        bytes == pre + extern_kind_bytes(k) + post,
    ensures
        bytes[pre.len() as int] == extern_kind_bytes(k)[0],
        extern_kind_at(bytes[pre.len() as int], bytes, pre.len() + 1int, base) == Ok::<
            (ExternKind, int),
            ParseError,
        >((k, (pre.len() + extern_kind_bytes(k).len()) as int)),
{
    let p = pre.len() as int;
    assert(bytes[p] == extern_kind_bytes(k)[0]);
    match k {
        ExternKind::Func(index) => {
            assert(bytes =~= (pre + seq![0u8]) + encode_unsigned(index as nat) + post);
            lemma_u32_read_back(bytes, pre + seq![0u8], index, post);
        },
        ExternKind::Table(t) => {
            assert(bytes[p + 1] == 0x70);
            assert(bytes =~= (pre + seq![1u8, 0x70u8]) + limits_bytes(t.limits) + post);
            lemma_limits_read_back(bytes, pre + seq![1u8, 0x70u8], t.limits, post, base);
            assert(TableType { limits: t.limits } == t);
        },
        ExternKind::Memory(l) => {
            assert(bytes =~= (pre + seq![2u8]) + limits_bytes(l) + post);
            lemma_limits_read_back(bytes, pre + seq![2u8], l, post, base);
        },
        ExternKind::Global(g) => {
            let m: u8 = if g.mutable {
                1u8
            } else {
                0u8
            };
            assert(bytes[p + 1] == val_type_code(g.val_type) && bytes[p + 2] == m);
            lemma_global_type_bytes(bytes, p + 1, base, g.val_type, g.mutable);
            assert(GlobalType { val_type: g.val_type, mutable: g.mutable } == g);
        },
    }
}

#[verifier::spinoff_prover]
#[verifier::rlimit(40)]
proof fn lemma_import_read_back(
    bytes: Seq<u8>,
    pre: Seq<u8>,
    i: (Seq<u8>, Seq<u8>, ExternKind),
    post: Seq<u8>,
    base: int,
)
    requires
        writable_import(i),
        bytes == pre + import_bytes(i) + post,
    ensures
        import_at(bytes, pre.len() as int, base) == Ok::<(SpecImport, int), ParseError>(
            (
                SpecImport { module: decode_utf8(i.0), name: decode_utf8(i.1), kind: i.2 },
                (pre.len() + import_bytes(i).len()) as int,
            ),
        ),
{
    let n0 = name_bytes(i.0);
    let n1 = name_bytes(i.1);
    let kb = extern_kind_bytes(i.2);
    assert(bytes =~= pre + n0 + (n1 + kb + post));
    lemma_name_read_back(bytes, pre, i.0, n1 + kb + post, base);
    assert(bytes =~= (pre + n0) + n1 + (kb + post));
    lemma_name_read_back(bytes, pre + n0, i.1, kb + post, base);
    assert(bytes =~= (pre + n0 + n1) + kb + post);
    lemma_extern_kind_read_back(bytes, pre + n0 + n1, i.2, post, base);
}

#[verifier::spinoff_prover]
#[verifier::rlimit(40)]
proof fn lemma_imports_repeat(
    bytes: Seq<u8>,
    pre: Seq<u8>,
    is: Seq<(Seq<u8>, Seq<u8>, ExternKind)>,
    post: Seq<u8>,
    base: int,
)
    requires
        forall|j: int| 0 <= j < is.len() ==> writable_import(#[trigger] is[j]),
        bytes == pre + imports_bytes(is) + post,
    ensures
        repeat(import_item(bytes, base), pre.len() as int, is.len()) == Ok::<
            (Seq<SpecImport>, int),
            ParseError,
        >((written_imports(is), (pre.len() + imports_bytes(is).len()) as int)),
    decreases is.len(),
{
    if is.len() == 0 {
        assert(written_imports(is) =~= Seq::<SpecImport>::empty());
    } else {
        let init = is.drop_last();
        let last = is.last();
        let a = imports_bytes(init);
        let f = import_bytes(last);
        assert(bytes =~= pre + a + (f + post));
        assert forall|j: int| 0 <= j < init.len() implies writable_import(#[trigger] init[j]) by {
            assert(init[j] == is[j]);
        }
        lemma_imports_repeat(bytes, pre, init, f + post, base);
        assert(bytes =~= (pre + a) + f + post);
        lemma_import_read_back(bytes, pre + a, last, post, base);
        let x = SpecImport { module: decode_utf8(last.0), name: decode_utf8(last.1), kind: last.2 };
        assert forall|j: int| 0 <= j < is.len() implies #[trigger] written_imports(is)[j] == written_imports(
            init,
        ).push(x)[j] by {
            if j < init.len() {
                assert(init[j] == is[j]);
            }
        }
        assert(written_imports(init).push(x) =~= written_imports(is));
    }
}

/// An import section written as the number of imports and then each one -
/// module name, field name, kind byte and its type information - decodes
/// back to those imports, with every name, index, limit and global type as
/// written, wherever in the module it sits.
pub proof fn lemma_import_section_round_trip(is: Seq<(Seq<u8>, Seq<u8>, ExternKind)>, base: int)
    requires
        is.len() <= u32::MAX,
        forall|j: int| 0 <= j < is.len() ==> writable_import(#[trigger] is[j]),
    ensures
        import_section(encode_unsigned(is.len()) + imports_bytes(is), base) == Ok::<
            Seq<SpecImport>,
            ParseError,
        >(written_imports(is)),
{
    reveal(import_section);
    lemma2_to64();
    let head = encode_unsigned(is.len());
    let body = imports_bytes(is);
    let bytes = head + body;
    assert(bytes =~= Seq::<u8>::empty() + head + body);
    lemma_unsigned_round_trip(Seq::<u8>::empty(), is.len(), body, 32);
    assert(u32_outcome(bytes, 0) == (Ok::<u32, LebError>(is.len() as u32), head.len() as int));
    assert(bytes =~= head + body + Seq::<u8>::empty());
    lemma_imports_repeat(bytes, head, is, Seq::<u8>::empty(), base);
}

/// Bytes left over after the last import of an import section are refused
/// with `SectionSizeMismatch` at the first of them.
pub proof fn lemma_import_section_trailing_bytes(
    is: Seq<(Seq<u8>, Seq<u8>, ExternKind)>,
    extra: Seq<u8>,
    base: int,
)
    requires
        is.len() <= u32::MAX,
        forall|j: int| 0 <= j < is.len() ==> writable_import(#[trigger] is[j]),
        extra.len() > 0,
    ensures
        import_section(encode_unsigned(is.len()) + imports_bytes(is) + extra, base) == Err::<
            Seq<SpecImport>,
            ParseError,
        >(
            error_at(
                base + encode_unsigned(is.len()).len() + imports_bytes(is).len(),
                ParseErrorKind::SectionSizeMismatch,
            ),
        ),
{
    reveal(import_section);
    lemma2_to64();
    let head = encode_unsigned(is.len());
    let body = imports_bytes(is);
    let bytes = head + body + extra;
    assert(bytes =~= Seq::<u8>::empty() + head + (body + extra));
    lemma_unsigned_round_trip(Seq::<u8>::empty(), is.len(), body + extra, 32);
    assert(u32_outcome(bytes, 0) == (Ok::<u32, LebError>(is.len() as u32), head.len() as int));
    lemma_imports_repeat(bytes, head, is, extra, base);
}

/// A name whose bytes are not valid UTF-8 is refused with `InvalidUtf8`
/// where its bytes start.
pub proof fn lemma_name_not_utf8(bytes: Seq<u8>, pre: Seq<u8>, utf8: Seq<u8>, post: Seq<u8>, base: int)
    requires
        utf8.len() <= u32::MAX,
        !valid_utf8(utf8),
        bytes == pre + name_bytes(utf8) + post,
    ensures
        name_at(bytes, pre.len() as int, base) == Err::<(Seq<char>, int), ParseError>(
            error_at(base + pre.len() + encode_unsigned(utf8.len()).len(), ParseErrorKind::InvalidUtf8),
        ),
{
    let e = encode_unsigned(utf8.len());
    assert(bytes =~= pre + e + (utf8 + post));
    lemma_u32_read_back(bytes, pre, utf8.len() as u32, utf8 + post);
    let p = (pre.len() + e.len()) as int;
    assert(bytes.subrange(p, p + utf8.len()) =~= utf8);
}

/// Limits refuse a flag byte other than 0 and 1 with `InvalidLimits` at the
/// flag, and a maximum below the minimum with `InvalidLimits` where the
/// maximum starts.
pub proof fn lemma_limits_refused(bytes: Seq<u8>, pre: Seq<u8>, min: u32, max: u32, post: Seq<u8>, base: int)
    ensures
        ({
            let p = pre.len() as int;
            bytes == pre + post && post.len() > 0 && post[0] > 1 ==> limits_at(bytes, p, base) == Err::<
                (Limits, int),
                ParseError,
            >(error_at(base + p, ParseErrorKind::InvalidLimits))
        }),
        ({
            let p = pre.len() as int;
            let e1 = encode_unsigned(min as nat);
            bytes == pre + seq![1u8] + e1 + encode_unsigned(max as nat) + post && max < min ==> limits_at(
                bytes,
                p,
                base,
            ) == Err::<(Limits, int), ParseError>(
                error_at(base + p + 1 + e1.len(), ParseErrorKind::InvalidLimits),
            )
        }),
{
    let p = pre.len() as int;
    let e1 = encode_unsigned(min as nat);
    let e2 = encode_unsigned(max as nat);
    if bytes == pre + post && post.len() > 0 && post[0] > 1 {
        assert(bytes[p] == post[0]);
    }
    if bytes == pre + seq![1u8] + e1 + e2 + post && max < min {
        assert(bytes[p] == 1);
        assert(bytes =~= (pre + seq![1u8]) + e1 + (e2 + post));
        lemma_u32_read_back(bytes, pre + seq![1u8], min, e2 + post);
        assert(bytes =~= (pre + seq![1u8] + e1) + e2 + post);
        lemma_u32_read_back(bytes, pre + seq![1u8] + e1, max, post);
    }
}

/// An import whose kind byte is above 3 is refused with
/// `InvalidExternKind` at that byte.
pub proof fn lemma_import_kind_refused(
    bytes: Seq<u8>,
    pre: Seq<u8>,
    module: Seq<u8>,
    name: Seq<u8>,
    kind: u8,
    post: Seq<u8>,
    base: int,
)
    requires
        writable_name(module),
        writable_name(name),
        kind > 3,
        bytes == pre + name_bytes(module) + name_bytes(name) + seq![kind] + post,
    ensures
        import_at(bytes, pre.len() as int, base) == Err::<(SpecImport, int), ParseError>(
            error_at(
                base + pre.len() + name_bytes(module).len() + name_bytes(name).len(),
                ParseErrorKind::InvalidExternKind,
            ),
        ),
{
    let n0 = name_bytes(module);
    let n1 = name_bytes(name);
    assert(bytes =~= pre + n0 + (n1 + seq![kind] + post));
    lemma_name_read_back(bytes, pre, module, n1 + seq![kind] + post, base);
    assert(bytes =~= (pre + n0) + n1 + (seq![kind] + post));
    lemma_name_read_back(bytes, pre + n0, name, seq![kind] + post, base);
    assert(bytes[(pre.len() + n0.len() + n1.len()) as int] == kind);
}

} // verus!
