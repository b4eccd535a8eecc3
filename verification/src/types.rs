//! Decoding of the type section: value types and function signatures.
//!
//! A function type is the byte `0x60` followed by two vectors of value
//! types, params then results. Every later section refers back into this one
//! by index.
use crate::leb::{
    encode_unsigned,
    lemma_u32_outcome_advances,
    lemma_unsigned_round_trip,
    read_u32,
    u32_outcome,
    LebError,
};
use vstd::arithmetic::power2::{lemma2_to64, pow2};
use crate::sections::{
    error_at,
    item_shifts,
    lemma_vector_section_shift,
    lemma_vector_shift,
    shifted,
    lemma_repeat_error_persists,
    repeat,
    vector_at,
    vector_section,
    ParseError,
    ParseErrorKind,
};
use vstd::prelude::*;

verus! {

/// One of the four value types the MVP instruction set operates on.
#[derive(Debug, Clone, Copy, PartialEq, Eq)]
pub enum ValType {
    I32,
    I64,
    F32,
    F64,
}

/// A function signature: the types of its parameters, in order, and the
/// types of its results, in order.
#[derive(Debug, Clone, PartialEq, Eq)]
pub struct FuncType {
    pub params: Vec<ValType>,
    pub results: Vec<ValType>,
}

/// A function signature as sequences of value types.
pub struct SpecFuncType {
    pub params: Seq<ValType>,
    pub results: Seq<ValType>,
}

impl View for FuncType {
    type V = SpecFuncType;

    open spec fn view(&self) -> SpecFuncType {
        SpecFuncType { params: self.params@, results: self.results@ }
    }
}

/// Each function type of `v` by its view.
pub open spec fn func_types_view(v: Seq<FuncType>) -> Seq<SpecFuncType> {
    v.map_values(|t: FuncType| t@)
}

/// The value type a byte encodes, if any.
pub open spec fn val_type_of(byte: u8) -> Option<ValType> {
    if byte == 0x7F {
        Some(ValType::I32)
    } else if byte == 0x7E {
        Some(ValType::I64)
    } else if byte == 0x7D {
        Some(ValType::F32)
    } else if byte == 0x7C {
        Some(ValType::F64)
    } else {
        None
    }
}

/// The byte the binary format writes for each value type.
pub open spec fn val_type_code(t: ValType) -> u8 {
    match t {
        ValType::I32 => 0x7F,
        ValType::I64 => 0x7E,
        ValType::F32 => 0x7D,
        ValType::F64 => 0x7C,
    }
}

/// Value-type bytes decode exactly as the format writes them: each value
/// type's byte (`0x7F` i32, `0x7E` i64, `0x7D` f32, `0x7C` f64) gives back
/// that type, no other byte is a value type, and two different bytes never
/// give the same type.
pub proof fn lemma_val_type_codes(byte: u8, t: ValType)
    ensures
        val_type_of(val_type_code(t)) == Some(t),
        val_type_of(byte) == Some(t) <==> byte == val_type_code(t),
        val_type_of(byte) is None <==> !(byte == 0x7F || byte == 0x7E || byte == 0x7D || byte == 0x7C),
        val_type_code(ValType::I32) == 0x7F && val_type_code(ValType::I64) == 0x7E
            && val_type_code(ValType::F32) == 0x7D && val_type_code(ValType::F64) == 0x7C,
{
}

/// Reading a value type takes one byte, the one the format writes for it,
/// and a byte the format writes for a value type always reads as that type.
pub proof fn lemma_val_type_at_reads_code(bytes: Seq<u8>, pos: int, base: int, t: ValType)
    ensures
        val_type_at(bytes, pos, base) matches Ok((u, q)) ==> q == pos + 1 && bytes[pos]
            == val_type_code(u),
        0 <= pos < bytes.len() && bytes[pos] == val_type_code(t) ==> val_type_at(bytes, pos, base)
            == Ok::<(ValType, int), ParseError>((t, pos + 1)),
        0 <= pos < bytes.len() && !(bytes[pos] == 0x7F || bytes[pos] == 0x7E || bytes[pos] == 0x7D
            || bytes[pos] == 0x7C) ==> val_type_at(bytes, pos, base) == Err::<(ValType, int), ParseError>(
            error_at(base + pos, ParseErrorKind::InvalidValType),
        ),
        0 <= pos && bytes.len() <= pos ==> val_type_at(bytes, pos, base) == Err::<(ValType, int), ParseError>(
            error_at(base + pos, ParseErrorKind::UnexpectedEof),
        ),
{
}

/// A value type at `pos`: one byte.
pub open spec fn val_type_at(bytes: Seq<u8>, pos: int, base: int) -> Result<
    (ValType, int),
    ParseError,
> {
    if pos < 0 || pos >= bytes.len() {
        Err(error_at(base + pos, ParseErrorKind::UnexpectedEof))
    } else {
        match val_type_of(bytes[pos]) {
            Some(t) => Ok((t, pos + 1)),
            None => Err(error_at(base + pos, ParseErrorKind::InvalidValType)),
        }
    }
}

/// `val_type_at` as an item reader.
pub open spec fn val_type_item(bytes: Seq<u8>, base: int) -> spec_fn(int) -> Result<
    (ValType, int),
    ParseError,
> {
    |pos: int| val_type_at(bytes, pos, base)
}

/// A function type at `pos`: the form byte `0x60`, a vector of parameter
/// types and a vector of result types.
pub open spec fn func_type_at(bytes: Seq<u8>, pos: int, base: int) -> Result<
    (SpecFuncType, int),
    ParseError,
> {
    if pos < 0 || pos >= bytes.len() {
        Err(error_at(base + pos, ParseErrorKind::UnexpectedEof))
    } else if bytes[pos] != 0x60 {
        Err(error_at(base + pos, ParseErrorKind::InvalidFuncType))
    } else {
        match vector_at(val_type_item(bytes, base), bytes, pos + 1, base) {
            Ok((params, p)) => match vector_at(val_type_item(bytes, base), bytes, p, base) {
                Ok((results, q)) => Ok((SpecFuncType { params, results }, q)),
                Err(e) => Err(e),
            },
            Err(e) => Err(e),
        }
    }
}

/// `func_type_at` as an item reader.
pub open spec fn func_type_item(bytes: Seq<u8>, base: int) -> spec_fn(int) -> Result<
    (SpecFuncType, int),
    ParseError,
> {
    |pos: int| func_type_at(bytes, pos, base)
}

/// The function types a type section payload holds, or why it is malformed.
#[verifier::opaque]
pub open spec fn type_section(bytes: Seq<u8>, base: int) -> Result<Seq<SpecFuncType>, ParseError> {
    vector_section(func_type_item(bytes, base), bytes, base)
}

pub(crate) fn read_val_type(bytes: &[u8], pos: &mut usize, base: usize) -> (res: Result<
    ValType,
    ParseError,
>)
    requires
        *old(pos) <= bytes@.len(),
        base + bytes@.len() <= usize::MAX,
    ensures
        match val_type_at(bytes@, *old(pos) as int, base as int) {
            Ok((t, p)) => res == Ok::<ValType, ParseError>(t) && *final(pos) == p,
            Err(e) => res == Err::<ValType, ParseError>(e),
        },
        *old(pos) <= *final(pos) <= bytes@.len(),
        res is Err ==> *final(pos) == *old(pos),
        res matches Err(e) ==> base + *old(pos) <= e.offset <= base + bytes@.len(),
{
    let offset = base + *pos;
    if *pos >= bytes.len() {
        return Err(ParseError { offset, kind: ParseErrorKind::UnexpectedEof });
    }
    let byte = bytes[*pos];
    let val = if byte == 0x7F {
        ValType::I32
    } else if byte == 0x7E {
        ValType::I64
    } else if byte == 0x7D {
        ValType::F32
    } else if byte == 0x7C {
        ValType::F64
    } else {
        return Err(ParseError { offset, kind: ParseErrorKind::InvalidValType });
    };
    *pos = *pos + 1;
    Ok(val)
}

fn read_val_type_vec(bytes: &[u8], pos: &mut usize, base: usize) -> (res: Result<
    Vec<ValType>,
    ParseError,
>)
    requires
        *old(pos) <= bytes@.len(),
        base + bytes@.len() <= usize::MAX,
    ensures
        match vector_at(val_type_item(bytes@, base as int), bytes@, *old(pos) as int, base as int) {
            Ok((ts, p)) => res matches Ok(v) && v@ == ts && *final(pos) == p,
            Err(e) => res matches Err(e2) && e2 == e,
        },
        res is Ok ==> *old(pos) <= *final(pos) <= bytes@.len(),
        res matches Err(e) ==> base + *old(pos) <= e.offset <= base + bytes@.len(),
{
    let count_offset = base + *pos;
    let ghost start = *pos;
    let count = match read_u32(bytes, pos) {
        Ok(count) => count,
        Err(_) => return Err(ParseError { offset: count_offset, kind: ParseErrorKind::Leb }),
    };
    proof {
        lemma_u32_outcome_advances(bytes@, start as int);
    }
    let ghost first = *pos;
    let ghost item = val_type_item(bytes@, base as int);
    let mut values: Vec<ValType> = Vec::new();
    let mut i: u32 = 0;
    while i < count
        invariant
            start == *old(pos),
            start <= first <= *pos <= bytes@.len(),
            base + bytes@.len() <= usize::MAX,
            base + start == count_offset,
            i <= count,
            item == val_type_item(bytes@, base as int),
            vector_at(item, bytes@, start as int, base as int) == repeat(item, first as int, count as nat),
            repeat(item, first as int, i as nat) == Ok::<(Seq<ValType>, int), ParseError>((values@, *pos as int)),
        decreases count - i,
    {
        let ghost before = values@;
        let ghost at = *pos;
        assert(item(at as int) == val_type_at(bytes@, at as int, base as int));
        match read_val_type(bytes, pos, base) {
            Ok(t) => {
                values.push(t);
                assert(values@ == before.push(t));
            },
            Err(e) => {
                proof {
                    assert(repeat(item, first as int, (i + 1) as nat) == Err::<(Seq<ValType>, int), ParseError>(e));
                    lemma_repeat_error_persists(item, first as int, (i + 1) as nat, count as nat);
                }
                return Err(e);
            },
        }
        i = i + 1;
    }
    Ok(values)
}

fn read_func_type(bytes: &[u8], pos: &mut usize, base: usize) -> (res: Result<
    FuncType,
    ParseError,
>)
    requires
        *old(pos) <= bytes@.len(),
        base + bytes@.len() <= usize::MAX,
    ensures
        match func_type_at(bytes@, *old(pos) as int, base as int) {
            Ok((t, p)) => res matches Ok(f) && f@ == t && *final(pos) == p,
            Err(e) => res matches Err(e2) && e2 == e,
        },
        res is Ok ==> *old(pos) <= *final(pos) <= bytes@.len(),
        res matches Err(e) ==> base + *old(pos) <= e.offset <= base + bytes@.len(),
{
    let form_offset = base + *pos;
    if *pos >= bytes.len() {
        return Err(ParseError { offset: form_offset, kind: ParseErrorKind::UnexpectedEof });
    }
    if bytes[*pos] != 0x60 {
        return Err(ParseError { offset: form_offset, kind: ParseErrorKind::InvalidFuncType });
    }
    *pos = *pos + 1;
    let params = read_val_type_vec(bytes, pos, base)?;
    let results = read_val_type_vec(bytes, pos, base)?;
    Ok(FuncType { params, results })
}

/// Decodes the payload of a type section (id 1) into its function types, in
/// the order they appear. `base` is the offset of `bytes` within the whole
/// module, so a `ParseError` reports a position the caller can find in the
/// input rather than one relative to the section payload.
pub fn decode_type_section(bytes: &[u8], base: usize) -> (res: Result<Vec<FuncType>, ParseError>)
    requires
        base + bytes@.len() <= usize::MAX,
    ensures
        match type_section(bytes@, base as int) {
            Ok(ts) => res matches Ok(v) && func_types_view(v@) == ts,
            Err(e) => res matches Err(e2) && e2 == e,
        },
        res matches Err(e) ==> base <= e.offset <= base + bytes@.len(),
{
    reveal(type_section);
    let mut pos: usize = 0;
    let count = match read_u32(bytes, &mut pos) {
        Ok(count) => count,
        Err(_) => return Err(ParseError { offset: base, kind: ParseErrorKind::Leb }),
    };
    proof {
        lemma_u32_outcome_advances(bytes@, 0);
    }
    let ghost first = pos;
    let ghost item = func_type_item(bytes@, base as int);
    let mut types: Vec<FuncType> = Vec::new();
    assert(func_types_view(types@) =~= Seq::<SpecFuncType>::empty());
    let mut i: u32 = 0;
    while i < count
        invariant
            first <= pos <= bytes@.len(),
            base + bytes@.len() <= usize::MAX,
            i <= count,
            item == func_type_item(bytes@, base as int),
            vector_at(item, bytes@, 0, base as int) == repeat(item, first as int, count as nat),
            repeat(item, first as int, i as nat) == Ok::<(Seq<SpecFuncType>, int), ParseError>(
                (func_types_view(types@), pos as int),
            ),
        decreases count - i,
    {
        let ghost before = types@;
        let ghost at = pos;
        assert(item(at as int) == func_type_at(bytes@, at as int, base as int));
        match read_func_type(bytes, &mut pos, base) {
            Ok(t) => {
                types.push(t);
                assert(func_types_view(types@) =~= func_types_view(before).push(t@));
            },
            Err(e) => {
                proof {
                    assert(repeat(item, first as int, (i + 1) as nat) == Err::<
                        (Seq<SpecFuncType>, int),
                        ParseError,
                    >(e));
                    reveal(type_section);
                    lemma_repeat_error_persists(item, first as int, (i + 1) as nat, count as nat);
                }
                return Err(e);
            },
        }
        i = i + 1;
    }
    if pos != bytes.len() {
        return Err(ParseError { offset: base + pos, kind: ParseErrorKind::SectionSizeMismatch });
    }
    Ok(types)
}

proof fn lemma_val_type_item_shifts(bytes: Seq<u8>, base: int)
    requires
        0 <= base,
        base + bytes.len() <= usize::MAX,
    ensures
        item_shifts(val_type_item(bytes, base), val_type_item(bytes, 0), base, bytes.len() as int),
{
    assert forall|p: int| 0 <= p <= bytes.len() implies {
        &&& (#[trigger] val_type_item(bytes, 0)(p)) == val_type_at(bytes, p, 0)
        &&& val_type_item(bytes, base)(p) == shifted(val_type_item(bytes, 0)(p), base)
        &&& val_type_item(bytes, 0)(p) matches Ok((_, q)) ==> p <= q <= bytes.len()
    } by {}
}

proof fn lemma_func_type_item_shifts(bytes: Seq<u8>, base: int)
    requires
        0 <= base,
        base + bytes.len() <= usize::MAX,
    ensures
        item_shifts(func_type_item(bytes, base), func_type_item(bytes, 0), base, bytes.len() as int),
{
    lemma_val_type_item_shifts(bytes, base);
    let at = val_type_item(bytes, base);
    let at0 = val_type_item(bytes, 0);
    assert forall|p: int| 0 <= p <= bytes.len() implies {
        &&& (#[trigger] func_type_item(bytes, 0)(p)) == func_type_at(bytes, p, 0)
        &&& func_type_item(bytes, base)(p) == shifted(func_type_item(bytes, 0)(p), base)
        &&& func_type_item(bytes, 0)(p) matches Ok((_, q)) ==> p <= q <= bytes.len()
    } by {
        if p < bytes.len() && bytes[p] == 0x60 {
            lemma_vector_shift(at, at0, bytes, p + 1, base);
            if let Ok((_, q)) = vector_at(at0, bytes, p + 1, 0) {
                lemma_vector_shift(at, at0, bytes, q, base);
            }
        }
    }
}

/// Decoding a type section payload that sits `base` bytes into the module
/// gives what decoding it as if it sat at offset 0 gives, with every error
/// offset moved by `base`.
pub proof fn lemma_type_section_offsets(bytes: Seq<u8>, base: int)
    requires
        0 <= base,
        base + bytes.len() <= usize::MAX,
    ensures
        type_section(bytes, base) == shifted(type_section(bytes, 0), base),
{
    reveal(type_section);
    lemma_func_type_item_shifts(bytes, base);
    lemma_vector_section_shift(func_type_item(bytes, base), func_type_item(bytes, 0), bytes, base);
}

/// Value types as the format writes them, one byte each.
pub open spec fn val_types_bytes(ts: Seq<ValType>) -> Seq<u8> {
    ts.map_values(|t: ValType| val_type_code(t))
}

/// A function type as the format writes it: `0x60`, the parameter count and
/// types, then the result count and types.
pub open spec fn func_type_bytes(ft: SpecFuncType) -> Seq<u8> {
    seq![0x60u8] + encode_unsigned(ft.params.len()) + val_types_bytes(ft.params) + encode_unsigned(
        ft.results.len(),
    ) + val_types_bytes(ft.results)
}

/// Function types written one after another.
pub open spec fn func_types_bytes(fts: Seq<SpecFuncType>) -> Seq<u8>
    decreases fts.len(),
{
    if fts.len() == 0 {
        Seq::empty()
    } else {
        func_types_bytes(fts.drop_last()) + func_type_bytes(fts.last())
    }
}

/// A function type whose parameter and result lists each fit a `u32` count.
pub open spec fn func_type_fits(ft: SpecFuncType) -> bool {
    ft.params.len() <= u32::MAX && ft.results.len() <= u32::MAX
}

proof fn lemma_val_types_repeat(bytes: Seq<u8>, base: int, p: int, ts: Seq<ValType>, k: int)
    requires
        0 <= p,
        0 <= k <= ts.len(),
        p + ts.len() <= bytes.len(),
        forall|i: int| 0 <= i < ts.len() ==> bytes[p + i] == val_type_code(#[trigger] ts[i]),
    ensures
        repeat(val_type_item(bytes, base), p, k as nat) == Ok::<(Seq<ValType>, int), ParseError>(
            (ts.take(k), p + k),
        ),
    decreases k,
{
    if k == 0 {
        assert(ts.take(0) =~= Seq::<ValType>::empty());
    } else {
        lemma_val_types_repeat(bytes, base, p, ts, k - 1);
        assert(bytes[p + (k - 1)] == val_type_code(ts[k - 1]));
        lemma_val_type_at_reads_code(bytes, p + k - 1, base, ts[k - 1]);
        assert(ts.take(k - 1).push(ts[k - 1]) =~= ts.take(k));
    }
}

proof fn lemma_val_types_read_back(bytes: Seq<u8>, pre: Seq<u8>, ts: Seq<ValType>, post: Seq<u8>, base: int)
    requires
        ts.len() <= u32::MAX,
        bytes == pre + encode_unsigned(ts.len()) + val_types_bytes(ts) + post,
    ensures
        vector_at(val_type_item(bytes, base), bytes, pre.len() as int, base) == Ok::<
            (Seq<ValType>, int),
            ParseError,
        >((ts, (pre.len() + encode_unsigned(ts.len()).len() + ts.len()) as int)),
{
    let e = encode_unsigned(ts.len());
    let vb = val_types_bytes(ts);
    lemma2_to64();
    assert(bytes =~= pre + e + (vb + post));
    lemma_unsigned_round_trip(pre, ts.len(), vb + post, 32);
    assert(u32_outcome(bytes, pre.len() as int) == (Ok::<u32, LebError>(ts.len() as u32), (pre.len()
        + e.len()) as int));
    let p = (pre.len() + e.len()) as int;
    assert forall|i: int| 0 <= i < ts.len() implies bytes[p + i] == val_type_code(#[trigger] ts[i]) by {
        assert(bytes[p + i] == vb[i]);
    }
    lemma_val_types_repeat(bytes, base, p, ts, ts.len() as int);
    assert(ts.take(ts.len() as int) =~= ts);
}

#[verifier::spinoff_prover]
#[verifier::rlimit(40)]
proof fn lemma_func_type_read_back(bytes: Seq<u8>, pre: Seq<u8>, ft: SpecFuncType, post: Seq<u8>, base: int)
    requires
        func_type_fits(ft),
        bytes == pre + func_type_bytes(ft) + post,
    ensures
        func_type_at(bytes, pre.len() as int, base) == Ok::<(SpecFuncType, int), ParseError>(
            (ft, (pre.len() + func_type_bytes(ft).len()) as int),
        ),
{
    let ps = ft.params;
    let rs = ft.results;
    let ep = encode_unsigned(ps.len());
    let er = encode_unsigned(rs.len());
    let pb = val_types_bytes(ps);
    let rb = val_types_bytes(rs);
    let pre1 = pre + seq![0x60u8];
    let pre2 = pre1 + ep + pb;
    assert(bytes =~= pre1 + ep + pb + (er + rb + post));
    assert(bytes =~= pre2 + er + rb + post);
    assert(bytes[pre.len() as int] == 0x60);
    lemma_val_types_read_back(bytes, pre1, ps, er + rb + post, base);
    lemma_val_types_read_back(bytes, pre2, rs, post, base);
    assert(SpecFuncType { params: ps, results: rs } == ft);
}

#[verifier::spinoff_prover]
#[verifier::rlimit(40)]
proof fn lemma_func_types_repeat(bytes: Seq<u8>, pre: Seq<u8>, fts: Seq<SpecFuncType>, post: Seq<u8>, base: int)
    requires
        forall|i: int| 0 <= i < fts.len() ==> func_type_fits(#[trigger] fts[i]),
        bytes == pre + func_types_bytes(fts) + post,
    ensures
        repeat(func_type_item(bytes, base), pre.len() as int, fts.len()) == Ok::<
            (Seq<SpecFuncType>, int),
            ParseError,
        >((fts, (pre.len() + func_types_bytes(fts).len()) as int)),
    decreases fts.len(),
{
    if fts.len() == 0 {
        assert(fts =~= Seq::<SpecFuncType>::empty());
    } else {
        let init = fts.drop_last();
        let last = fts.last();
        let a = func_types_bytes(init);
        let f = func_type_bytes(last);
        assert(bytes =~= pre + a + (f + post));
        assert forall|i: int| 0 <= i < init.len() implies func_type_fits(#[trigger] init[i]) by {
            assert(init[i] == fts[i]);
        }
        lemma_func_types_repeat(bytes, pre, init, f + post, base);
        assert(bytes =~= (pre + a) + f + post);
        lemma_func_type_read_back(bytes, pre + a, last, post, base);
        assert(init.push(last) =~= fts);
    }
}

/// A type section written as the count of function types and then each
/// one - `0x60`, its parameter types, its result types, each list preceded
/// by its length - decodes back to the same function types, wherever in the
/// module it sits.
pub proof fn lemma_type_section_round_trip(fts: Seq<SpecFuncType>, base: int)
    requires
        fts.len() <= u32::MAX,
        forall|i: int| 0 <= i < fts.len() ==> func_type_fits(#[trigger] fts[i]),
    ensures
        type_section(encode_unsigned(fts.len()) + func_types_bytes(fts), base) == Ok::<
            Seq<SpecFuncType>,
            ParseError,
        >(fts),
{
    reveal(type_section);
    lemma2_to64();
    let head = encode_unsigned(fts.len());
    let body = func_types_bytes(fts);
    let bytes = head + body;
    assert(bytes =~= Seq::<u8>::empty() + head + body);
    lemma_unsigned_round_trip(Seq::<u8>::empty(), fts.len(), body, 32);
    assert(u32_outcome(bytes, 0) == (Ok::<u32, LebError>(fts.len() as u32), head.len() as int));
    assert(bytes =~= head + body + Seq::<u8>::empty());
    lemma_func_types_repeat(bytes, head, fts, Seq::<u8>::empty(), base);
}

/// Bytes left over after the last function type of a type section are
/// refused with `SectionSizeMismatch` at the first of them.
pub proof fn lemma_type_section_trailing_bytes(fts: Seq<SpecFuncType>, extra: Seq<u8>, base: int)
    requires
        fts.len() <= u32::MAX,
        forall|i: int| 0 <= i < fts.len() ==> func_type_fits(#[trigger] fts[i]),
        extra.len() > 0,
    ensures
        type_section(encode_unsigned(fts.len()) + func_types_bytes(fts) + extra, base) == Err::<
            Seq<SpecFuncType>,
            ParseError,
        >(
            error_at(
                base + encode_unsigned(fts.len()).len() + func_types_bytes(fts).len(),
                ParseErrorKind::SectionSizeMismatch,
            ),
        ),
{
    reveal(type_section);
    lemma2_to64();
    let head = encode_unsigned(fts.len());
    let body = func_types_bytes(fts);
    let bytes = head + body + extra;
    assert(bytes =~= Seq::<u8>::empty() + head + (body + extra));
    lemma_unsigned_round_trip(Seq::<u8>::empty(), fts.len(), body + extra, 32);
    assert(u32_outcome(bytes, 0) == (Ok::<u32, LebError>(fts.len() as u32), head.len() as int));
    lemma_func_types_repeat(bytes, head, fts, extra, base);
}

/// A function type must start with the form byte `0x60`: any other byte
/// there is refused with `InvalidFuncType` at that byte.
pub proof fn lemma_func_type_form_byte(bytes: Seq<u8>, pos: int, base: int)
    ensures
        0 <= pos < bytes.len() && bytes[pos] != 0x60 ==> func_type_at(bytes, pos, base) == Err::<
            (SpecFuncType, int),
            ParseError,
        >(error_at(base + pos, ParseErrorKind::InvalidFuncType)),
        func_type_at(bytes, pos, base) is Ok ==> bytes[pos] == 0x60,
{
}

} // verus!
