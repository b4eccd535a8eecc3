//! Decoding of the function section: the type index of every function the
//! module defines itself.
//!
//! This section only says which signature each local function has, in
//! declaration order; the code that goes with it lives in the code section
//! and is matched up positionally, function by function.
use crate::leb::{
    encode_unsigned,
    lemma_u32_outcome_advances,
    lemma_unsigned_round_trip,
    read_u32,
    u32_outcome,
    LebError,
};
use vstd::arithmetic::power2::{lemma2_to64, pow2};
use crate::sections::{
    index_at,
    index_item,
    lemma_index_item_shifts,
    lemma_vector_section_shift,
    shifted,
    lemma_repeat_error_persists,
    read_index,
    repeat,
    vector_at,
    vector_section,
    ParseError,
    ParseErrorKind,
};
use vstd::prelude::*;

verus! {

/// The type indices a function section payload holds, or why it is
/// malformed.
#[verifier::opaque]
pub open spec fn function_section(bytes: Seq<u8>, base: int) -> Result<Seq<u32>, ParseError> {
    vector_section(index_item(bytes, base), bytes, base)
}

/// Decodes the payload of a function section (id 3) into the type index of
/// each local function, in the order they appear. `base` is the offset of
/// `bytes` within the whole module, so a `ParseError` reports a position the
/// caller can find in the whole module rather than one relative to the
/// section payload.
pub fn decode_function_section(bytes: &[u8], base: usize) -> (res: Result<Vec<u32>, ParseError>)
    requires
        base + bytes@.len() <= usize::MAX,
    ensures
        match function_section(bytes@, base as int) {
            Ok(ts) => res matches Ok(v) && v@ == ts,
            Err(e) => res matches Err(e2) && e2 == e,
        },
        res matches Err(e) ==> base <= e.offset <= base + bytes@.len(),
{
    reveal(function_section);
    let mut pos: usize = 0;
    let count = match read_u32(bytes, &mut pos) {
        Ok(count) => count,
        Err(_) => return Err(ParseError { offset: base, kind: ParseErrorKind::Leb }),
    };
    proof {
        lemma_u32_outcome_advances(bytes@, 0);
    }
    let ghost first = pos;
    let ghost item = index_item(bytes@, base as int);
    let mut type_indices: Vec<u32> = Vec::new();
    let mut i: u32 = 0;
    while i < count
        invariant
            first <= pos <= bytes@.len(),
            base + bytes@.len() <= usize::MAX,
            i <= count,
            item == index_item(bytes@, base as int),
            vector_at(item, bytes@, 0, base as int) == repeat(item, first as int, count as nat),
            repeat(item, first as int, i as nat) == Ok::<(Seq<u32>, int), ParseError>(
                (type_indices@, pos as int),
            ),
        decreases count - i,
    {
        let ghost before = type_indices@;
        let ghost at = pos;
        assert(item(at as int) == index_at(bytes@, at as int, base as int));
        match read_index(bytes, &mut pos, base) {
            Ok(index) => {
                type_indices.push(index);
                assert(type_indices@ == before.push(index));
            },
            Err(e) => {
                proof {
                    assert(repeat(item, first as int, (i + 1) as nat) == Err::<
                        (Seq<u32>, int),
                        ParseError,
                    >(e));
                    reveal(function_section);
                    lemma_repeat_error_persists(item, first as int, (i + 1) as nat, count as nat);
                }
                return Err(e);
            },
        }
        i = i + 1;
    }
    if pos != bytes.len() {
        return Err(ParseError { offset: base + pos, kind: ParseErrorKind::SectionSizeMismatch });
    }
    Ok(type_indices)
}

/// Decoding a function section payload that sits `base` bytes into the
/// module gives what decoding it as if it sat at offset 0 gives, with every
/// error offset moved by `base`.
pub proof fn lemma_function_section_offsets(bytes: Seq<u8>, base: int)
    requires
        0 <= base,
        base + bytes.len() <= usize::MAX,
    ensures
        function_section(bytes, base) == shifted(function_section(bytes, 0), base),
{
    reveal(function_section);
    lemma_index_item_shifts(bytes, base);
    lemma_vector_section_shift(index_item(bytes, base), index_item(bytes, 0), bytes, base);
}

/// One unsigned LEB128 value after another, as `write_unsigned` writes them.
pub open spec fn encode_all(xs: Seq<u32>) -> Seq<u8>
    decreases xs.len(),
{
    if xs.len() == 0 {
        Seq::empty()
    } else {
        encode_all(xs.drop_last()) + encode_unsigned(xs.last() as nat)
    }
}

proof fn lemma_encode_all_prefix(xs: Seq<u32>, k: int)
    requires
        0 <= k <= xs.len(),
    ensures
        encode_all(xs.take(k)).len() <= encode_all(xs).len(),
        encode_all(xs).take(encode_all(xs.take(k)).len() as int) == encode_all(xs.take(k)),
    decreases xs.len(),
{
    if k == xs.len() {
        assert(xs.take(k) =~= xs);
        assert(encode_all(xs).take(encode_all(xs).len() as int) =~= encode_all(xs));
    } else {
        let rest = xs.drop_last();
        assert(rest.take(k) =~= xs.take(k));
        lemma_encode_all_prefix(rest, k);
        let a = encode_all(xs.take(k));
        assert(encode_all(xs) == encode_all(rest) + encode_unsigned(xs.last() as nat));
        assert(encode_all(xs).take(a.len() as int) =~= encode_all(rest).take(a.len() as int));
    }
}

proof fn lemma_indices_read_back(xs: Seq<u32>, base: int, k: int)
    requires
        0 <= k <= xs.len(),
    ensures
        ({
            let head = encode_unsigned(xs.len());
            let bytes = head + encode_all(xs);
            repeat(index_item(bytes, base), head.len() as int, k as nat) == Ok::<
                (Seq<u32>, int),
                ParseError,
            >((xs.take(k), (head.len() + encode_all(xs.take(k)).len()) as int))
        }),
    decreases k,
{
    let head = encode_unsigned(xs.len());
    let bytes = head + encode_all(xs);
    let item = index_item(bytes, base);
    let p0 = head.len() as int;
    if k == 0 {
        assert(xs.take(0) =~= Seq::<u32>::empty());
    } else {
        let j = k - 1;
        lemma_indices_read_back(xs, base, j);
        lemma2_to64();
        let a = encode_all(xs.take(j));
        let e = encode_unsigned(xs[j] as nat);
        assert(xs.take(k).drop_last() =~= xs.take(j));
        assert(encode_all(xs.take(k)) == a + e);
        lemma_encode_all_prefix(xs, k);
        let p = p0 + a.len();
        let whole = encode_all(xs);
        assert(whole.take((a + e).len() as int) == a + e);
        assert forall|i: int| 0 <= i < e.len() implies bytes[p + i] == e[i] by {
            assert(bytes[p + i] == whole[a.len() + i]);
            assert(whole.take((a + e).len() as int)[a.len() + i] == (a + e)[a.len() + i]);
        }
        let before = bytes.take(p);
        let after = bytes.skip(p + e.len());
        assert(before + e + after =~= bytes);
        lemma_unsigned_round_trip(before, xs[j] as nat, after, 32);
        assert(item(p) == index_at(bytes, p, base));
        assert(xs.take(j).push(xs[j]) =~= xs.take(k));
    }
}

/// A function section written as a count and then each type index, every
/// one in unsigned LEB128, decodes back to the same type indices, wherever
/// in the module it sits.
pub proof fn lemma_function_section_round_trip(xs: Seq<u32>, base: int)
    requires
        xs.len() <= u32::MAX,
    ensures
        function_section(encode_unsigned(xs.len()) + encode_all(xs), base) == Ok::<Seq<u32>, ParseError>(
            xs,
        ),
{
    reveal(function_section);
    lemma2_to64();
    let n = xs.len();
    let head = encode_unsigned(n);
    let bytes = head + encode_all(xs);
    assert(Seq::<u8>::empty() + head + encode_all(xs) =~= bytes);
    lemma_unsigned_round_trip(Seq::<u8>::empty(), n, encode_all(xs), 32);
    assert(u32_outcome(bytes, 0) == (Ok::<u32, LebError>(n as u32), head.len() as int));
    lemma_indices_read_back(xs, base, n as int);
    assert(xs.take(n as int) =~= xs);
}

} // verus!
