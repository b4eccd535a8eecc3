//! LEB128 decoding, the variable-length integer encoding WebAssembly uses for
//! every index, size and immediate.
//!
//! Both readers are width-aware: an encoding of an `N`-bit integer may carry
//! no more than `ceil(N/7)` bytes, and the unused bits of its final byte must
//! be a correct extension of the value. The model below states this over the
//! bytes directly: a value is the group of bytes up to and including the first
//! one whose continuation bit is clear, read as little-endian base 128.
use vstd::arithmetic::power2::*;
use vstd::prelude::*;

verus! {

/// Why a LEB128 value could not be decoded.
#[derive(Debug, Clone, Copy, PartialEq, Eq)]
pub enum LebError {
    /// The input ended while the continuation bit was still set.
    UnexpectedEof,
    /// The encoded value does not fit the requested width, or the encoding is
    /// longer than the width allows.
    Overflow,
}

impl LebError {
    /// A human-readable description of the error.
    pub fn to_string(&self) -> (s: String)
        ensures
            s@ == (match self {
                LebError::UnexpectedEof => "truncated LEB128 value"@,
                LebError::Overflow => "LEB128 value too large for its type"@,
            }),
    {
        match self {
            LebError::UnexpectedEof => "truncated LEB128 value".to_owned(),
            LebError::Overflow => "LEB128 value too large for its type".to_owned(),
        }
    }
}

/// The longest encoding allowed for a `bits`-bit integer: `ceil(bits / 7)`
/// bytes.
pub open spec fn max_len(bits: nat) -> nat {
    ((bits + 6) / 7) as nat
}

/// The 7 payload bits of every byte of `s`, least significant group first.
pub open spec fn payload_value(s: Seq<u8>) -> nat
    decreases s.len(),
{
    if s.len() == 0 {
        0
    } else {
        payload_value(s.drop_last()) + (s.last() % 128) as nat * pow2((7 * (s.len() - 1)) as nat)
    }
}

/// `v`, a `width`-bit pattern, read as a two's complement number.
pub open spec fn twos_complement(v: nat, width: nat) -> int {
    if width > 0 && v >= pow2((width - 1) as nat) {
        v - pow2(width)
    } else {
        v as int
    }
}

/// Where the group starting at `pos` ends (exclusive): just past the first
/// byte whose continuation bit is clear, looking at no more than `limit`
/// bytes. `None` when no such byte lies within reach.
pub open spec fn group_end(bytes: Seq<u8>, pos: int, limit: nat) -> Option<int>
    decreases limit,
{
    if limit == 0 || pos < 0 || pos >= bytes.len() {
        None
    } else if bytes[pos] < 0x80 {
        Some(pos + 1)
    } else {
        group_end(bytes, pos + 1, (limit - 1) as nat)
    }
}

/// The group of at most `max_len(bits)` bytes starting at `pos`, as its raw
/// payload value, together with the position a reader is left at. A group
/// that does not end within `max_len(bits)` bytes is an overflow when those
/// bytes are all present, and a truncation otherwise.
pub open spec fn group_scan(bytes: Seq<u8>, pos: int, bits: nat) -> (Result<nat, LebError>, int) {
    match group_end(bytes, pos, max_len(bits)) {
        Some(end) => (Ok(payload_value(bytes.subrange(pos, end))), end),
        None => if pos + max_len(bits) <= bytes.len() {
            (Err(LebError::Overflow), pos + max_len(bits))
        } else {
            (Err(LebError::UnexpectedEof), if pos < bytes.len() { bytes.len() as int } else { pos })
        },
    }
}

/// What reading an unsigned `bits`-bit value at `pos` gives, and where it
/// leaves the reader.
pub open spec fn unsigned_outcome(bytes: Seq<u8>, pos: int, bits: nat) -> (Result<u64, LebError>, int) {
    let (r, end) = group_scan(bytes, pos, bits);
    (
        match r {
            Ok(v) => if v < pow2(bits) {
                Ok(v as u64)
            } else {
                Err(LebError::Overflow)
            },
            Err(e) => Err(e),
        },
        end,
    )
}

/// What reading a signed `bits`-bit value at `pos` gives, and where it leaves
/// the reader: the group is a two's complement number as wide as its payload,
/// and must fit in `bits` bits.
pub open spec fn signed_outcome(bytes: Seq<u8>, pos: int, bits: nat) -> (Result<i64, LebError>, int) {
    let (r, end) = group_scan(bytes, pos, bits);
    (
        match r {
            Ok(v) => {
                let s = twos_complement(v, (7 * (end - pos)) as nat);
                if -pow2((bits - 1) as nat) <= s < pow2((bits - 1) as nat) {
                    Ok(s as i64)
                } else {
                    Err(LebError::Overflow)
                }
            },
            Err(e) => Err(e),
        },
        end,
    )
}

/// The shortest unsigned LEB128 encoding of `v`.
pub open spec fn encode_unsigned(v: nat) -> Seq<u8>
    decreases v,
{
    if v < 128 {
        seq![v as u8]
    } else {
        seq![(v % 128 + 128) as u8] + encode_unsigned(v / 128)
    }
}

/// The shortest signed LEB128 encoding of `v`.
pub open spec fn encode_signed(v: int) -> Seq<u8>
    decreases (if v >= 0 { v } else { -v - 1 }),
{
    let byte = v % 128;
    let rest = v / 128;
    if (rest == 0 && byte < 64) || (rest == -1 && byte >= 64) {
        seq![byte as u8]
    } else {
        seq![(byte + 128) as u8] + encode_signed(rest)
    }
}

proof fn lemma_pow2_7(k: nat)
    ensures
        pow2(7 * (k + 1)) == 128 * pow2(7 * k),
        pow2(7 * k) > 0,
{
    lemma_pow2_adds(7, 7 * k);
    lemma2_to64();
    lemma_pow2_pos(7 * k);
    assert(7 * (k + 1) == 7 + 7 * k);
}

proof fn lemma_payload_push(s: Seq<u8>, b: u8)
    ensures
        payload_value(s.push(b)) == payload_value(s) + (b % 128) as nat * pow2((7 * s.len()) as nat),
{
    assert(s.push(b).drop_last() =~= s);
}

proof fn lemma_payload_bound(s: Seq<u8>)
    ensures
        payload_value(s) < pow2((7 * s.len()) as nat),
    decreases s.len(),
{
    if s.len() == 0 {
        lemma2_to64();
    } else {
        let k = (s.len() - 1) as nat;
        lemma_payload_bound(s.drop_last());
        lemma_pow2_7(k);
        let b = (s.last() % 128) as nat;
        let p = pow2(7 * k);
        assert(b * p <= 127 * p) by (nonlinear_arith)
            requires
                b <= 127,
        ;
    }
}

proof fn lemma_payload_prepend(b: u8, s: Seq<u8>)
    ensures
        payload_value(seq![b] + s) == (b % 128) as nat + 128 * payload_value(s),
    decreases s.len(),
{
    lemma2_to64();
    if s.len() == 0 {
        assert((seq![b] + s).drop_last() =~= Seq::<u8>::empty());
        assert((seq![b] + s).last() == b);
        assert(payload_value(Seq::<u8>::empty()) == 0);
        assert(payload_value(seq![b] + s) == payload_value(Seq::<u8>::empty()) + (b % 128) as nat * pow2(0));
    } else {
        let t = s.drop_last();
        lemma_payload_prepend(b, t);
        let whole = seq![b] + s;
        assert(whole.drop_last() =~= seq![b] + t);
        assert(whole.last() == s.last());
        let k = t.len();
        lemma_pow2_7(k);
        let c = (s.last() % 128) as nat;
        let p = pow2(7 * k);
        assert(payload_value(whole) == payload_value(seq![b] + t) + c * pow2(7 * (k + 1)));
        assert(payload_value(s) == payload_value(t) + c * p);
        assert(c * (128 * p) == 128 * (c * p)) by (nonlinear_arith);
        assert(pow2(7 * (k + 1)) == 128 * p);
        assert(c * pow2(7 * (k + 1)) == 128 * (c * p));
        assert(payload_value(seq![b] + t) == (b % 128) as nat + 128 * payload_value(t));
    }
}

proof fn lemma_group_end_bound(bytes: Seq<u8>, pos: int, limit: nat)
    ensures
        group_end(bytes, pos, limit) matches Some(end) ==> pos < end <= pos + limit && end <= bytes.len(),
    decreases limit,
{
    if limit > 0 && 0 <= pos < bytes.len() && bytes[pos] >= 0x80 {
        lemma_group_end_bound(bytes, pos + 1, (limit - 1) as nat);
    }
}

/// Where a group ends when its first `k` bytes carry the continuation bit and
/// the next one does not.
proof fn lemma_group_end_at(bytes: Seq<u8>, pos: int, k: nat, limit: nat)
    requires
        0 <= pos,
        pos + k < bytes.len(),
        k < limit,
        forall|i: int| pos <= i < pos + k ==> bytes[i] >= 0x80,
        bytes[pos + k] < 0x80,
    ensures
        group_end(bytes, pos, limit) == Some(pos + k + 1),
    decreases k,
{
    if k > 0 {
        lemma_group_end_at(bytes, pos + 1, (k - 1) as nat, (limit - 1) as nat);
    }
}

/// A raw group payload as the machine integer that holds it.
spec fn narrow(r: Result<nat, LebError>) -> Result<u128, LebError> {
    match r {
        Ok(v) => Ok(v as u128),
        Err(e) => Err(e),
    }
}

/// Reads the raw payload of the group at `pos`, advancing `pos` as
/// `group_scan` says.
fn scan_group(bytes: &[u8], pos: &mut usize, bits: u32) -> (res: Result<u128, LebError>)
    requires
        1 <= bits <= 64,
    ensures
        *final(pos) as int == group_scan(bytes@, *old(pos) as int, bits as nat).1,
        res == narrow(group_scan(bytes@, *old(pos) as int, bits as nat).0),
        res is Ok ==> *final(pos) - *old(pos) <= max_len(bits as nat),
{
    if *pos >= bytes.len() {
        return Err(LebError::UnexpectedEof);
    }
    let start = *pos;
    let mut p = *pos;
    let max: usize = ((bits + 6) / 7) as usize;
    let mut acc: u128 = 0;
    let mut scale: u128 = 1;
    let mut count: usize = 0;
    proof {
        assert(bytes@.subrange(start as int, p as int) =~= Seq::<u8>::empty());
        lemma2_to64();
    }
    loop
        invariant
            1 <= bits <= 64,
            max == max_len(bits as nat),
            1 <= max <= 10,
            start <= p,
            count == p - start,
            count < max,
            start == *old(pos),
            start < bytes@.len(),
            p <= bytes@.len(),
            forall|i: int| start <= i < p ==> bytes@[i] >= 0x80,
            acc == payload_value(bytes@.subrange(start as int, p as int)),
            scale == pow2((7 * count) as nat),
            group_end(bytes@, start as int, max as nat) == group_end(
                bytes@,
                p as int,
                (max - count) as nat,
            ),
        decreases max - count,
    {
        if p >= bytes.len() {
            *pos = p;
            return Err(LebError::UnexpectedEof);
        }
        let byte = bytes[p];
        proof {
            let old_sub = bytes@.subrange(start as int, p as int);
            assert(bytes@.subrange(start as int, p + 1) =~= old_sub.push(byte));
            lemma_payload_push(old_sub, byte);
            lemma_payload_bound(old_sub);
            lemma_pow2_7(count as nat);
            assert(pow2((7 * count) as nat) <= pow2(63)) by {
                if count < 9 {
                    lemma_pow2_strictly_increases((7 * count) as nat, 63);
                }
            }
            lemma2_to64();
            lemma2_to64_rest();
            let b = (byte % 128) as nat;
            assert(acc + b * scale <= 128 * scale) by (nonlinear_arith)
                requires
                    acc < scale,
                    b <= 127,
            ;
            assert(128 * scale <= 128 * pow2(63));
        }
        let low = (byte % 128) as u128;
        assert(low * scale <= 127 * scale) by (nonlinear_arith)
            requires
                low <= 127,
        ;
        p = p + 1;
        count = count + 1;
        acc = acc + low * scale;
        if byte < 0x80 {
            *pos = p;
            return Ok(acc);
        }
        if count == max {
            *pos = p;
            return Err(LebError::Overflow);
        }
        scale = scale * 128;
    }
}

/// `2^e` as a machine integer.
fn pow2_u128(e: u32) -> (r: u128)
    requires
        e <= 70,
    ensures
        r == pow2(e as nat),
{
    let mut r: u128 = 1;
    let mut i: u32 = 0;
    proof {
        lemma2_to64();
    }
    while i < e
        invariant
            i <= e <= 70,
            r == pow2(i as nat),
        decreases e - i,
    {
        proof {
            lemma_pow2_unfold((i + 1) as nat);
            lemma_pow2_bound_70(i as nat);
        }
        r = r * 2;
        i = i + 1;
    }
    r
}

proof fn lemma_pow2_bound_70(e: nat)
    requires
        e < 70,
    ensures
        pow2(e) < pow2(70),
        pow2(70) == 0x400000000000000000,
{
    lemma_pow2_strictly_increases(e, 70);
    lemma2_to64();
    lemma_pow2_adds(64, 6);
}

/// Decodes an unsigned LEB128 value of at most `bits` bits.
///
/// `pos` is advanced past the value on success and left pointing at the byte
/// after the last one consumed on failure.
pub fn read_unsigned(bytes: &[u8], pos: &mut usize, bits: u32) -> (res: Result<u64, LebError>)
    requires
        1 <= bits <= 64,
    ensures
        (res, *final(pos) as int) == unsigned_outcome(bytes@, *old(pos) as int, bits as nat),
        res matches Ok(v) ==> {
            &&& *old(pos) < *final(pos) <= *old(pos) + max_len(bits as nat)
            &&& v < pow2(bits as nat)
        },
{
    let ghost start = *pos;
    let r = scan_group(bytes, pos, bits);
    proof {
        lemma_group_end_bound(bytes@, start as int, max_len(bits as nat));
        lemma2_to64();
        if bits < 64 {
            lemma_pow2_strictly_increases(bits as nat, 64);
        }
    }
    match r {
        Ok(v) => {
            proof {
                let sub = bytes@.subrange(start as int, *pos as int);
                lemma_payload_bound(sub);
                if sub.len() < 10 {
                    lemma_pow2_bound_70((7 * sub.len()) as nat);
                } else {
                    lemma_pow2_bound_70(0);
                }
            }
            let limit = pow2_u128(bits);
            if v < limit {
                Ok(v as u64)
            } else {
                Err(LebError::Overflow)
            }
        },
        Err(e) => Err(e),
    }
}

/// Decodes a signed LEB128 value of at most `bits` bits, sign extended to
/// `i64`.
pub fn read_signed(bytes: &[u8], pos: &mut usize, bits: u32) -> (res: Result<i64, LebError>)
    requires
        1 <= bits <= 64,
    ensures
        (res, *final(pos) as int) == signed_outcome(bytes@, *old(pos) as int, bits as nat),
        res matches Ok(v) ==> {
            &&& *old(pos) < *final(pos) <= *old(pos) + max_len(bits as nat)
            &&& -pow2((bits - 1) as nat) <= v < pow2((bits - 1) as nat)
        },
{
    let start = *pos;
    let r = scan_group(bytes, pos, bits);
    proof {
        lemma_group_end_bound(bytes@, start as int, max_len(bits as nat));
    }
    match r {
        Ok(v) => {
            let n = (*pos - start) as u32;
            let width = 7 * n;
            proof {
                let sub = bytes@.subrange(start as int, *pos as int);
                lemma_payload_bound(sub);
                lemma_pow2_bound_70((width - 1) as nat);
                if width < 70 {
                    lemma_pow2_bound_70(width as nat);
                }
                lemma2_to64_rest();
                if bits < 64 {
                    lemma_pow2_strictly_increases((bits - 1) as nat, 63);
                }
            }
            let signed: i128 = if v >= pow2_u128(width - 1) {
                v as i128 - pow2_u128(width) as i128
            } else {
                v as i128
            };
            let half = pow2_u128(bits - 1) as i128;
            if -half <= signed && signed < half {
                Ok(signed as i64)
            } else {
                Err(LebError::Overflow)
            }
        },
        Err(e) => Err(e),
    }
}

/// What `read_u32` gives at `pos`, and where it leaves the reader.
pub open spec fn u32_outcome(bytes: Seq<u8>, pos: int) -> (Result<u32, LebError>, int) {
    let (r, end) = unsigned_outcome(bytes, pos, 32);
    (
        match r {
            Ok(v) => Ok(v as u32),
            Err(e) => Err(e),
        },
        end,
    )
}

/// What `read_i32` gives at `pos`, and where it leaves the reader.
pub open spec fn i32_outcome(bytes: Seq<u8>, pos: int) -> (Result<i32, LebError>, int) {
    let (r, end) = signed_outcome(bytes, pos, 32);
    (
        match r {
            Ok(v) => Ok(v as i32),
            Err(e) => Err(e),
        },
        end,
    )
}

/// Decodes a `u32` index or size.
pub fn read_u32(bytes: &[u8], pos: &mut usize) -> (res: Result<u32, LebError>)
    ensures
        (res, *final(pos) as int) == u32_outcome(bytes@, *old(pos) as int),
        res matches Ok(v) ==> *old(pos) < *final(pos) <= *old(pos) + 5,
{
    match read_unsigned(bytes, pos, 32) {
        Ok(v) => {
            proof {
                lemma2_to64();
            }
            Ok(v as u32)
        },
        Err(e) => Err(e),
    }
}

/// Decodes a `u64`.
pub fn read_u64(bytes: &[u8], pos: &mut usize) -> (res: Result<u64, LebError>)
    ensures
        (res, *final(pos) as int) == unsigned_outcome(bytes@, *old(pos) as int, 64),
        res matches Ok(v) ==> *old(pos) < *final(pos) <= *old(pos) + 10,
{
    read_unsigned(bytes, pos, 64)
}

/// Decodes an `i32` immediate, such as the operand of `i32.const`.
pub fn read_i32(bytes: &[u8], pos: &mut usize) -> (res: Result<i32, LebError>)
    ensures
        (res, *final(pos) as int) == i32_outcome(bytes@, *old(pos) as int),
        res matches Ok(v) ==> *old(pos) < *final(pos) <= *old(pos) + 5,
{
    match read_signed(bytes, pos, 32) {
        Ok(v) => {
            proof {
                lemma2_to64();
            }
            Ok(v as i32)
        },
        Err(e) => Err(e),
    }
}

/// Decodes an `i64` immediate.
pub fn read_i64(bytes: &[u8], pos: &mut usize) -> (res: Result<i64, LebError>)
    ensures
        (res, *final(pos) as int) == signed_outcome(bytes@, *old(pos) as int, 64),
        res matches Ok(v) ==> *old(pos) < *final(pos) <= *old(pos) + 10,
{
    read_signed(bytes, pos, 64)
}

/// Encodes an unsigned value, for building test fixtures and for round trip
/// tests.
pub fn write_unsigned(value: u64, out: &mut Vec<u8>)
    ensures
        final(out)@ == old(out)@ + encode_unsigned(value as nat),
{
    let mut v = value;
    loop
        invariant
            out@ + encode_unsigned(v as nat) == old(out)@ + encode_unsigned(value as nat),
        decreases v,
    {
        let byte = (v % 128) as u8;
        let ghost before = out@;
        let ghost old_v = v;
        v = v / 128;
        if v == 0 {
            out.push(byte);
            assert(out@ =~= before + encode_unsigned(old_v as nat));
            return ;
        }
        out.push(byte + 128);
        assert(out@ + encode_unsigned(v as nat) =~= before + encode_unsigned(old_v as nat));
    }
}

/// Encodes a signed value.
pub fn write_signed(value: i64, out: &mut Vec<u8>)
    ensures
        final(out)@ == old(out)@ + encode_signed(value as int),
{
    let mut v = value;
    loop
        invariant
            out@ + encode_signed(v as int) == old(out)@ + encode_signed(value as int),
        decreases (if v >= 0 { v as int } else { -v - 1 }),
    {
        let byte: i64 = ((v % 128) + 128) % 128;
        let rest: i64 = (v - byte) / 128;
        let ghost before = out@;
        let ghost old_v = v;
        assert(byte == v % 128 && rest == v / 128);
        if (rest == 0 && byte < 64) || (rest == -1 && byte >= 64) {
            out.push(byte as u8);
            assert(out@ =~= before + encode_signed(old_v as int));
            return ;
        }
        out.push((byte + 128) as u8);
        v = rest;
        assert(out@ + encode_signed(v as int) =~= before + encode_signed(old_v as int));
    }
}

proof fn lemma_pow2_le(a: nat, b: nat)
    requires
        a <= b,
    ensures
        pow2(a) <= pow2(b),
{
    if a < b {
        lemma_pow2_strictly_increases(a, b);
    }
}

proof fn lemma_pow2_plus_7(a: nat)
    ensures
        pow2(a + 7) == 128 * pow2(a),
{
    lemma_pow2_adds(a, 7);
    lemma2_to64();
}

proof fn lemma_encode_unsigned_shape(v: nat)
    ensures
        ({
            let e = encode_unsigned(v);
            &&& e.len() >= 1
            &&& forall|i: int| 0 <= i < e.len() - 1 ==> e[i] >= 0x80
            &&& e[e.len() - 1] < 0x80
            &&& payload_value(e) == v
            &&& e.len() > 1 ==> pow2((7 * (e.len() - 1)) as nat) <= v
        }),
    decreases v,
{
    lemma2_to64();
    let e = encode_unsigned(v);
    if v < 128 {
        assert(e.drop_last() =~= Seq::<u8>::empty());
        assert(e.len() == 1);
        assert(payload_value(Seq::<u8>::empty()) == 0);
        assert(e.last() == v as u8);
        assert(payload_value(e) == payload_value(Seq::<u8>::empty()) + (e.last() % 128) as nat * pow2(0));
    } else {
        let r = encode_unsigned(v / 128);
        let b = (v % 128 + 128) as u8;
        lemma_encode_unsigned_shape(v / 128);
        lemma_payload_prepend(b, r);
        assert(e == seq![b] + r);
        assert forall|i: int| 0 <= i < e.len() - 1 implies e[i] >= 0x80 by {
            if i > 0 {
                assert(e[i] == r[i - 1]);
            }
        }
        assert(e[e.len() - 1] == r[r.len() - 1]);
        if r.len() > 1 {
            lemma_pow2_plus_7((7 * (r.len() - 1)) as nat);
            assert((7 * (r.len() - 1)) as nat + 7 == (7 * (e.len() - 1)) as nat);
        }
        assert(b % 128 == v % 128);
        assert(payload_value(e) == v);
        assert(e.len() > 1 ==> pow2((7 * (e.len() - 1)) as nat) <= v);
    }
}

proof fn lemma_encode_signed_shape(v: int)
    ensures
        ({
            let e = encode_signed(v);
            let n = e.len();
            &&& n >= 1
            &&& forall|i: int| 0 <= i < n - 1 ==> e[i] >= 0x80
            &&& e[n - 1] < 0x80
            &&& payload_value(e) == (if v < 0 { v + pow2((7 * n) as nat) } else { v })
            &&& -pow2((7 * n - 1) as nat) <= v < pow2((7 * n - 1) as nat)
            &&& n > 1 ==> !(-pow2((7 * (n - 1) - 1) as nat) <= v < pow2((7 * (n - 1) - 1) as nat))
        }),
    decreases (if v >= 0 { v } else { -v - 1 }),
{
    lemma2_to64();
    let e = encode_signed(v);
    let byte = v % 128;
    let rest = v / 128;
    if (rest == 0 && byte < 64) || (rest == -1 && byte >= 64) {
        assert(e.drop_last() =~= Seq::<u8>::empty());
        assert(payload_value(Seq::<u8>::empty()) == 0);
        assert(e.last() == byte as u8);
        assert(payload_value(e) == payload_value(Seq::<u8>::empty()) + (e.last() % 128) as nat * pow2(0));
        assert(pow2((7 * 1 - 1) as nat) == 64);
    } else {
        let r = encode_signed(rest);
        let b = (byte + 128) as u8;
        lemma_encode_signed_shape(rest);
        lemma_payload_prepend(b, r);
        assert(e == seq![b] + r);
        let m = r.len();
        assert forall|i: int| 0 <= i < e.len() - 1 implies e[i] >= 0x80 by {
            if i > 0 {
                assert(e[i] == r[i - 1]);
            }
        }
        assert(e[e.len() - 1] == r[m - 1]);
        lemma_pow2_plus_7((7 * m) as nat);
        lemma_pow2_plus_7((7 * m - 1) as nat);
        assert((7 * m) as nat + 7 == (7 * e.len()) as nat);
        assert((7 * m - 1) as nat + 7 == (7 * e.len() - 1) as nat);
        if m > 1 {
            lemma_pow2_plus_7((7 * (m - 1) - 1) as nat);
            assert((7 * (m - 1) - 1) as nat + 7 == (7 * m - 1) as nat);
        } else {
            assert((7 * m - 1) as nat == 6);
        }
    }
}

/// Reading an unsigned value back where its encoding was written gives the
/// value and leaves the reader just past the encoding, whatever precedes or
/// follows it, for every value that fits the width.
pub proof fn lemma_unsigned_round_trip(prefix: Seq<u8>, v: nat, suffix: Seq<u8>, bits: nat)
    requires
        1 <= bits <= 64,
        v < pow2(bits),
    ensures
        unsigned_outcome(prefix + encode_unsigned(v) + suffix, prefix.len() as int, bits) == (
        Ok::<u64, LebError>(v as u64), (prefix.len() + encode_unsigned(v).len()) as int),
{
    let e = encode_unsigned(v);
    let whole = prefix + e + suffix;
    let p = prefix.len() as int;
    let n = e.len();
    lemma_encode_unsigned_shape(v);
    if n > 1 && bits <= 7 * (n - 1) {
        lemma_pow2_le(bits, (7 * (n - 1)) as nat);
    }
    assert(n <= max_len(bits));
    assert forall|i: int| p <= i < p + (n - 1) implies whole[i] >= 0x80 by {
        assert(whole[i] == e[i - p]);
    }
    assert(whole[p + n - 1] == e[n - 1]);
    lemma_group_end_at(whole, p, (n - 1) as nat, max_len(bits));
    assert(whole.subrange(p, p + n) =~= e);
    lemma2_to64();
    lemma_pow2_le(bits, 64);
}

/// Reading a signed value back where its encoding was written gives the value
/// and leaves the reader just past the encoding, whatever precedes or follows
/// it, for every value that fits the width.
pub proof fn lemma_signed_round_trip(prefix: Seq<u8>, v: int, suffix: Seq<u8>, bits: nat)
    requires
        1 <= bits <= 64,
        -pow2((bits - 1) as nat) <= v < pow2((bits - 1) as nat),
    ensures
        signed_outcome(prefix + encode_signed(v) + suffix, prefix.len() as int, bits) == (
        Ok::<i64, LebError>(v as i64), (prefix.len() + encode_signed(v).len()) as int),
{
    let e = encode_signed(v);
    let whole = prefix + e + suffix;
    let p = prefix.len() as int;
    let n = e.len();
    lemma_encode_signed_shape(v);
    if n > 1 && bits <= 7 * (n - 1) {
        lemma_pow2_le((bits - 1) as nat, (7 * (n - 1) - 1) as nat);
    }
    assert(n <= max_len(bits));
    assert forall|i: int| p <= i < p + (n - 1) implies whole[i] >= 0x80 by {
        assert(whole[i] == e[i - p]);
    }
    assert(whole[p + n - 1] == e[n - 1]);
    lemma_group_end_at(whole, p, (n - 1) as nat, max_len(bits));
    assert(whole.subrange(p, p + n) =~= e);
    lemma_pow2_unfold((7 * n) as nat);
    assert(((7 * n) as nat - 1) as nat == (7 * n - 1) as nat);
    lemma2_to64_rest();
    lemma_pow2_le((bits - 1) as nat, 63);
}

/// A `u32` that reads successfully takes between one and five bytes, all of
/// them inside the input.
pub proof fn lemma_u32_outcome_advances(bytes: Seq<u8>, pos: int)
    ensures
        u32_outcome(bytes, pos).0 is Ok ==> {
            &&& pos < u32_outcome(bytes, pos).1 <= pos + 5
            &&& u32_outcome(bytes, pos).1 <= bytes.len()
        },
{
    lemma_group_end_bound(bytes, pos, 5);
}

proof fn lemma_group_end_extend(bytes: Seq<u8>, extra: Seq<u8>, pos: int, limit: nat)
    requires
        group_end(bytes, pos, limit) is Some,
    ensures
        group_end(bytes + extra, pos, limit) == group_end(bytes, pos, limit),
    decreases limit,
{
    if limit > 0 && 0 <= pos < bytes.len() && bytes[pos] >= 0x80 {
        lemma_group_end_extend(bytes, extra, pos + 1, (limit - 1) as nat);
    }
}

/// A value that reads successfully reads the same, leaving the reader at the
/// same place, whatever bytes are appended after the input: a reader never
/// looks past the end of the value it returns.
pub proof fn lemma_reading_ignores_what_follows(bytes: Seq<u8>, extra: Seq<u8>, pos: int, bits: nat)
    requires
        1 <= bits <= 64,
    ensures
        unsigned_outcome(bytes, pos, bits).0 is Ok ==> unsigned_outcome(bytes + extra, pos, bits)
            == unsigned_outcome(bytes, pos, bits),
        signed_outcome(bytes, pos, bits).0 is Ok ==> signed_outcome(bytes + extra, pos, bits)
            == signed_outcome(bytes, pos, bits),
{
    if let Some(end) = group_end(bytes, pos, max_len(bits)) {
        lemma_group_end_extend(bytes, extra, pos, max_len(bits));
        lemma_group_end_bound(bytes, pos, max_len(bits));
        assert((bytes + extra).subrange(pos, end) =~= bytes.subrange(pos, end));
    }
}

proof fn lemma_group_end_agree(b1: Seq<u8>, p1: int, b2: Seq<u8>, p2: int, limit: nat)
    requires
        0 <= p1,
        0 <= p2,
        group_end(b1, p1, limit) is Some,
        p2 + (group_end(b1, p1, limit).unwrap() - p1) <= b2.len(),
        b2.subrange(p2, p2 + (group_end(b1, p1, limit).unwrap() - p1)) == b1.subrange(
            p1,
            group_end(b1, p1, limit).unwrap(),
        ),
    ensures
        group_end(b2, p2, limit) == Some(group_end(b1, p1, limit).unwrap() - p1 + p2),
    decreases limit,
{
    let e = group_end(b1, p1, limit).unwrap();
    lemma_group_end_bound(b1, p1, limit);
    let n = e - p1;
    assert(b2[p2] == b2.subrange(p2, p2 + n)[0]);
    assert(b1[p1] == b1.subrange(p1, e)[0]);
    if b1[p1] >= 0x80 {
        assert(b2.subrange(p2 + 1, p2 + n) =~= b2.subrange(p2, p2 + n).subrange(1, n));
        assert(b1.subrange(p1 + 1, e) =~= b1.subrange(p1, e).subrange(1, n));
        lemma_group_end_agree(b1, p1 + 1, b2, p2 + 1, (limit - 1) as nat);
    }
}

/// A `u32` that reads successfully reads the same from any other input that
/// holds the same bytes at the place it is read from: the value depends on
/// its own bytes alone.
pub proof fn lemma_u32_outcome_agree(b1: Seq<u8>, p1: int, b2: Seq<u8>, p2: int)
    requires
        0 <= p1,
        0 <= p2,
        u32_outcome(b1, p1).0 is Ok,
        p2 + (u32_outcome(b1, p1).1 - p1) <= b2.len(),
        b2.subrange(p2, p2 + (u32_outcome(b1, p1).1 - p1)) == b1.subrange(p1, u32_outcome(b1, p1).1),
    ensures
        u32_outcome(b2, p2) == (u32_outcome(b1, p1).0, u32_outcome(b1, p1).1 - p1 + p2),
{
    let e = group_end(b1, p1, 5).unwrap();
    lemma_group_end_agree(b1, p1, b2, p2, 5);
}

} // verus!
