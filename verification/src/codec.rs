//! Refcount codec: bijective mapping between a `(value bytes, signed
//! reference count)` pair and a single stored blob, in two on-disk width
//! variants. The counter is appended after the value bytes, little-endian:
//! narrow records carry a 4-byte counter, wide records an 8-byte counter.

use crate::MigrationError;
use vstd::prelude::*;

verus! {

/// The four little-endian bytes of a 32-bit word.
pub open spec fn le4(x: u32) -> Seq<u8> {
    seq![
        (x & 0xff) as u8,
        ((x >> 8) & 0xff) as u8,
        ((x >> 16) & 0xff) as u8,
        ((x >> 24) & 0xff) as u8,
    ]
}

/// The eight little-endian bytes of a 64-bit word.
pub open spec fn le8(x: u64) -> Seq<u8> {
    seq![
        (x & 0xff) as u8,
        ((x >> 8) & 0xff) as u8,
        ((x >> 16) & 0xff) as u8,
        ((x >> 24) & 0xff) as u8,
        ((x >> 32) & 0xff) as u8,
        ((x >> 40) & 0xff) as u8,
        ((x >> 48) & 0xff) as u8,
        ((x >> 56) & 0xff) as u8,
    ]
}

/// A narrow-encoded record: the value bytes followed by the 4-byte
/// little-endian two's-complement counter.
pub open spec fn encode_narrow_spec(value: Seq<u8>, rc: i32) -> Seq<u8> {
    value + le4(rc as u32)
}

/// A wide-encoded record: the value bytes followed by the 8-byte
/// little-endian two's-complement counter.
pub open spec fn encode_wide_spec(value: Seq<u8>, rc: i64) -> Seq<u8> {
    value + le8(rc as u64)
}

/// Two words with the same little-endian bytes are the same word.
pub proof fn lemma_le8_injective(x: u64, y: u64)
    requires
        le8(x) == le8(y),
    ensures
        x == y,
{
    assert(le8(x)[0] == le8(y)[0] && le8(x)[1] == le8(y)[1] && le8(x)[2] == le8(y)[2] && le8(x)[3]
        == le8(y)[3] && le8(x)[4] == le8(y)[4] && le8(x)[5] == le8(y)[5] && le8(x)[6] == le8(y)[6]
        && le8(x)[7] == le8(y)[7]);
    assert((((x & 0xff) as u8) == ((y & 0xff) as u8) && (((x >> 8) & 0xff) as u8) == (((y >> 8)
        & 0xff) as u8) && (((x >> 16) & 0xff) as u8) == (((y >> 16) & 0xff) as u8) && (((x >> 24)
        & 0xff) as u8) == (((y >> 24) & 0xff) as u8) && (((x >> 32) & 0xff) as u8) == (((y >> 32)
        & 0xff) as u8) && (((x >> 40) & 0xff) as u8) == (((y >> 40) & 0xff) as u8) && (((x >> 48)
        & 0xff) as u8) == (((y >> 48) & 0xff) as u8) && (((x >> 56) & 0xff) as u8) == (((y >> 56)
        & 0xff) as u8)) ==> x == y) by (bit_vector);
}

/// Appending four zero bytes to the narrow little-endian encoding of a
/// non-negative counter gives the wide little-endian encoding of the same
/// numeric value.
pub proof fn lemma_widen_counter(rc: i32)
    requires
        rc >= 0,
    ensures
        le4(rc as u32) + seq![0u8, 0u8, 0u8, 0u8] == le8(rc as i64 as u64),
{
    let x = rc as u32;
    let w = rc as i64 as u64;
    assert(rc >= 0 ==> rc as i64 as u64 == (rc as u32) as u64) by (bit_vector);
    assert(((x as u64) & 0xff) as u8 == (x & 0xff) as u8 && (((x as u64) >> 8) & 0xff) as u8 == ((x
        >> 8) & 0xff) as u8 && (((x as u64) >> 16) & 0xff) as u8 == ((x >> 16) & 0xff) as u8 && (((
    x as u64) >> 24) & 0xff) as u8 == ((x >> 24) & 0xff) as u8 && (((x as u64) >> 32) & 0xff) as u8
        == 0u8 && (((x as u64) >> 40) & 0xff) as u8 == 0u8 && (((x as u64) >> 48) & 0xff) as u8
        == 0u8 && (((x as u64) >> 56) & 0xff) as u8 == 0u8) by (bit_vector);
    assert(le4(x) + seq![0u8, 0u8, 0u8, 0u8] =~= le8(w));
}

/// A wide encoding determines the pair that produced it: equal blobs mean
/// equal value bytes and equal counters.
pub proof fn lemma_encode_wide_injective(v1: Seq<u8>, rc1: i64, v2: Seq<u8>, rc2: i64)
    requires
        encode_wide_spec(v1, rc1) == encode_wide_spec(v2, rc2),
    ensures
        v1 == v2,
        rc1 == rc2,
{
    assert(le8(rc1 as u64).len() == 8);
    assert(le8(rc2 as u64).len() == 8);
    assert(encode_wide_spec(v1, rc1).len() == v1.len() + 8) by {
        assert(encode_wide_spec(v1, rc1) == v1 + le8(rc1 as u64));
    }
    assert(encode_wide_spec(v2, rc2).len() == v2.len() + 8) by {
        assert(encode_wide_spec(v2, rc2) == v2 + le8(rc2 as u64));
    }
    assert(v1.len() == v2.len());
    assert(v1 =~= encode_wide_spec(v1, rc1).take(v1.len() as int));
    assert(v2 =~= encode_wide_spec(v2, rc2).take(v2.len() as int));
    assert(le8(rc1 as u64) =~= encode_wide_spec(v1, rc1).skip(v1.len() as int));
    assert(le8(rc2 as u64) =~= encode_wide_spec(v2, rc2).skip(v2.len() as int));
    lemma_le8_injective(rc1 as u64, rc2 as u64);
    assert(rc1 as u64 == rc2 as u64 ==> rc1 == rc2) by (bit_vector);
}

/// Width preservation: the widened form of a narrow encoding of a
/// non-negative counter is a wide encoding of exactly the original value
/// bytes and counter — so decoding it yields the pair that was narrow-encoded.
pub proof fn lemma_width_preservation(value: Seq<u8>, rc: i32, v2: Seq<u8>, rc2: i64)
    requires
        rc >= 0,
        encode_wide_spec(v2, rc2) == encode_narrow_spec(value, rc) + seq![0u8, 0u8, 0u8, 0u8],
    ensures
        v2 == value,
        rc2 == rc as i64,
{
    lemma_widen_counter(rc);
    assert(encode_narrow_spec(value, rc) + seq![0u8, 0u8, 0u8, 0u8] =~= encode_wide_spec(
        value,
        rc as i64,
    ));
    lemma_encode_wide_injective(v2, rc2, value, rc as i64);
}

/// Encodes a value with a wide reference count: the stored blob is the value
/// bytes followed by the counter's 8 little-endian bytes. Always succeeds.
pub fn encode_value_with_rc(value: &Vec<u8>, rc: i64) -> (r: Vec<u8>)
    ensures
        r@ == encode_wide_spec(value@, rc),
{
    let x: u64 = rc as u64;
    let mut r: Vec<u8> = Vec::new();
    let mut i: usize = 0;
    while i < value.len()
        invariant
            i <= value.len(),
            r@ == value@.take(i as int),
        decreases value.len() - i,
    {
        r.push(value[i]);
        assert(r@ =~= value@.take(i + 1));
        i += 1;
    }
    assert(r@ =~= value@);
    r.push((x & 0xff) as u8);
    r.push(((x >> 8) & 0xff) as u8);
    r.push(((x >> 16) & 0xff) as u8);
    r.push(((x >> 24) & 0xff) as u8);
    r.push(((x >> 32) & 0xff) as u8);
    r.push(((x >> 40) & 0xff) as u8);
    r.push(((x >> 48) & 0xff) as u8);
    r.push(((x >> 56) & 0xff) as u8);
    assert(r@ =~= encode_wide_spec(value@, rc));
    r
}

/// Encodes a value with a narrow reference count: the stored blob is the
/// value bytes followed by the counter's 4 little-endian bytes.
pub fn encode_value_with_rc_narrow(value: &Vec<u8>, rc: i32) -> (r: Vec<u8>)
    ensures
        r@ == encode_narrow_spec(value@, rc),
{
    let x: u32 = rc as u32;
    let mut r: Vec<u8> = Vec::new();
    let mut i: usize = 0;
    while i < value.len()
        invariant
            i <= value.len(),
            r@ == value@.take(i as int),
        decreases value.len() - i,
    {
        r.push(value[i]);
        assert(r@ =~= value@.take(i + 1));
        i += 1;
    }
    assert(r@ =~= value@);
    r.push((x & 0xff) as u8);
    r.push(((x >> 8) & 0xff) as u8);
    r.push(((x >> 16) & 0xff) as u8);
    r.push(((x >> 24) & 0xff) as u8);
    assert(r@ =~= encode_narrow_spec(value@, rc));
    r
}

/// The eight little-endian bytes of a 64-bit word, as a vector.
pub fn le8_bytes(x: u64) -> (r: Vec<u8>)
    ensures
        r@ == le8(x),
{
    let mut r: Vec<u8> = Vec::new();
    r.push((x & 0xff) as u8);
    r.push(((x >> 8) & 0xff) as u8);
    r.push(((x >> 16) & 0xff) as u8);
    r.push(((x >> 24) & 0xff) as u8);
    r.push(((x >> 32) & 0xff) as u8);
    r.push(((x >> 40) & 0xff) as u8);
    r.push(((x >> 48) & 0xff) as u8);
    r.push(((x >> 56) & 0xff) as u8);
    assert(r@ =~= le8(x));
    r
}

/// Decodes a wide-encoded blob into its value bytes and counter. Fails with
/// `MalformedRecord` exactly when the blob is shorter than the counter width.
pub fn decode_value_with_rc(blob: &Vec<u8>) -> (r: Result<(Vec<u8>, i64), MigrationError>)
    ensures
        blob@.len() >= 8 <==> r is Ok,
        r matches Ok(p) ==> blob@ == encode_wide_spec(p.0@, p.1) && p.0@ == blob@.take(
            blob@.len() - 8,
        ),
        r matches Err(e) ==> e == MigrationError::MalformedRecord,
{
    if blob.len() < 8 {
        return Err(MigrationError::MalformedRecord);
    }
    let n = blob.len() - 8;
    let mut value: Vec<u8> = Vec::new();
    let mut i: usize = 0;
    while i < n
        invariant
            i <= n,
            n + 8 == blob@.len(),
            value@ == blob@.take(i as int),
        decreases n - i,
    {
        value.push(blob[i]);
        assert(value@ =~= blob@.take(i + 1));
        i += 1;
    }
    let b0 = blob[n];
    let b1 = blob[n + 1];
    let b2 = blob[n + 2];
    let b3 = blob[n + 3];
    let b4 = blob[n + 4];
    let b5 = blob[n + 5];
    let b6 = blob[n + 6];
    let b7 = blob[n + 7];
    let x: u64 = (b0 as u64) | ((b1 as u64) << 8) | ((b2 as u64) << 16) | ((b3 as u64) << 24) | ((
    b4 as u64) << 32) | ((b5 as u64) << 40) | ((b6 as u64) << 48) | ((b7 as u64) << 56);
    proof {
        assert((x & 0xff) as u8 == b0 && ((x >> 8) & 0xff) as u8 == b1 && ((x >> 16) & 0xff) as u8
            == b2 && ((x >> 24) & 0xff) as u8 == b3 && ((x >> 32) & 0xff) as u8 == b4 && ((x >> 40)
            & 0xff) as u8 == b5 && ((x >> 48) & 0xff) as u8 == b6 && ((x >> 56) & 0xff) as u8
            == b7) by (bit_vector)
            requires
                x == (b0 as u64) | ((b1 as u64) << 8) | ((b2 as u64) << 16) | ((b3 as u64) << 24)
                    | ((b4 as u64) << 32) | ((b5 as u64) << 40) | ((b6 as u64) << 48) | ((
                b7 as u64) << 56),
        ;
        assert(x as i64 as u64 == x) by (bit_vector);
        assert(blob@ =~= blob@.take(n as int) + le8(x));
    }
    Ok((value, x as i64))
}

/// Decodes a narrow-encoded blob into its value bytes and counter. Fails with
/// `MalformedRecord` exactly when the blob is shorter than the counter width.
pub fn decode_value_with_rc_narrow(blob: &Vec<u8>) -> (r: Result<(Vec<u8>, i32), MigrationError>)
    ensures
        blob@.len() >= 4 <==> r is Ok,
        r matches Ok(p) ==> blob@ == encode_narrow_spec(p.0@, p.1) && p.0@ == blob@.take(
            blob@.len() - 4,
        ),
        r matches Err(e) ==> e == MigrationError::MalformedRecord,
{
    if blob.len() < 4 {
        return Err(MigrationError::MalformedRecord);
    }
    let n = blob.len() - 4;
    let mut value: Vec<u8> = Vec::new();
    let mut i: usize = 0;
    while i < n
        invariant
            i <= n,
            n + 4 == blob@.len(),
            value@ == blob@.take(i as int),
        decreases n - i,
    {
        value.push(blob[i]);
        assert(value@ =~= blob@.take(i + 1));
        i += 1;
    }
    let b0 = blob[n];
    let b1 = blob[n + 1];
    let b2 = blob[n + 2];
    let b3 = blob[n + 3];
    let x: u32 = (b0 as u32) | ((b1 as u32) << 8) | ((b2 as u32) << 16) | ((b3 as u32) << 24);
    proof {
        assert((x & 0xff) as u8 == b0 && ((x >> 8) & 0xff) as u8 == b1 && ((x >> 16) & 0xff) as u8
            == b2 && ((x >> 24) & 0xff) as u8 == b3) by (bit_vector)
            requires
                x == (b0 as u32) | ((b1 as u32) << 8) | ((b2 as u32) << 16) | ((b3 as u32) << 24),
        ;
        assert(x as i32 as u32 == x) by (bit_vector);
        assert(blob@ =~= blob@.take(n as int) + le4(x));
    }
    Ok((value, x as i32))
}

/// Widens a narrow-encoded blob: a blob too short to contain even the narrow
/// counter is dropped (`None`, signalling the caller to delete the key);
/// otherwise four zero bytes extend the trailing counter field from narrow to
/// wide width, preserving a non-negative counter's numeric value.
pub fn widen(blob: &Vec<u8>) -> (r: Option<Vec<u8>>)
    ensures
        r is None <==> blob@.len() < 4,
        r matches Some(w) ==> w@ == blob@ + seq![0u8, 0u8, 0u8, 0u8],
{
    if blob.len() < 4 {
        return None;
    }
    let mut w: Vec<u8> = Vec::new();
    let mut i: usize = 0;
    while i < blob.len()
        invariant
            i <= blob@.len(),
            w@ == blob@.take(i as int),
        decreases blob@.len() - i,
    {
        w.push(blob[i]);
        assert(w@ =~= blob@.take(i + 1));
        i += 1;
    }
    assert(w@ =~= blob@);
    w.push(0u8);
    w.push(0u8);
    w.push(0u8);
    w.push(0u8);
    assert(w@ =~= blob@ + seq![0u8, 0u8, 0u8, 0u8]);
    Some(w)
}

} // verus!
