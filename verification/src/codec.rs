//! Primitive wire types: fixed-width big-endian integers, unsigned varints,
//! nullable strings and compact strings, each with a spec-level parser and
//! encoder and with round-trip lemmas connecting the two.

use vstd::prelude::*;

use crate::DecodeError;

verus! {

// ---------------------------------------------------------------------------
// Fixed-width big-endian integers
// ---------------------------------------------------------------------------

/// The value of the `n` bytes of `s` starting at `pos`, read big-endian.
pub open spec fn be_nat(s: Seq<u8>, pos: int, n: int) -> nat
    decreases n,
{
    if n <= 0 {
        0
    } else {
        be_nat(s, pos, n - 1) * 256 + s[pos + n - 1] as nat
    }
}

/// The `n`-byte big-endian encoding of `x` (low byte written last).
pub open spec fn be_bytes(x: nat, n: nat) -> Seq<u8>
    decreases n,
{
    if n == 0 {
        Seq::empty()
    } else {
        be_bytes(x / 256, (n - 1) as nat) + seq![(x % 256) as u8]
    }
}

pub proof fn lemma_be_bytes_len(x: nat, n: nat)
    ensures
        be_bytes(x, n).len() == n,
    decreases n,
{
    if n > 0 {
        lemma_be_bytes_len(x / 256, (n - 1) as nat);
    }
}

pub proof fn lemma_be_nat_bound(s: Seq<u8>, pos: int, n: int)
    ensures
        be_nat(s, pos, n) < pow256(if n <= 0 { 0nat } else { n as nat }),
    decreases n,
{
    if n > 0 {
        lemma_be_nat_bound(s, pos, n - 1);
        if n - 1 <= 0 {
            assert(be_nat(s, pos, n - 1) == 0);
        }
    }
}

/// 256 to the power `n`; the number of values an `n`-byte field can hold.
pub open spec fn pow256(n: nat) -> nat
    decreases n,
{
    if n == 0 {
        1
    } else {
        256 * pow256((n - 1) as nat)
    }
}

/// Reading back the big-endian encoding recovers the value.
pub proof fn lemma_be_roundtrip(s: Seq<u8>, pos: int, x: nat, n: nat)
    requires
        x < pow256(n),
        0 <= pos,
        pos + n <= s.len(),
        s.subrange(pos, pos + n) =~= be_bytes(x, n),
    ensures
        be_nat(s, pos, n as int) == x,
    decreases n,
{
    lemma_be_bytes_len(x, n);
    if n == 0 {
    } else {
        let m = (n - 1) as nat;
        lemma_be_bytes_len(x / 256, m);
        assert forall|i: int| 0 <= i < m implies #[trigger] (s.subrange(pos, pos + m)[i])
            == be_bytes(x / 256, m)[i] by {
            assert(s.subrange(pos, pos + n)[i] == be_bytes(x, n)[i]);
        }
        assert(s.subrange(pos, pos + m) =~= be_bytes(x / 256, m));
        assert(x / 256 < pow256(m)) by {
            assert(pow256(n) == 256 * pow256(m));
        }
        lemma_be_roundtrip(s, pos, x / 256, m);
        assert(s[pos + n - 1] == be_bytes(x, n)[n - 1]);
        assert(be_bytes(x, n)[n - 1] == (x % 256) as u8);
        assert(be_nat(s, pos, n as int) == (x / 256) * 256 + x % 256);
    }
}


/// Concrete values of `pow256` at the field widths this codec uses.
pub proof fn lemma_pow256_values()
    ensures
        pow256(1) == 0x100,
        pow256(2) == 0x10000,
        pow256(4) == 0x100000000,
        pow256(8) == 0x10000000000000000,
        pow256(16) == 0x100000000000000000000000000000000,
{
    reveal_with_fuel(pow256, 17);
}

/// Reads one byte and advances the cursor.
pub fn read_u8(buf: &Vec<u8>, pos: &mut usize) -> (r: Result<u8, DecodeError>)
    ensures
        (match r {
            Ok(b) => *old(pos) < buf@.len() && b == buf@[*old(pos) as int] && *final(pos) == *old(pos) + 1,
            Err(e) => e == DecodeError::Truncated && *old(pos) >= buf@.len() && *final(pos) == *old(pos),
        }),
{
    if *pos < buf.len() {
        let b = buf[*pos];
        *pos = *pos + 1;
        Ok(b)
    } else {
        Err(DecodeError::Truncated)
    }
}

/// Reads `n` big-endian bytes as an unsigned value; `n` is at most 16.
pub fn read_be(buf: &Vec<u8>, pos: &mut usize, n: usize) -> (r: Result<u128, DecodeError>)
    requires
        n <= 16,
        *old(pos) <= buf@.len(),
    ensures
        (match r {
            Ok(v) => *old(pos) + n <= buf@.len() && v == be_nat(buf@, *old(pos) as int, n as int)
                && *final(pos) == *old(pos) + n,
            Err(e) => e == DecodeError::Truncated && *old(pos) + n > buf@.len() && *final(pos) == *old(pos),
        }),
{
    if buf.len() - *pos < n {
        return Err(DecodeError::Truncated);
    }
    let ghost p0 = *pos as int;
    let mut acc: u128 = 0;
    let mut i: usize = 0;
    while i < n
        invariant
            0 <= i <= n,
            n <= 16,
            p0 + n <= buf@.len(),
            p0 + n <= usize::MAX,
            *pos == p0 + i,
            acc == be_nat(buf@, p0, i as int),
            acc < pow256(i as nat),
        decreases n - i,
    {
        proof {
            lemma_be_nat_bound(buf@, p0, i as int);
            lemma_pow256_values();
            lemma_pow256_le(i as nat, 15);
        }
        let b = buf[*pos];
        acc = acc * 256 + (b as u128);
        *pos = *pos + 1;
        i = i + 1;
        proof {
            lemma_be_nat_bound(buf@, p0, i as int);
        }
    }
    Ok(acc)
}

proof fn lemma_pow256_le(a: nat, b: nat)
    requires
        a <= b,
    ensures
        pow256(a) <= pow256(b),
    decreases b,
{
    if a < b {
        lemma_pow256_le(a, (b - 1) as nat);
    }
}

/// Appends the `n`-byte big-endian encoding of `x`.
pub fn write_be(out: &mut Vec<u8>, x: u128, n: usize) -> (r: ())
    ensures
        final(out)@ =~= old(out)@ + be_bytes(x as nat, n as nat),
    decreases n,
{
    if n == 0 {
        proof {
            assert(out@ =~= old(out)@ + be_bytes(x as nat, 0));
        }
    } else {
        write_be(out, x / 256, n - 1);
        out.push((x % 256) as u8);
        proof {
            lemma_be_bytes_len((x / 256) as nat, (n - 1) as nat);
        }
    }
}

// ---------------------------------------------------------------------------
// Unsigned varints (seven value bits per byte, continuation bit, at most five
// bytes)
// ---------------------------------------------------------------------------

/// 128 to the power `n`; the number of values `n` varint groups can hold.
pub open spec fn pow128(n: nat) -> nat
    decreases n,
{
    if n == 0 {
        1
    } else {
        128 * pow128((n - 1) as nat)
    }
}

/// Parses the value groups of an unsigned varint at `pos`, with `k` groups
/// already consumed.  Gives the full (untruncated) value and the position
/// after the terminating byte.
pub open spec fn sp_varint_groups(s: Seq<u8>, pos: int, k: int) -> Result<
    (nat, int),
    DecodeError,
>
    decreases 5 - k,
{
    if k >= 5 {
        Err(DecodeError::VarintTooLarge)
    } else if !(0 <= pos < s.len()) {
        Err(DecodeError::Truncated)
    } else if s[pos] < 128 {
        Ok((s[pos] as nat, pos + 1))
    } else {
        match sp_varint_groups(s, pos + 1, k + 1) {
            Ok((v, p)) => Ok(((s[pos] - 128) as nat + 128 * v, p)),
            Err(e) => Err(e),
        }
    }
}

/// Parses an unsigned varint at `pos`: the group value truncated to 32 bits,
/// as the wire decoder computes it.
pub open spec fn sp_varint(s: Seq<u8>, pos: int) -> Result<(u32, int), DecodeError> {
    match sp_varint_groups(s, pos, 0) {
        Ok((v, p)) => Ok(((v % 0x100000000) as u32, p)),
        Err(e) => Err(e),
    }
}

pub proof fn lemma_varint_groups_bound(s: Seq<u8>, pos: int, k: int)
    requires
        0 <= k <= 5,
    ensures
        (match sp_varint_groups(s, pos, k) {
            Ok(t) => t.0 < pow128((5 - k) as nat) && pos < t.1 <= pos + (5 - k) && t.1 <= s.len(),
            Err(_) => true,
        }),
    decreases 5 - k,
{
    if k < 5 && 0 <= pos < s.len() {
        if s[pos] < 128 {
            lemma_pow128_le(1, (5 - k) as nat);
            assert(pow128(1) == 128) by {
                reveal_with_fuel(pow128, 2);
            }
        } else {
            lemma_varint_groups_bound(s, pos + 1, k + 1);
            match sp_varint_groups(s, pos + 1, k + 1) {
                Ok(t2) => {
                    assert(pow128((5 - k) as nat) == 128 * pow128((4 - k) as nat));
                    assert(t2.0 < pow128((4 - k) as nat));
                    assert((s[pos] - 128) as nat + 128 * t2.0 <= 127 + 128 * (pow128(
                        (4 - k) as nat,
                    ) - 1));
                },
                Err(_) => {},
            }
        }
    }
}

pub proof fn lemma_pow128_values()
    ensures
        pow128(1) == 0x80,
        pow128(2) == 0x4000,
        pow128(3) == 0x200000,
        pow128(4) == 0x10000000,
        pow128(5) == 0x800000000,
{
    reveal_with_fuel(pow128, 6);
}

/// Reads the varint groups starting at `pos`, `k` groups already consumed.
fn read_varint_groups(buf: &Vec<u8>, pos: &mut usize, k: usize) -> (r: Result<u64, DecodeError>)
    requires
        k <= 5,
        *old(pos) <= buf@.len(),
    ensures
        (match r {
            Ok(v) => sp_varint_groups(buf@, *old(pos) as int, k as int) == Ok::<(nat, int), DecodeError>((
                v as nat,
                *final(pos) as int,
            )) && *final(pos) <= buf@.len(),
            Err(e) => sp_varint_groups(buf@, *old(pos) as int, k as int) == Err::<(nat, int), DecodeError>(e),
        }),
    decreases 5 - k,
{
    if k >= 5 {
        return Err(DecodeError::VarintTooLarge);
    }
    if *pos >= buf.len() {
        return Err(DecodeError::Truncated);
    }
    let b = buf[*pos];
    *pos = *pos + 1;
    if b < 128 {
        Ok(b as u64)
    } else {
        match read_varint_groups(buf, pos, k + 1) {
            Ok(v) => {
                proof {
                    lemma_varint_groups_bound(buf@, *old(pos) as int + 1, k as int + 1);
                    lemma_pow128_values();
                    lemma_pow128_le((5 - (k + 1)) as nat, 4);
                }
                Ok(((b - 128) as u64) + 128 * v)
            },
            Err(e) => Err(e),
        }
    }
}

proof fn lemma_pow128_le(a: nat, b: nat)
    requires
        a <= b,
    ensures
        pow128(a) <= pow128(b),
    decreases b,
{
    if a < b {
        lemma_pow128_le(a, (b - 1) as nat);
    }
}

/// Decodes an unsigned varint: seven value bits per byte, low group first,
/// the high bit of each byte marking continuation.  Fails with `Truncated`
/// when the buffer ends before a terminating byte, and with `VarintTooLarge`
/// once five continuation bytes have been consumed.
pub fn decode_unsigned_varint(buf: &Vec<u8>, pos: &mut usize) -> (r: Result<u32, DecodeError>)
    requires
        *old(pos) <= buf@.len(),
    ensures
        (match r {
            Ok(v) => sp_varint(buf@, *old(pos) as int) == Ok::<(u32, int), DecodeError>((
                v,
                *final(pos) as int,
            )) && *final(pos) <= buf@.len(),
            Err(e) => sp_varint(buf@, *old(pos) as int) == Err::<(u32, int), DecodeError>(e),
        }),
{
    match read_varint_groups(buf, pos, 0) {
        Ok(v) => Ok((v % 0x100000000) as u32),
        Err(e) => Err(e),
    }
}

/// The canonical varint encoding of `x`.
pub open spec fn enc_varint(x: nat) -> Seq<u8>
    decreases x,
{
    if x < 128 {
        seq![x as u8]
    } else {
        seq![(x % 128 + 128) as u8] + enc_varint(x / 128)
    }
}

/// Appends the varint encoding of `x`.
pub fn encode_unsigned_varint(out: &mut Vec<u8>, x: u32)
    ensures
        final(out)@ =~= old(out)@ + enc_varint(x as nat),
    decreases x,
{
    if x < 128 {
        out.push(x as u8);
    } else {
        out.push((x % 128 + 128) as u8);
        encode_unsigned_varint(out, x / 128);
    }
}

pub proof fn lemma_enc_varint_len(x: nat)
    ensures
        1 <= enc_varint(x).len(),
        forall|n: nat| x < pow128(n) && n >= 1 ==> enc_varint(x).len() <= n,
    decreases x,
{
    if x >= 128 {
        lemma_enc_varint_len(x / 128);
        assert forall|n: nat| x < pow128(n) && n >= 1 implies enc_varint(x).len() <= n by {
            assert(pow128(n) == 128 * pow128((n - 1) as nat));
            assert(x / 128 < pow128((n - 1) as nat));
            assert(n - 1 >= 1) by {
                if n == 1 {
                    assert(pow128(1) == 128) by {
                        reveal_with_fuel(pow128, 2);
                    }
                }
            }
        }
    }
}

/// Decoding an encoded varint recovers the value exactly, wherever the
/// encoding sits in a larger buffer: the groups parser stops at the
/// terminating byte and yields `x`.
pub proof fn lemma_varint_roundtrip_groups(s: Seq<u8>, pos: int, x: nat, k: int)
    requires
        0 <= k <= 5,
        enc_varint(x).len() <= 5 - k,
        0 <= pos,
        pos + enc_varint(x).len() <= s.len(),
        s.subrange(pos, pos + enc_varint(x).len()) =~= enc_varint(x),
    ensures
        sp_varint_groups(s, pos, k) == Ok::<(nat, int), DecodeError>((
            x,
            pos + enc_varint(x).len(),
        )),
    decreases x,
{
    let e = enc_varint(x);
    assert(s[pos] == e[0]);
    if x < 128 {
        assert(e =~= seq![x as u8]);
    } else {
        let e2 = enc_varint(x / 128);
        assert(e =~= seq![(x % 128 + 128) as u8] + e2);
        assert(s[pos] == (x % 128 + 128) as u8);
        assert forall|i: int| 0 <= i < e2.len() implies #[trigger] (s.subrange(
            pos + 1,
            pos + 1 + e2.len(),
        )[i]) == e2[i] by {
            assert(s.subrange(pos, pos + e.len())[i + 1] == e[i + 1]);
        }
        assert(s.subrange(pos + 1, pos + 1 + e2.len()) =~= e2);
        lemma_varint_roundtrip_groups(s, pos + 1, x / 128, k + 1);
        assert((s[pos] - 128) as nat + 128 * (x / 128) == x % 128 + 128 * (x / 128));
    }
}

/// Every value a `u32` can hold round-trips through the varint codec, with
/// the cursor advancing exactly over the encoding (P-style statement over
/// arbitrary surrounding bytes).
pub proof fn lemma_varint_roundtrip(s: Seq<u8>, pos: int, x: u32)
    requires
        0 <= pos,
        pos + enc_varint(x as nat).len() <= s.len(),
        s.subrange(pos, pos + enc_varint(x as nat).len()) =~= enc_varint(x as nat),
    ensures
        sp_varint(s, pos) == Ok::<(u32, int), DecodeError>((x, pos + enc_varint(x as nat).len())),
{
    lemma_pow128_values();
    lemma_enc_varint_len(x as nat);
    assert(x < pow128(5));
    lemma_varint_roundtrip_groups(s, pos, x as nat, 0);
}

/// A buffer whose remaining bytes all carry the continuation bit, and which
/// has fewer than five of them, fails with `Truncated`, never with a value.
pub proof fn lemma_varint_missing_terminator(s: Seq<u8>, pos: int)
    requires
        0 <= pos <= s.len(),
        s.len() - pos < 5,
        forall|i: int| pos <= i < s.len() ==> s[i] >= 128,
    ensures
        sp_varint(s, pos) == Err::<(u32, int), DecodeError>(DecodeError::Truncated),
{
    lemma_varint_truncated(s, pos, 0);
}

proof fn lemma_varint_truncated(s: Seq<u8>, pos: int, k: int)
    requires
        0 <= pos <= s.len(),
        0 <= k <= 5,
        s.len() - pos < 5 - k,
        forall|i: int| pos <= i < s.len() ==> s[i] >= 128,
    ensures
        sp_varint_groups(s, pos, k) == Err::<(nat, int), DecodeError>(DecodeError::Truncated),
    decreases 5 - k,
{
    if pos < s.len() {
        lemma_varint_truncated(s, pos + 1, k + 1);
    }
}

// ---------------------------------------------------------------------------
// Two's-complement views of the signed wire fields
// ---------------------------------------------------------------------------

/// The signed value that an `n`-byte big-endian field holding `v` denotes.
pub open spec fn signed_of(v: nat, n: nat) -> int {
    if v >= pow256(n) / 2 {
        v - pow256(n)
    } else {
        v as int
    }
}

/// The unsigned wire value of a signed 16-bit field.
pub open spec fn u16_of_i16(x: i16) -> nat {
    if x >= 0 {
        x as nat
    } else {
        (x + 0x10000) as nat
    }
}

/// The unsigned wire value of a signed 32-bit field.
pub open spec fn u32_of_i32(x: i32) -> nat {
    if x >= 0 {
        x as nat
    } else {
        (x + 0x100000000) as nat
    }
}

/// The unsigned wire value of a signed 64-bit field.
pub open spec fn u64_of_i64(x: i64) -> nat {
    if x >= 0 {
        x as nat
    } else {
        (x + 0x10000000000000000) as nat
    }
}

pub fn read_i16(buf: &Vec<u8>, pos: &mut usize) -> (r: Result<i16, DecodeError>)
    requires
        *old(pos) <= buf@.len(),
    ensures
        (match r {
            Ok(v) => *old(pos) + 2 <= buf@.len() && u16_of_i16(v) == be_nat(
                buf@,
                *old(pos) as int,
                2,
            ) && *final(pos) == *old(pos) + 2,
            Err(e) => e == DecodeError::Truncated && *old(pos) + 2 > buf@.len() && *final(pos) == *old(pos),
        }),
{
    let v = match read_be(buf, pos, 2) {
        Ok(v) => v,
        Err(e) => {
            return Err(e);
        },
    };
    proof {
        lemma_be_nat_bound(buf@, *old(pos) as int, 2);
        lemma_pow256_values();
    }
    if v >= 0x8000 {
        Ok(((v as i32) - 0x10000) as i16)
    } else {
        Ok(v as i16)
    }
}

pub fn read_i32(buf: &Vec<u8>, pos: &mut usize) -> (r: Result<i32, DecodeError>)
    requires
        *old(pos) <= buf@.len(),
    ensures
        (match r {
            Ok(v) => *old(pos) + 4 <= buf@.len() && u32_of_i32(v) == be_nat(
                buf@,
                *old(pos) as int,
                4,
            ) && *final(pos) == *old(pos) + 4,
            Err(e) => e == DecodeError::Truncated && *old(pos) + 4 > buf@.len() && *final(pos) == *old(pos),
        }),
{
    let v = match read_be(buf, pos, 4) {
        Ok(v) => v,
        Err(e) => {
            return Err(e);
        },
    };
    proof {
        lemma_be_nat_bound(buf@, *old(pos) as int, 4);
        lemma_pow256_values();
    }
    if v >= 0x80000000 {
        Ok(((v as i64) - 0x100000000) as i32)
    } else {
        Ok(v as i32)
    }
}

pub fn read_u32(buf: &Vec<u8>, pos: &mut usize) -> (r: Result<u32, DecodeError>)
    requires
        *old(pos) <= buf@.len(),
    ensures
        (match r {
            Ok(v) => *old(pos) + 4 <= buf@.len() && v == be_nat(buf@, *old(pos) as int, 4)
                && *final(pos) == *old(pos) + 4,
            Err(e) => e == DecodeError::Truncated && *old(pos) + 4 > buf@.len() && *final(pos) == *old(pos),
        }),
{
    let v = match read_be(buf, pos, 4) {
        Ok(v) => v,
        Err(e) => {
            return Err(e);
        },
    };
    proof {
        lemma_be_nat_bound(buf@, *old(pos) as int, 4);
        lemma_pow256_values();
    }
    Ok(v as u32)
}

pub fn read_u16(buf: &Vec<u8>, pos: &mut usize) -> (r: Result<u16, DecodeError>)
    requires
        *old(pos) <= buf@.len(),
    ensures
        (match r {
            Ok(v) => *old(pos) + 2 <= buf@.len() && v == be_nat(buf@, *old(pos) as int, 2)
                && *final(pos) == *old(pos) + 2,
            Err(e) => e == DecodeError::Truncated && *old(pos) + 2 > buf@.len() && *final(pos) == *old(pos),
        }),
{
    let v = match read_be(buf, pos, 2) {
        Ok(v) => v,
        Err(e) => {
            return Err(e);
        },
    };
    proof {
        lemma_be_nat_bound(buf@, *old(pos) as int, 2);
        lemma_pow256_values();
    }
    Ok(v as u16)
}

pub fn read_i64(buf: &Vec<u8>, pos: &mut usize) -> (r: Result<i64, DecodeError>)
    requires
        *old(pos) <= buf@.len(),
    ensures
        (match r {
            Ok(v) => *old(pos) + 8 <= buf@.len() && u64_of_i64(v) == be_nat(
                buf@,
                *old(pos) as int,
                8,
            ) && *final(pos) == *old(pos) + 8,
            Err(e) => e == DecodeError::Truncated && *old(pos) + 8 > buf@.len() && *final(pos) == *old(pos),
        }),
{
    let v = match read_be(buf, pos, 8) {
        Ok(v) => v,
        Err(e) => {
            return Err(e);
        },
    };
    proof {
        lemma_be_nat_bound(buf@, *old(pos) as int, 8);
        lemma_pow256_values();
    }
    if v >= 0x8000000000000000 {
        Ok(((v as i128) - 0x10000000000000000) as i64)
    } else {
        Ok(v as i64)
    }
}

pub fn read_u128(buf: &Vec<u8>, pos: &mut usize) -> (r: Result<u128, DecodeError>)
    requires
        *old(pos) <= buf@.len(),
    ensures
        (match r {
            Ok(v) => *old(pos) + 16 <= buf@.len() && v == be_nat(buf@, *old(pos) as int, 16)
                && *final(pos) == *old(pos) + 16,
            Err(e) => e == DecodeError::Truncated && *old(pos) + 16 > buf@.len() && *final(pos) == *old(pos),
        }),
{
    read_be(buf, pos, 16)
}

pub fn write_u16(out: &mut Vec<u8>, x: u16)
    ensures
        final(out)@ =~= old(out)@ + be_bytes(x as nat, 2),
{
    write_be(out, x as u128, 2)
}

pub fn write_u32(out: &mut Vec<u8>, x: u32)
    ensures
        final(out)@ =~= old(out)@ + be_bytes(x as nat, 4),
{
    write_be(out, x as u128, 4)
}

pub fn write_u128(out: &mut Vec<u8>, x: u128)
    ensures
        final(out)@ =~= old(out)@ + be_bytes(x as nat, 16),
{
    write_be(out, x, 16)
}

pub fn write_i16(out: &mut Vec<u8>, x: i16)
    ensures
        final(out)@ =~= old(out)@ + be_bytes(u16_of_i16(x), 2),
{
    if x >= 0 {
        write_be(out, x as u128, 2)
    } else {
        write_be(out, ((x as i32) + 0x10000) as u128, 2)
    }
}

pub fn write_i32(out: &mut Vec<u8>, x: i32)
    ensures
        final(out)@ =~= old(out)@ + be_bytes(u32_of_i32(x), 4),
{
    if x >= 0 {
        write_be(out, x as u128, 4)
    } else {
        write_be(out, ((x as i64) + 0x100000000) as u128, 4)
    }
}

pub fn write_i64(out: &mut Vec<u8>, x: i64)
    ensures
        final(out)@ =~= old(out)@ + be_bytes(u64_of_i64(x), 8),
{
    if x >= 0 {
        write_be(out, x as u128, 8)
    } else {
        write_be(out, ((x as i128) + 0x10000000000000000) as u128, 8)
    }
}


// ---------------------------------------------------------------------------
// Byte runs, nullable strings and compact strings
// ---------------------------------------------------------------------------

/// The view of an optional byte vector.
pub open spec fn opt_view(o: Option<Vec<u8>>) -> Option<Seq<u8>> {
    match o {
        Some(v) => Some(v@),
        None => None,
    }
}

/// Copies `n` bytes from the cursor into a fresh vector.
pub fn read_bytes(buf: &Vec<u8>, pos: &mut usize, n: usize) -> (r: Result<Vec<u8>, DecodeError>)
    requires
        *old(pos) <= buf@.len(),
    ensures
        (match r {
            Ok(v) => *old(pos) + n <= buf@.len() && v@ =~= buf@.subrange(
                *old(pos) as int,
                *old(pos) + n,
            ) && *final(pos) == *old(pos) + n,
            Err(e) => e == DecodeError::Truncated && *old(pos) + n > buf@.len() && *final(pos)
                == *old(pos),
        }),
{
    if buf.len() - *pos < n {
        return Err(DecodeError::Truncated);
    }
    let ghost p0 = *pos as int;
    let mut v: Vec<u8> = Vec::new();
    let mut i: usize = 0;
    while i < n
        invariant
            0 <= i <= n,
            0 <= p0,
            p0 + n <= buf@.len(),
            p0 + n <= usize::MAX,
            *pos == p0 + i,
            v@ =~= buf@.subrange(p0, p0 + i),
        decreases n - i,
    {
        let b = buf[*pos];
        v.push(b);
        *pos = *pos + 1;
        i = i + 1;
        proof {
            assert(0 <= p0);
            assert(p0 + i <= buf@.len());
            assert forall|j: int| 0 <= j < i implies #[trigger] (buf@.subrange(p0, p0 + i)[j])
                == v@[j] by {
                if j < i - 1 {
                    assert(v@[j] == buf@.subrange(p0, p0 + i - 1)[j]);
                }
            }
            assert(v@ =~= buf@.subrange(p0, p0 + i));
        }
    }
    Ok(v)
}

/// Parses a nullable string: a signed 16-bit length, the sentinel -1 for
/// null, then that many bytes which must be valid UTF-8.
pub open spec fn sp_nullable_string(s: Seq<u8>, pos: int) -> Result<
    (Option<Seq<u8>>, int),
    DecodeError,
> {
    if pos < 0 || pos + 2 > s.len() {
        Err(DecodeError::Truncated)
    } else {
        let n = be_nat(s, pos, 2) as int;
        let len16: int = if n >= 0x8000 {
            n - 0x10000
        } else {
            n
        };
        if len16 == -1 {
            Ok((None, pos + 2))
        } else if len16 < 0 {
            Err(DecodeError::InvalidLength)
        } else if pos + 2 + len16 > s.len() {
            Err(DecodeError::Truncated)
        } else {
            let bytes = s.subrange(pos + 2, pos + 2 + len16);
            if crate::utf8::is_utf8(bytes) {
                Ok((Some(bytes), pos + 2 + len16))
            } else {
                Err(DecodeError::InvalidUtf8)
            }
        }
    }
}

/// Decodes a nullable string, returning its raw UTF-8 bytes.
pub fn decode_nullable_string(buf: &Vec<u8>, pos: &mut usize) -> (r: Result<
    Option<Vec<u8>>,
    DecodeError,
>)
    requires
        *old(pos) <= buf@.len(),
    ensures
        (match r {
            Ok(o) => sp_nullable_string(buf@, *old(pos) as int) == Ok::<_, DecodeError>((
                opt_view(o),
                *final(pos) as int,
            )) && *final(pos) <= buf@.len(),
            Err(e) => sp_nullable_string(buf@, *old(pos) as int) == Err::<(Option<Seq<u8>>, int), _>(e),
        }),
{
    let n = match read_u16(buf, pos) {
        Ok(v) => v,
        Err(e) => {
            return Err(e);
        },
    };
    if n == 0xFFFF {
        return Ok(None);
    }
    if n >= 0x8000 {
        return Err(DecodeError::InvalidLength);
    }
    let bytes = match read_bytes(buf, pos, n as usize) {
        Ok(v) => v,
        Err(e) => {
            return Err(e);
        },
    };
    if crate::utf8::validate_utf8(&bytes) {
        Ok(Some(bytes))
    } else {
        Err(DecodeError::InvalidUtf8)
    }
}

/// Parses a compact string: an unsigned varint holding length + 1, with the
/// raw value 0 denoting null, then that many UTF-8 bytes.
pub open spec fn sp_compact_string(s: Seq<u8>, pos: int) -> Result<
    (Option<Seq<u8>>, int),
    DecodeError,
> {
    match sp_varint(s, pos) {
        Err(e) => Err(e),
        Ok((v, p)) => if v == 0 {
            Ok((None, p))
        } else {
            let len = v - 1;
            if p + len > s.len() {
                Err(DecodeError::Truncated)
            } else {
                let bytes = s.subrange(p, p + len);
                if crate::utf8::is_utf8(bytes) {
                    Ok((Some(bytes), p + len))
                } else {
                    Err(DecodeError::InvalidUtf8)
                }
            }
        },
    }
}

/// Decodes a compact string, returning its raw UTF-8 bytes.
pub fn decode_compact_string(buf: &Vec<u8>, pos: &mut usize) -> (r: Result<
    Option<Vec<u8>>,
    DecodeError,
>)
    requires
        *old(pos) <= buf@.len(),
    ensures
        (match r {
            Ok(o) => sp_compact_string(buf@, *old(pos) as int) == Ok::<_, DecodeError>((
                opt_view(o),
                *final(pos) as int,
            )) && *final(pos) <= buf@.len(),
            Err(e) => sp_compact_string(buf@, *old(pos) as int) == Err::<(Option<Seq<u8>>, int), _>(e),
        }),
{
    let v = match decode_unsigned_varint(buf, pos) {
        Ok(v) => v,
        Err(e) => {
            return Err(e);
        },
    };
    if v == 0 {
        return Ok(None);
    }
    let len = (v - 1) as usize;
    if buf.len() - *pos < len {
        return Err(DecodeError::Truncated);
    }
    let bytes = match read_bytes(buf, pos, len) {
        Ok(v) => v,
        Err(e) => {
            return Err(e);
        },
    };
    if crate::utf8::validate_utf8(&bytes) {
        Ok(Some(bytes))
    } else {
        Err(DecodeError::InvalidUtf8)
    }
}

/// Parses compact bytes: as a compact string but without the UTF-8 demand.
pub open spec fn sp_compact_bytes(s: Seq<u8>, pos: int) -> Result<
    (Option<Seq<u8>>, int),
    DecodeError,
> {
    match sp_varint(s, pos) {
        Err(e) => Err(e),
        Ok((v, p)) => if v == 0 {
            Ok((None, p))
        } else {
            let len = v - 1;
            if p + len > s.len() {
                Err(DecodeError::Truncated)
            } else {
                Ok((Some(s.subrange(p, p + len)), p + len))
            }
        },
    }
}

/// Decodes compact bytes (a nullable raw byte run with a varint length).
pub fn decode_compact_bytes(buf: &Vec<u8>, pos: &mut usize) -> (r: Result<
    Option<Vec<u8>>,
    DecodeError,
>)
    requires
        *old(pos) <= buf@.len(),
    ensures
        (match r {
            Ok(o) => sp_compact_bytes(buf@, *old(pos) as int) == Ok::<_, DecodeError>((
                opt_view(o),
                *final(pos) as int,
            )) && *final(pos) <= buf@.len(),
            Err(e) => sp_compact_bytes(buf@, *old(pos) as int) == Err::<(Option<Seq<u8>>, int), _>(e),
        }),
{
    let v = match decode_unsigned_varint(buf, pos) {
        Ok(v) => v,
        Err(e) => {
            return Err(e);
        },
    };
    if v == 0 {
        return Ok(None);
    }
    let len = (v - 1) as usize;
    if buf.len() - *pos < len {
        return Err(DecodeError::Truncated);
    }
    match read_bytes(buf, pos, len) {
        Ok(bytes) => Ok(Some(bytes)),
        Err(e) => Err(e),
    }
}

/// The encoding of a nullable string.
pub open spec fn enc_nullable_string(o: Option<Seq<u8>>) -> Seq<u8> {
    match o {
        None => be_bytes(0xFFFF, 2),
        Some(b) => be_bytes(b.len(), 2) + b,
    }
}

/// Appends the nullable-string encoding of `o`.
pub fn encode_nullable_string(out: &mut Vec<u8>, o: &Option<Vec<u8>>)
    requires
        (o matches Some(b) ==> b@.len() <= 0x7FFF),
    ensures
        final(out)@ =~= old(out)@ + enc_nullable_string(opt_view(*o)),
{
    match o {
        None => write_be(out, 0xFFFF, 2),
        Some(b) => {
            write_be(out, b.len() as u128, 2);
            let mut i: usize = 0;
            proof {
                lemma_be_bytes_len(b@.len(), 2);
            }
            while i < b.len()
                invariant
                    0 <= i <= b@.len(),
                    out@ =~= old(out)@ + be_bytes(b@.len(), 2) + b@.subrange(0, i as int),
                decreases b@.len() - i,
            {
                let x = b[i];
                out.push(x);
                i = i + 1;
            }
            proof {
                assert(b@.subrange(0, b@.len() as int) =~= b@);
            }
        },
    }
}

/// The encoding of a compact string.
pub open spec fn enc_compact_string(o: Option<Seq<u8>>) -> Seq<u8> {
    match o {
        None => enc_varint(0),
        Some(b) => enc_varint(b.len() + 1) + b,
    }
}

/// Appends the compact-string encoding of `o`.
pub fn encode_compact_string(out: &mut Vec<u8>, o: &Option<Vec<u8>>)
    requires
        (o matches Some(b) ==> b@.len() < 0xFFFFFFFF),
    ensures
        final(out)@ =~= old(out)@ + enc_compact_string(opt_view(*o)),
{
    match o {
        None => encode_unsigned_varint(out, 0),
        Some(b) => {
            encode_unsigned_varint(out, (b.len() as u32) + 1);
            let ghost mid = out@;
            let mut i: usize = 0;
            while i < b.len()
                invariant
                    0 <= i <= b@.len(),
                    out@ =~= mid + b@.subrange(0, i as int),
                decreases b@.len() - i,
            {
                let x = b[i];
                out.push(x);
                i = i + 1;
            }
            proof {
                assert(b@.subrange(0, b@.len() as int) =~= b@);
                assert(out@ =~= old(out)@ + enc_compact_string(opt_view(*o)));
            }
        },
    }
}

/// The encoding of compact bytes.
pub open spec fn enc_compact_bytes(o: Option<Seq<u8>>) -> Seq<u8> {
    enc_compact_string(o)
}

/// Appends the compact-bytes encoding of `o`.
pub fn encode_compact_bytes(out: &mut Vec<u8>, o: &Option<Vec<u8>>)
    requires
        (o matches Some(b) ==> b@.len() < 0xFFFFFFFF),
    ensures
        final(out)@ =~= old(out)@ + enc_compact_bytes(opt_view(*o)),
{
    encode_compact_string(out, o)
}

/// Splitting a known subrange of a buffer at a concatenation boundary.
pub proof fn lemma_subrange_split(s: Seq<u8>, pos: int, a: Seq<u8>, b: Seq<u8>)
    requires
        0 <= pos,
        pos + a.len() + b.len() <= s.len(),
        s.subrange(pos, pos + a.len() + b.len()) =~= a + b,
    ensures
        s.subrange(pos, pos + a.len()) =~= a,
        s.subrange(pos + a.len(), pos + a.len() + b.len()) =~= b,
{
    let whole = s.subrange(pos, pos + a.len() + b.len());
    assert forall|i: int| 0 <= i < a.len() implies #[trigger] (s.subrange(pos, pos + a.len())[i])
        == a[i] by {
        assert(whole[i] == (a + b)[i]);
    }
    assert forall|i: int| 0 <= i < b.len() implies #[trigger] (s.subrange(
        pos + a.len(),
        pos + a.len() + b.len(),
    )[i]) == b[i] by {
        assert(whole[a.len() + i] == (a + b)[a.len() + i]);
    }
}

/// Nullable strings round-trip: decoding the encoding recovers the value,
/// including the null case.
pub proof fn lemma_nullable_string_roundtrip(s: Seq<u8>, pos: int, o: Option<Seq<u8>>)
    requires
        0 <= pos,
        (o matches Some(b) ==> b.len() <= 0x7FFF && crate::utf8::is_utf8(b)),
        pos + enc_nullable_string(o).len() <= s.len(),
        s.subrange(pos, pos + enc_nullable_string(o).len()) =~= enc_nullable_string(o),
    ensures
        sp_nullable_string(s, pos) == Ok::<_, DecodeError>((
            o,
            pos + enc_nullable_string(o).len(),
        )),
{
    lemma_pow256_values();
    match o {
        None => {
            lemma_be_bytes_len(0xFFFF, 2);
            lemma_be_roundtrip(s, pos, 0xFFFF, 2);
        },
        Some(b) => {
            lemma_be_bytes_len(b.len(), 2);
            lemma_subrange_split(s, pos, be_bytes(b.len(), 2), b);
            lemma_be_roundtrip(s, pos, b.len(), 2);
        },
    }
}

/// Compact strings round-trip, including the null case.
pub proof fn lemma_compact_string_roundtrip(s: Seq<u8>, pos: int, o: Option<Seq<u8>>)
    requires
        0 <= pos,
        (o matches Some(b) ==> b.len() < 0xFFFFFFFF && crate::utf8::is_utf8(b)),
        pos + enc_compact_string(o).len() <= s.len(),
        s.subrange(pos, pos + enc_compact_string(o).len()) =~= enc_compact_string(o),
    ensures
        sp_compact_string(s, pos) == Ok::<_, DecodeError>((o, pos + enc_compact_string(o).len())),
{
    match o {
        None => {
            lemma_varint_roundtrip(s, pos, 0);
        },
        Some(b) => {
            let lv = enc_varint(b.len() + 1);
            lemma_subrange_split(s, pos, lv, b);
            lemma_varint_roundtrip(s, pos, (b.len() + 1) as u32);
            assert(s.subrange(pos + lv.len(), pos + lv.len() + b.len()) =~= b);
        },
    }
}

/// Compact bytes round-trip, including the null case.
pub proof fn lemma_compact_bytes_roundtrip(s: Seq<u8>, pos: int, o: Option<Seq<u8>>)
    requires
        0 <= pos,
        (o matches Some(b) ==> b.len() < 0xFFFFFFFF),
        pos + enc_compact_bytes(o).len() <= s.len(),
        s.subrange(pos, pos + enc_compact_bytes(o).len()) =~= enc_compact_bytes(o),
    ensures
        sp_compact_bytes(s, pos) == Ok::<_, DecodeError>((o, pos + enc_compact_bytes(o).len())),
{
    match o {
        None => {
            lemma_varint_roundtrip(s, pos, 0);
        },
        Some(b) => {
            let lv = enc_varint(b.len() + 1);
            lemma_subrange_split(s, pos, lv, b);
            lemma_varint_roundtrip(s, pos, (b.len() + 1) as u32);
            assert(s.subrange(pos + lv.len(), pos + lv.len() + b.len()) =~= b);
        },
    }
}


/// Appends the bytes of `v` unchanged.
pub fn write_bytes(out: &mut Vec<u8>, v: &Vec<u8>)
    ensures
        final(out)@ =~= old(out)@ + v@,
{
    let ghost base = out@;
    let mut i: usize = 0;
    while i < v.len()
        invariant
            0 <= i <= v@.len(),
            out@ =~= base + v@.subrange(0, i as int),
        decreases v@.len() - i,
    {
        let x = v[i];
        out.push(x);
        i = i + 1;
    }
    proof {
        assert(v@.subrange(0, v@.len() as int) =~= v@);
    }
}

/// Whether two byte vectors hold the same bytes.
pub fn bytes_eq(a: &Vec<u8>, b: &Vec<u8>) -> (r: bool)
    ensures
        r == (a@ == b@),
{
    if a.len() != b.len() {
        proof {
            assert(a@.len() != b@.len());
        }
        return false;
    }
    let mut i: usize = 0;
    while i < a.len()
        invariant
            0 <= i <= a@.len(),
            a@.len() == b@.len(),
            forall|j: int| 0 <= j < i ==> a@[j] == b@[j],
        decreases a@.len() - i,
    {
        if a[i] != b[i] {
            return false;
        }
        i = i + 1;
    }
    proof {
        assert(a@ =~= b@);
    }
    true
}

} // verus!
