//! Little-endian integer fields, as they appear in NTFS on-disk structures.
//!
//! The spec functions give the mathematical value of a little-endian field
//! of `n` bytes; the executable readers are proved to return exactly that
//! value. Signed fields (the delta offsets of a run list) are two's
//! complement: the high bit of the last byte decides the sign.
use vstd::prelude::*;

verus! {

/// 256^n: the number of values an `n`-byte field can hold.
pub open spec fn pow256(n: nat) -> nat
    decreases n,
{
    if n == 0 {
        1
    } else {
        256 * pow256((n - 1) as nat)
    }
}

/// Value of the unsigned little-endian field of `n` bytes at `pos`.
pub open spec fn le_bytes_at(s: Seq<u8>, pos: int, n: nat) -> nat
    decreases n,
{
    if n == 0 {
        0
    } else {
        (s[pos] + 256 * le_bytes_at(s, pos + 1, (n - 1) as nat)) as nat
    }
}

/// Value of the signed (two's complement) little-endian field of `n` bytes
/// at `pos`. A zero-byte field reads as 0.
pub open spec fn le_signed_at(s: Seq<u8>, pos: int, n: nat) -> int {
    if n == 0 {
        0
    } else if s[pos + n - 1] >= 128 {
        le_bytes_at(s, pos, n) - pow256(n)
    } else {
        le_bytes_at(s, pos, n) as int
    }
}

pub proof fn lemma_pow256_vals()
    ensures
        pow256(0) == 1,
        pow256(1) == 0x100,
        pow256(2) == 0x1_0000,
        pow256(3) == 0x100_0000,
        pow256(4) == 0x1_0000_0000,
        pow256(5) == 0x100_0000_0000,
        pow256(6) == 0x1_0000_0000_0000,
        pow256(7) == 0x100_0000_0000_0000,
        pow256(8) == 0x1_0000_0000_0000_0000,
{
    reveal_with_fuel(pow256, 9);
}

pub proof fn lemma_pow256_increases(m: nat, n: nat)
    requires
        m <= n,
    ensures
        pow256(m) <= pow256(n),
    decreases n,
{
    if m < n {
        lemma_pow256_increases(m, (n - 1) as nat);
        assert(pow256(n) == 256 * pow256((n - 1) as nat));
    }
}

/// An `n`-byte field holds a value below 256^n.
pub proof fn lemma_le_bytes_bound(s: Seq<u8>, pos: int, n: nat)
    ensures
        le_bytes_at(s, pos, n) < pow256(n),
    decreases n,
{
    if n > 0 {
        lemma_le_bytes_bound(s, pos + 1, (n - 1) as nat);
    }
}

/// The field value depends only on the bytes it covers.
pub proof fn lemma_le_bytes_at_eq(s: Seq<u8>, t: Seq<u8>, pos_s: int, pos_t: int, n: nat)
    requires
        forall|j: int| pos_s <= j < pos_s + n ==> #[trigger] s[j] == t[j - pos_s + pos_t],
    ensures
        le_bytes_at(s, pos_s, n) == le_bytes_at(t, pos_t, n),
    decreases n,
{
    if n > 0 {
        assert(s[pos_s] == t[pos_t]);
        lemma_le_bytes_at_eq(s, t, pos_s + 1, pos_t + 1, (n - 1) as nat);
    }
}

/// Reads the unsigned little-endian field of `n <= 8` bytes at `pos`.
pub fn read_uint_le(data: &[u8], pos: usize, n: usize) -> (r: u64)
    requires
        n <= 8,
        pos + n <= data@.len(),
    ensures
        r == le_bytes_at(data@, pos as int, n as nat),
{
    let dlen = data.len();
    let mut r: u64 = 0;
    let mut i: usize = n;
    proof {
        lemma_pow256_vals();
    }
    while i > 0
        invariant
            i <= n <= 8,
            pos + n <= dlen == data@.len(),
            r == le_bytes_at(data@, pos + i, (n - i) as nat),
            r < pow256((n - i) as nat),
            pow256(7) == 0x100_0000_0000_0000,
        decreases i,
    {
        proof {
            lemma_pow256_increases((n - i) as nat, 7);
        }
        i = i - 1;
        let b = data[pos + i];
        r = b as u64 + 256 * r;
        proof {
            assert(pow256((n - i) as nat) == 256 * pow256((n - i - 1) as nat));
            assert(le_bytes_at(data@, pos + i, (n - i) as nat) == data@[pos + i] + 256
                * le_bytes_at(data@, pos + i + 1, (n - i - 1) as nat));
        }
    }
    r
}

/// Reads the unsigned 16-bit little-endian field at `pos`.
pub fn read_u16_le(data: &[u8], pos: usize) -> (r: u16)
    requires
        pos + 2 <= data@.len(),
    ensures
        r == le_bytes_at(data@, pos as int, 2),
{
    proof {
        lemma_le_bytes_bound(data@, pos as int, 2);
        lemma_pow256_vals();
    }
    read_uint_le(data, pos, 2) as u16
}

/// Reads the unsigned 32-bit little-endian field at `pos`.
pub fn read_u32_le(data: &[u8], pos: usize) -> (r: u32)
    requires
        pos + 4 <= data@.len(),
    ensures
        r == le_bytes_at(data@, pos as int, 4),
{
    proof {
        lemma_le_bytes_bound(data@, pos as int, 4);
        lemma_pow256_vals();
    }
    read_uint_le(data, pos, 4) as u32
}

/// Reads the unsigned 64-bit little-endian field at `pos`.
pub fn read_u64_le(data: &[u8], pos: usize) -> (r: u64)
    requires
        pos + 8 <= data@.len(),
    ensures
        r == le_bytes_at(data@, pos as int, 8),
{
    read_uint_le(data, pos, 8)
}

/// Reads the signed little-endian field of `n <= 8` bytes at `pos` as a
/// sign and a magnitude, so that callers can do exact unsigned arithmetic.
pub fn read_sint_le(data: &[u8], pos: usize, n: usize) -> (r: (bool, u64))
    requires
        n <= 8,
        pos + n <= data@.len(),
    ensures
        r.0 ==> r.1 == -le_signed_at(data@, pos as int, n as nat) && r.1 >= 1,
        !r.0 ==> r.1 == le_signed_at(data@, pos as int, n as nat),
{
    proof {
        lemma_pow256_vals();
        lemma_le_bytes_bound(data@, pos as int, n as nat);
    }
    let dlen = data.len();
    let magnitude = read_uint_le(data, pos, n);
    if n == 0 {
        (false, 0)
    } else if data[pos + n - 1] >= 128 {
        proof {
            lemma_le_high_byte_bound(data@, pos as int, n as nat);
        }
        if n == 8 {
            // 2^64 - magnitude, kept inside u64 arithmetic.
            (true, (u64::MAX - magnitude) + 1)
        } else {
            (true, pow256_u64(n) - magnitude)
        }
    } else {
        (false, magnitude)
    }
}

/// 256^n as a machine word, for 0 <= n <= 7.
fn pow256_u64(n: usize) -> (r: u64)
    requires
        n <= 7,
    ensures
        r == pow256(n as nat),
{
    proof {
        lemma_pow256_vals();
    }
    match n {
        0 => 1,
        1 => 0x100,
        2 => 0x1_0000,
        3 => 0x100_0000,
        4 => 0x1_0000_0000,
        5 => 0x100_0000_0000,
        6 => 0x1_0000_0000_0000,
        _ => 0x100_0000_0000_0000,
    }
}

/// A field whose last byte is at least 128 holds at least 128 * 256^(n-1).
proof fn lemma_le_high_byte_bound(s: Seq<u8>, pos: int, n: nat)
    requires
        n >= 1,
        s[pos + n - 1] >= 128,
    ensures
        le_bytes_at(s, pos, n) >= 128 * pow256((n - 1) as nat),
    decreases n,
{
    if n == 1 {
        assert(le_bytes_at(s, pos, 1) == s[pos] + 256 * le_bytes_at(s, pos + 1, 0));
    } else {
        lemma_le_high_byte_bound(s, pos + 1, (n - 1) as nat);
        assert(le_bytes_at(s, pos, n) >= 256 * le_bytes_at(s, pos + 1, (n - 1) as nat))
            by (nonlinear_arith)
            requires
                le_bytes_at(s, pos, n) == s[pos] + 256 * le_bytes_at(s, pos + 1, (n - 1) as nat),
                s[pos] >= 0,
        ;
        assert(256 * le_bytes_at(s, pos + 1, (n - 1) as nat) >= 256 * (128 * pow256(
            (n - 2) as nat,
        ))) by (nonlinear_arith)
            requires
                le_bytes_at(s, pos + 1, (n - 1) as nat) >= 128 * pow256((n - 2) as nat),
        ;
        assert(pow256((n - 1) as nat) == 256 * pow256((n - 2) as nat));
    }
}

} // verus!
