//! The mathematical model: a stream of bits laid over a sequence of bytes.
//!
//! Bit `k` of the stream is bit `k % 8` of byte `k / 8`, counted from the
//! least significant bit of each byte.

use vstd::arithmetic::power2::{lemma_pow2_pos, pow2};
use vstd::bits::lemma_u64_shr_is_div;
use vstd::prelude::*;

verus! {

/// Bit `j` of the byte `b`, counted from the least significant; false for
/// every `j` outside `0..8`.
pub open spec fn byte_bit(b: u8, j: int) -> bool {
    0 <= j < 8 && (b >> (j as u8)) & 1 == 1
}

/// Bit `i` of the word `v`, counted from the least significant; false for
/// every `i` outside `0..64`.
pub open spec fn word_bit(v: u64, i: int) -> bool {
    0 <= i < 64 && (v >> (i as u64)) & 1 == 1
}

/// The value `v` has no bit set at or above position `n`.
pub open spec fn fits(v: u64, n: u32) -> bool {
    n >= 64 || v >> n == 0
}

/// Bit `k` of the stream that `bytes` holds.
pub open spec fn bit_at(bytes: Seq<u8>, k: int) -> bool {
    byte_bit(bytes[k / 8], k % 8)
}

/// The first `n` bits of the stream that `bytes` holds.
pub open spec fn bitstream(bytes: Seq<u8>, n: nat) -> Seq<bool> {
    Seq::new(n, |k: int| bit_at(bytes, k))
}

/// All the bits of `bytes`, eight for each byte.
pub open spec fn all_bits(bytes: Seq<u8>) -> Seq<bool> {
    bitstream(bytes, 8 * bytes.len())
}

/// The low `n` bits of `v`, least significant first.
pub open spec fn value_bits(v: u64, n: nat) -> Seq<bool> {
    Seq::new(n, |i: int| word_bit(v, i))
}

/// A run of `n` clear bits.
pub open spec fn zero_bits(n: nat) -> Seq<bool> {
    Seq::new(n, |i: int| false)
}

/// A run of `n` zero bytes.
pub open spec fn zero_bytes(n: nat) -> Seq<u8> {
    Seq::new(n, |i: int| 0u8)
}

/// No bit of `bytes` at or above position `n` is set.
pub open spec fn clean_from(bytes: Seq<u8>, n: nat) -> bool {
    forall|k: int| n <= k < 8 * bytes.len() ==> !bit_at(bytes, k)
}

/// The `i`-th byte-wide slice of `rest`, counted from the least significant.
pub open spec fn slice(rest: u64, i: int) -> u8 {
    (rest >> ((8 * i) as u64)) as u8
}

/// `bytes` with the `count` bytes that follow index `first` replaced by the
/// slices of `rest`, the lowest slice first.
pub open spec fn with_slices(bytes: Seq<u8>, first: int, rest: u64, count: int) -> Seq<u8> {
    Seq::new(
        bytes.len(),
        |q: int|
            if first < q <= first + count {
                slice(rest, q - first - 1)
            } else {
                bytes[q]
            },
    )
}

/// `bytes` after the value `v` was laid down at bit position `at`: its low
/// bits are merged into the byte that holds position `at`, and the `count`
/// bytes after it are replaced by the slices of what is left of `v`.
pub open spec fn inserted(bytes: Seq<u8>, at: nat, v: u64, count: int) -> Seq<u8> {
    let first = (at / 8) as int;
    let off = (at % 8) as u32;
    with_slices(
        bytes.update(first, bytes[first] | ((v << off) as u8)),
        first,
        v >> ((8 - off) as u32),
        count,
    )
}

/// A value fits `n` bits exactly when it is below `2^n`.
pub proof fn lemma_fits_below(v: u64, n: u32)
    ensures
        fits(v, n) <==> n >= 64 || v < pow2(n as nat),
{
    if n < 64 {
        lemma_u64_shr_is_div(v, n as u64);
        lemma_pow2_pos(n as nat);
        let p = pow2(n as nat) as int;
        assert((v as int / p == 0) == (v < p)) by (nonlinear_arith)
            requires
                p > 0,
                v >= 0,
        ;
    }
}

/// A value that fits `n` bits has every bit from `n` on clear.
pub proof fn lemma_fits_clear(v: u64, n: u32, i: int)
    requires
        fits(v, n),
        n <= i,
    ensures
        !word_bit(v, i),
{
    if i < 64 {
        let s = i as u64;
        assert((v >> s) & 1 == 0) by (bit_vector)
            requires
                n <= s < 64,
                v >> n == 0,
        ;
    }
}

/// A byte is zero exactly when none of its eight bits is set.
pub proof fn lemma_zero_byte(b: u8)
    ensures
        b == 0 <==> (forall|j: int| 0 <= j < 8 ==> !byte_bit(b, j)),
{
    if b == 0 {
        assert forall|j: int| 0 <= j < 8 implies !byte_bit(b, j) by {
            let s = j as u8;
            assert((b >> s) & 1 == 0) by (bit_vector)
                requires
                    b == 0,
            ;
        }
    }
    if forall|j: int| 0 <= j < 8 ==> !byte_bit(b, j) {
        assert(!byte_bit(b, 0) && !byte_bit(b, 1) && !byte_bit(b, 2) && !byte_bit(b, 3));
        assert(!byte_bit(b, 4) && !byte_bit(b, 5) && !byte_bit(b, 6) && !byte_bit(b, 7));
        assert(b == 0) by (bit_vector)
            requires
                (b >> 0u8) & 1 != 1,
                (b >> 1u8) & 1 != 1,
                (b >> 2u8) & 1 != 1,
                (b >> 3u8) & 1 != 1,
                (b >> 4u8) & 1 != 1,
                (b >> 5u8) & 1 != 1,
                (b >> 6u8) & 1 != 1,
                (b >> 7u8) & 1 != 1,
        ;
    }
}

/// Merging the shifted value into a byte whose bits from `off` on are clear
/// keeps the bits below `off` and puts the value's low bits above them.
pub proof fn lemma_merged_byte(b: u8, v: u64, off: u32, j: int)
    requires
        off < 8,
        0 <= j < 8,
        forall|t: int| off <= t < 8 ==> !byte_bit(b, t),
    ensures
        byte_bit(b | ((v << off) as u8), j) == (if j < off {
            byte_bit(b, j)
        } else {
            word_bit(v, j - off)
        }),
{
    let s = j as u8;
    if j < off {
        assert(((b | ((v << off) as u8)) >> s) & 1 == (b >> s) & 1) by (bit_vector)
            requires
                s < off < 8,
        ;
    } else {
        let i = (j - off) as u64;
        assert(!byte_bit(b, j));
        assert(((b | ((v << off) as u8)) >> s) & 1 == (v >> i) & 1) by (bit_vector)
            requires
                off <= s < 8,
                i == s - off,
                (b >> s) & 1 != 1,
        ;
    }
}

/// Bit `j` of the `i`-th byte-wide slice of `v >> (8 - off)` is bit
/// `8 - off + 8 * i + j` of `v`.
pub proof fn lemma_slice_bit(v: u64, off: u32, i: int, j: int)
    requires
        off < 8,
        0 <= i < 8,
        0 <= j < 8,
    ensures
        byte_bit(slice(v >> ((8 - off) as u32), i), j) == word_bit(v, 8 - off + 8 * i + j),
{
    let s = j as u8;
    let first = (8 - off) as u32;
    let next = (8 * i) as u64;
    let at = (8 - off + 8 * i + j) as u64;
    assert((((((v >> first) >> next) as u8) >> s) & 1 == 1) == (at < 64 && (v >> at) & 1 == 1))
        by (bit_vector)
        requires
            off < 8,
            s < 8,
            first == 8 - off,
            next < 64,
            at == first + next + s,
    ;
}

/// Laying a value down at the end of a clean stream appends its bits and
/// leaves the stream clean, provided the bytes touched reach far enough to
/// hold all `n` bits.
pub proof fn lemma_inserted(bytes: Seq<u8>, at: nat, v: u64, n: u32, count: int)
    requires
        clean_from(bytes, at),
        fits(v, n),
        0 <= count <= 8,
        at / 8 + count < bytes.len(),
        at % 8 + n <= 8 * (count + 1),
    ensures
        inserted(bytes, at, v, count).len() == bytes.len(),
        bitstream(inserted(bytes, at, v, count), at + n as nat) == bitstream(bytes, at)
            + value_bits(v, n as nat),
        clean_from(inserted(bytes, at, v, count), at + n as nat),
{
    let after = inserted(bytes, at, v, count);
    let first = (at / 8) as int;
    let off = (at % 8) as u32;
    assert forall|k: int| 0 <= k < 8 * bytes.len() implies bit_at(after, k) == (if k < at {
        bit_at(bytes, k)
    } else {
        word_bit(v, k - at)
    }) by {
        let q = k / 8;
        let j = k % 8;
        if q == first {
            assert forall|t: int| off <= t < 8 implies !byte_bit(bytes[first], t) by {
                assert(!bit_at(bytes, 8 * first + t));
            }
            lemma_merged_byte(bytes[first], v, off, j);
        } else if first < q <= first + count {
            lemma_slice_bit(v, off, q - first - 1, j);
        } else if q > first + count {
            assert(!bit_at(bytes, k));
            lemma_fits_clear(v, n, k - at);
        }
    }
    assert(bitstream(after, at + n as nat) =~= bitstream(bytes, at) + value_bits(v, n as nat));
    assert forall|k: int| at + n <= k < 8 * after.len() implies !bit_at(after, k) by {
        lemma_fits_clear(v, n, k - at);
    }
}

/// In a clean stream every byte above the last bit in use is zero.
pub proof fn lemma_clean_bytes(bytes: Seq<u8>, n: nat)
    requires
        clean_from(bytes, n),
    ensures
        forall|p: int| (n + 7) / 8 <= p < bytes.len() ==> bytes[p] == 0u8,
{
    assert forall|p: int| (n + 7) / 8 <= p < bytes.len() implies bytes[p] == 0u8 by {
        assert forall|j: int| 0 <= j < 8 implies !byte_bit(bytes[p], j) by {
            assert(!bit_at(bytes, 8 * p + j));
        }
        lemma_zero_byte(bytes[p]);
    }
}

/// The bits of two runs of bytes, one after the other, are the bits of the
/// first run followed by the bits of the second.
pub proof fn lemma_all_bits_concat(a: Seq<u8>, b: Seq<u8>)
    ensures
        all_bits(a + b) == all_bits(a) + all_bits(b),
{
    assert forall|k: int| 0 <= k < 8 * (a.len() + b.len()) implies all_bits(a + b)[k] == (all_bits(
        a,
    ) + all_bits(b))[k] by {
        if k >= 8 * a.len() {
            assert((k - 8 * a.len()) / 8 == k / 8 - a.len());
            assert((k - 8 * a.len()) % 8 == k % 8);
        }
    }
    assert(all_bits(a + b) =~= all_bits(a) + all_bits(b));
}

/// Taking `w` whole bytes off the front of a clean stream: the bytes taken
/// hold its first `8 * w` bits, and the rest, moved to the front and
/// followed by zero bytes, is a clean stream of the bits that remain.
pub proof fn lemma_drained(bytes: Seq<u8>, n: nat, w: nat)
    requires
        clean_from(bytes, n),
        n <= 8 * bytes.len(),
        8 * w <= n,
    ensures
        all_bits(bytes.subrange(0, w as int)) + bitstream(
            bytes.skip(w as int) + zero_bytes(w),
            (n - 8 * w) as nat,
        ) == bitstream(bytes, n),
        clean_from(bytes.skip(w as int) + zero_bytes(w), (n - 8 * w) as nat),
{
    let head = bytes.subrange(0, w as int);
    let rest = bytes.skip(w as int) + zero_bytes(w);
    let left = (n - 8 * w) as nat;
    assert forall|k: int| 0 <= k < n implies (all_bits(head) + bitstream(rest, left))[k]
        == bitstream(bytes, n)[k] by {
        if k >= 8 * w {
            assert((k - 8 * w) / 8 == k / 8 - w);
            assert((k - 8 * w) % 8 == k % 8);
        }
    }
    assert(all_bits(head) + bitstream(rest, left) =~= bitstream(bytes, n));
    assert forall|k: int| left <= k < 8 * rest.len() implies !bit_at(rest, k) by {
        if k / 8 < bytes.len() - w {
            assert((k + 8 * w) / 8 == k / 8 + w);
            assert((k + 8 * w) % 8 == k % 8);
            assert(!bit_at(bytes, k + 8 * w));
        } else {
            lemma_zero_byte(0u8);
        }
    }
}

/// The bytes that hold a clean stream, taken whole, hold the stream and
/// then clear bits up to the end of the last byte.
pub proof fn lemma_padded(bytes: Seq<u8>, n: nat)
    requires
        clean_from(bytes, n),
        n <= 8 * bytes.len(),
    ensures
        all_bits(bytes.subrange(0, ((n + 7) / 8) as int)) == bitstream(bytes, n) + zero_bits(
            ((8 - n % 8) % 8) as nat,
        ),
{
    let used = bytes.subrange(0, ((n + 7) / 8) as int);
    let pad = ((8 - n % 8) % 8) as nat;
    assert forall|k: int| 0 <= k < 8 * used.len() implies all_bits(used)[k] == (bitstream(bytes, n)
        + zero_bits(pad))[k] by {
        if k >= n {
            assert(!bit_at(bytes, k));
        }
    }
    assert(all_bits(used) =~= bitstream(bytes, n) + zero_bits(pad));
}

/// In a run of zero bytes no bit is set.
pub proof fn lemma_zero_bytes_clean(n: nat)
    ensures
        clean_from(zero_bytes(n), 0),
{
    assert forall|k: int| 0 <= k < 8 * n implies !bit_at(zero_bytes(n), k) by {
        lemma_zero_byte(0u8);
    }
}

/// Two bytes with the same eight bits are the same byte.
pub proof fn lemma_same_byte(a: u8, b: u8)
    requires
        forall|j: int| 0 <= j < 8 ==> byte_bit(a, j) == byte_bit(b, j),
    ensures
        a == b,
{
    assert(byte_bit(a, 0) == byte_bit(b, 0) && byte_bit(a, 1) == byte_bit(b, 1));
    assert(byte_bit(a, 2) == byte_bit(b, 2) && byte_bit(a, 3) == byte_bit(b, 3));
    assert(byte_bit(a, 4) == byte_bit(b, 4) && byte_bit(a, 5) == byte_bit(b, 5));
    assert(byte_bit(a, 6) == byte_bit(b, 6) && byte_bit(a, 7) == byte_bit(b, 7));
    assert(a == b) by (bit_vector)
        requires
            ((a >> 0u8) & 1 == 1) == ((b >> 0u8) & 1 == 1),
            ((a >> 1u8) & 1 == 1) == ((b >> 1u8) & 1 == 1),
            ((a >> 2u8) & 1 == 1) == ((b >> 2u8) & 1 == 1),
            ((a >> 3u8) & 1 == 1) == ((b >> 3u8) & 1 == 1),
            ((a >> 4u8) & 1 == 1) == ((b >> 4u8) & 1 == 1),
            ((a >> 5u8) & 1 == 1) == ((b >> 5u8) & 1 == 1),
            ((a >> 6u8) & 1 == 1) == ((b >> 6u8) & 1 == 1),
            ((a >> 7u8) & 1 == 1) == ((b >> 7u8) & 1 == 1),
    ;
}

/// A clean stream pins its bytes: two runs of bytes of one length that hold
/// the same `n` bits and are both clean above them are the same bytes.
pub proof fn lemma_clean_determined(a: Seq<u8>, b: Seq<u8>, n: nat)
    requires
        a.len() == b.len(),
        n <= 8 * a.len(),
        clean_from(a, n),
        clean_from(b, n),
        bitstream(a, n) == bitstream(b, n),
    ensures
        a == b,
{
    assert forall|p: int| 0 <= p < a.len() implies a[p] == b[p] by {
        assert forall|j: int| 0 <= j < 8 implies byte_bit(a[p], j) == byte_bit(b[p], j) by {
            let k = 8 * p + j;
            assert(k / 8 == p && k % 8 == j);
            if k < n {
                assert(bitstream(a, n)[k] == bit_at(a, k));
                assert(bitstream(b, n)[k] == bit_at(b, k));
            } else {
                assert(!bit_at(a, k) && !bit_at(b, k));
            }
        }
        lemma_same_byte(a[p], b[p]);
    }
    assert(a =~= b);
}

/// However many bytes are stored behind the cursor's byte, as long as they
/// reach far enough to hold the value, the bytes that result are the same.
pub proof fn lemma_inserted_any_count(
    bytes: Seq<u8>,
    at: nat,
    v: u64,
    n: u32,
    count: int,
    other: int,
)
    requires
        clean_from(bytes, at),
        fits(v, n),
        0 <= count <= 8,
        0 <= other <= 8,
        at / 8 + count < bytes.len(),
        at / 8 + other < bytes.len(),
        at % 8 + n <= 8 * (count + 1),
        at % 8 + n <= 8 * (other + 1),
    ensures
        inserted(bytes, at, v, count) == inserted(bytes, at, v, other),
{
    lemma_inserted(bytes, at, v, n, count);
    lemma_inserted(bytes, at, v, n, other);
    lemma_clean_determined(
        inserted(bytes, at, v, count),
        inserted(bytes, at, v, other),
        at + n as nat,
    );
}

} // verus!
