//! Packed fields of small integers.
use vstd::arithmetic::power2::pow2;
use vstd::prelude::*;

verus! {

/// Mask of the low `b` bits.
pub open spec fn low_mask(b: u128) -> u128 {
    ((1u128 << b) - 1) as u128
}

/// The `b`-bit field of `x` that starts at bit `s`.
pub open spec fn field(x: u128, s: u128, b: u128) -> u128 {
    (x >> s) & low_mask(b)
}

/// `x` with the `b`-bit field that starts at bit `s` replaced by `e`.
pub open spec fn with_field(x: u128, s: u128, b: u128, e: u128) -> u128 {
    (x & !(low_mask(b) << s)) | (e << s)
}

/// Bit `t` of `x`.
pub open spec fn bit(x: u128, t: u128) -> u128 {
    (x >> t) & 1
}

/// Replacing a field changes that field and no other bit.
pub proof fn lemma_with_field(x: u128, s: u128, b: u128, e: u128, t: u128)
    requires
        1 <= b <= 8,
        s + b <= 128,
        t + b <= 128,
        e < (1u128 << b),
        s + b <= t || t + b <= s || s == t,
    ensures
        field(with_field(x, s, b, e), t, b) == if s == t {
            e
        } else {
            field(x, t, b)
        },
{
    assert(field(with_field(x, s, b, e), t, b) == if s == t {
        e
    } else {
        field(x, t, b)
    }) by (bit_vector)
        requires
            1 <= b <= 8,
            s + b <= 128,
            t + b <= 128,
            e < (1u128 << b),
            s + b <= t || t + b <= s || s == t,
    ;
}

/// Replacing a field leaves the bits outside it.
pub proof fn lemma_with_field_bit(x: u128, s: u128, b: u128, e: u128, t: u128)
    requires
        1 <= b <= 8,
        s + b <= 128,
        t < 128,
        e < (1u128 << b),
        t < s || t >= s + b,
    ensures
        bit(with_field(x, s, b, e), t) == bit(x, t),
{
    assert(bit(with_field(x, s, b, e), t) == bit(x, t)) by (bit_vector)
        requires
            1 <= b <= 8,
            s + b <= 128,
            t < 128,
            e < (1u128 << b),
            t < s || t >= s + b,
    ;
}

/// A field is below `2^b`.
pub proof fn lemma_field_bound(x: u128, s: u128, b: u128)
    requires
        1 <= b <= 8,
    ensures
        field(x, s, b) < (1u128 << b),
{
    assert(field(x, s, b) < (1u128 << b)) by (bit_vector)
        requires
            1 <= b <= 8,
    ;
}

/// Returns the `b`-bit field of `x` that starts at bit `s`.
pub fn get_field(x: u128, s: u8, b: u8) -> (r: u128)
    requires
        1 <= b <= 8,
        s < 128,
    ensures
        r == field(x, s as u128, b as u128),
        r < (1u128 << b),
{
    proof {
        lemma_field_bound(x, s as u128, b as u128);
    }
    (x >> s) & ((1u128 << b) - 1)
}

/// Returns `x` with the `b`-bit field that starts at bit `s` replaced by `e`.
pub fn set_field(x: u128, s: u8, b: u8, e: u128) -> (r: u128)
    requires
        1 <= b <= 8,
        s + b <= 128,
        e < (1u128 << b),
    ensures
        r == with_field(x, s as u128, b as u128, e),
{
    (x & !(((1u128 << b) - 1) << s)) | (e << s)
}

/// Fields and bits below bit 32 survive truncation to `u32`.
pub proof fn lemma_truncate_u32(y: u128, s: u128, b: u128)
    requires
        1 <= b <= 8,
        s + b <= 32,
    ensures
        field((y as u32) as u128, s, b) == field(y, s, b),
{
    assert(field((y as u32) as u128, s, b) == field(y, s, b)) by (bit_vector)
        requires
            1 <= b <= 8,
            s + b <= 32,
    ;
}

/// Fields and bits below bit 64 survive truncation to `u64`.
pub proof fn lemma_truncate_u64(y: u128, s: u128, b: u128)
    requires
        1 <= b <= 8,
        s + b <= 64,
    ensures
        field((y as u64) as u128, s, b) == field(y, s, b),
        s < 64 ==> bit((y as u64) as u128, s) == bit(y, s),
{
    assert(field((y as u64) as u128, s, b) == field(y, s, b)) by (bit_vector)
        requires
            1 <= b <= 8,
            s + b <= 64,
    ;
    assert(s < 64 ==> bit((y as u64) as u128, s) == bit(y, s)) by (bit_vector);
}

/// Shifting `x` up by `b` bits and putting `v` below: the low field is `v`,
/// every field and bit above it is the one of `x` one field lower, and `0`
/// has no set bit.
pub proof fn lemma_shift_in(x: u64, v: u64, b: u64, s: u128)
    requires
        1 <= b <= 8,
        v == 0 || v < (1u64 << b),
        s < 64,
    ensures
        field(((x << b) | v) as u128, 0, b as u128) == v as u128,
        s + 2 * b <= 64 ==> field(((x << b) | v) as u128, (s + b) as u128, b as u128) == field(
            x as u128,
            s,
            b as u128,
        ),
        s + b < 64 ==> bit(((x << b) | v) as u128, (s + b) as u128) == bit(x as u128, s),
        bit(0u128, s) == 0,
        (1u64 << 1u64) == 2,
        (1u64 << 2u64) == 4,
{
    assert(field(((x << b) | v) as u128, 0, b as u128) == v as u128 && (s + 2 * b <= 64 ==> field(
        ((x << b) | v) as u128,
        (s + b) as u128,
        b as u128,
    ) == field(x as u128, s, b as u128)) && (s + b < 64 ==> bit(((x << b) | v) as u128, (s + b) as u128)
        == bit(x as u128, s)) && bit(0u128, s) == 0 && (1u64 << 1u64) == 2 && (1u64 << 2u64) == 4)
        by (bit_vector)
        requires
            1 <= b <= 8,
            v == 0 || v < (1u64 << b),
            s < 64,
    ;
}

/// The low `s + b` bits of `x` are its low `s` bits and the field of `b`
/// bits at `s`; a one-bit field is a bit.
pub proof fn lemma_low_mask_step(x: u128, s: u128, b: u128)
    requires
        1 <= b <= 8,
        s + b <= 128,
    ensures
        x & low_mask((s + b) as u128) == (x & low_mask(s)) | (field(x, s, b) << s),
        x & low_mask(0) == 0,
        field(x, s, 1) == bit(x, s),
        x < 0x1_0000_0000_0000_0000 ==> x & low_mask(64) == x,
        x < 0x1_0000_0000 ==> x & low_mask(32) == x,
        x < 0x1_0000 ==> x & low_mask(16) == x,
        x < 0x0100_0000_0000_0000 && 56 <= s ==> bit(x, s) == 0,
        x & low_mask(128) == x,
{
    assert(x & low_mask((s + b) as u128) == (x & low_mask(s)) | (field(x, s, b) << s) && x & low_mask(0)
        == 0 && field(x, s, 1) == bit(x, s) && (x < 0x1_0000_0000_0000_0000 ==> x & low_mask(64) == x)
        && (x < 0x1_0000_0000 ==> x & low_mask(32) == x) && (x < 0x1_0000 ==> x & low_mask(16) == x)
        && (x < 0x0100_0000_0000_0000 && 56 <= s ==> bit(x, s) == 0) && x & low_mask(128) == x)
        by (bit_vector)
        requires
            1 <= b <= 8,
            s + b <= 128,
    ;
}

/// Two numbers that agree below bit `base` and on `k` fields of `b` bits
/// from `base` agree below bit `base + k * b`.
pub proof fn lemma_low_fields_eq(x: u128, y: u128, base: nat, b: nat, k: nat)
    requires
        1 <= b <= 8,
        base + k * b <= 128,
        x & low_mask(base as u128) == y & low_mask(base as u128),
        forall|i: nat| i < k ==> field(x, (base + i * b) as u128, b as u128) == #[trigger] field(
            y,
            (base + i * b) as u128,
            b as u128,
        ),
    ensures
        x & low_mask((base + k * b) as u128) == y & low_mask((base + k * b) as u128),
    decreases k,
{
    if k > 0 {
        let k1 = (k - 1) as nat;
        assert(base + k1 * b + b == base + k * b && k1 * b <= k * b) by (nonlinear_arith)
            requires
                k1 == k - 1,
        ;
        lemma_low_fields_eq(x, y, base, b, k1);
        let s = (base + k1 * b) as u128;
        lemma_low_mask_step(x, s, b as u128);
        lemma_low_mask_step(y, s, b as u128);
        assert(field(x, s, b as u128) == field(y, s, b as u128));
    } else {
        assert(k * b == 0) by (nonlinear_arith)
            requires
                k == 0,
        ;
    }
}

/// Fields below bit 32 of a 64-bit number survive truncation to `u32`, and
/// those below bit 16 truncation to `u16`.
pub proof fn lemma_truncate_u64_u32(y: u64, s: u128, b: u128)
    requires
        1 <= b <= 8,
        s + b <= 64,
    ensures
        s + b <= 32 ==> field((y as u32) as u128, s, b) == field(y as u128, s, b),
        s + b <= 16 ==> field((y as u16) as u128, s, b) == field(y as u128, s, b),
        16 <= s ==> field((y as u16) as u128, s, b) == 0,
{
    assert((s + b <= 32 ==> field((y as u32) as u128, s, b) == field(y as u128, s, b)) && (s + b <= 16 ==> field(
        (y as u16) as u128,
        s,
        b,
    ) == field(y as u128, s, b)) && (16 <= s ==> field((y as u16) as u128, s, b) == 0)) by (bit_vector)
        requires
            1 <= b <= 8,
            s + b <= 64,
    ;
}

/// Setting bit `k` sets that bit and leaves the others; `0` has no set bit.
pub proof fn lemma_or_bit(x: u128, k: u128, i: u128)
    requires
        k < 128,
        i < 128,
    ensures
        bit(x | (1u128 << k), i) == if i == k {
            1u128
        } else {
            bit(x, i)
        },
        bit(x | 0u128, i) == bit(x, i),
        bit(0u128, i) == 0,
{
    assert(bit(x | (1u128 << k), i) == (if i == k {
        1u128
    } else {
        bit(x, i)
    }) && bit(x | 0u128, i) == bit(x, i) && bit(0u128, i) == 0) by (bit_vector)
        requires
            k < 128,
            i < 128,
    ;
}

/// The bits of `a | (b << 16)` for `a` below `2^16`: those of `a` below
/// bit 16, those of `b` from bit 16.
pub proof fn lemma_or_shift16(a: u128, b: u128, i: u128)
    requires
        a < 0x1_0000,
        i < 128,
    ensures
        i < 16 ==> bit(a | (b << 16u128), i) == bit(a, i),
        i >= 16 ==> bit(a | (b << 16u128), i) == bit(b, (i - 16) as u128),
{
    assert((i < 16 ==> bit(a | (b << 16u128), i) == bit(a, i)) && (i >= 16 ==> bit(a | (b << 16u128), i) == bit(
        b,
        (i - 16) as u128,
    ))) by (bit_vector)
        requires
            a < 0x1_0000,
            i < 128,
    ;
}

/// A bit of `x & y` is set exactly when it is set in both; a bit is `0` or
/// `1`; a 64-bit number has no bit from 64.
pub proof fn lemma_and_bits(x: u128, y: u128, a: u64, b: u64, i: u128)
    requires
        i < 128,
    ensures
        bit(x & y, i) == (if bit(x, i) == 1 && bit(y, i) == 1 {
            1u128
        } else {
            0u128
        }),
        bit(x, i) == 0 || bit(x, i) == 1,
        bit((a & b) as u128, i) == (if bit(a as u128, i) == 1 && bit(b as u128, i) == 1 {
            1u128
        } else {
            0u128
        }),
        i >= 64 ==> bit(a as u128, i) == 0,
{
    assert(bit(x & y, i) == (if bit(x, i) == 1 && bit(y, i) == 1 {
        1u128
    } else {
        0u128
    }) && (bit(x, i) == 0 || bit(x, i) == 1) && bit((a & b) as u128, i) == (if bit(a as u128, i) == 1 && bit(
        b as u128,
        i,
    ) == 1 {
        1u128
    } else {
        0u128
    }) && (i >= 64 ==> bit(a as u128, i) == 0)) by (bit_vector)
        requires
            i < 128,
    ;
}

/// The bitwise and of narrower numbers, widened, is the bitwise and of the
/// widened numbers.
pub proof fn lemma_and_widen(a: u16, b: u16, c: u32, d: u32, e: u64, f: u64)
    ensures
        ((a & b) as u128) == (a as u128) & (b as u128),
        ((c & d) as u128) == (c as u128) & (d as u128),
        ((e & f) as u128) == (e as u128) & (f as u128),
{
    assert(((a & b) as u128) == (a as u128) & (b as u128) && ((c & d) as u128) == (c as u128) & (d as u128) && ((e
        & f) as u128) == (e as u128) & (f as u128)) by (bit_vector);
}

/// Number of set bits of `x`.
pub open spec fn popcount(x: nat) -> nat
    decreases x,
{
    if x == 0 {
        0
    } else {
        popcount(x / 2) + x % 2
    }
}

/// Returns the number of set bits of `x`.
pub fn count_ones(x: u64) -> (r: u32)
    ensures
        r == popcount(x as nat),
{
    let mut y = x;
    let mut c: u32 = 0;
    proof {
        vstd::arithmetic::power2::lemma2_to64();
        lemma_popcount_bound(x as nat, 64);
    }
    while y != 0
        invariant
            c + popcount(y as nat) == popcount(x as nat),
            c <= 64,
            popcount(y as nat) + c <= 64,
        decreases y,
    {
        proof {
            assert(y & 1 == y % 2 && y >> 1 == y / 2) by (bit_vector);
        }
        c = c + (y & 1) as u32;
        y = y >> 1;
    }
    c
}

/// A 64-bit number has at most 64 set bits.
pub proof fn lemma_popcount_bound(x: nat, k: nat)
    requires
        x < pow2(k),
    ensures
        popcount(x) <= k,
    decreases k,
{
    if k > 0 && x > 0 {
        vstd::arithmetic::power2::lemma_pow2_unfold(k);
        lemma_popcount_bound(x / 2, (k - 1) as nat);
    } else if x > 0 {
        vstd::arithmetic::power2::lemma2_to64();
    }
}

} // verus!
