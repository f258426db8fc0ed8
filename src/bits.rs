//! Arithmetic on bit positions: powers of two, the width of a palette index,
//! and little-endian words.

use vstd::prelude::*;
use vstd::arithmetic::div_mod::lemma_mod_breakdown;
use vstd::arithmetic::power2::{lemma_pow2, lemma_pow2_unfold, pow2};
use vstd::bits::lemma_u64_shr_is_div;

verus! {

/// Two to the power `k`.
pub open spec fn two_pow(k: nat) -> nat
    decreases k,
{
    if k == 0 {
        1
    } else {
        2 * two_pow((k - 1) as nat)
    }
}

pub proof fn lemma_two_pow_grows(i: nat, j: nat)
    requires
        i < j,
    ensures
        two_pow(i) < two_pow(j),
    decreases j,
{
    lemma_two_pow_positive(i);
    if i + 1 < j {
        lemma_two_pow_grows(i, (j - 1) as nat);
    }
}

pub proof fn lemma_two_pow_64()
    ensures
        two_pow(64) == 0x1_0000_0000_0000_0000,
{
    reveal_with_fuel(two_pow, 65);
}

/// `ceil(log2(n))`, with 0 for both 0 and 1.
pub open spec fn ceil_log2(n: nat) -> nat
    decreases n,
{
    if n <= 1 {
        0
    } else {
        1 + ceil_log2(((n + 1) / 2) as nat)
    }
}

/// `b` is the least width whose values cover `0..n`: the defining property of
/// `ceil_log2`.
pub open spec fn is_least_width(n: nat, b: nat) -> bool {
    if n <= 1 {
        b == 0
    } else {
        b >= 1 && two_pow((b - 1) as nat) < n && n <= two_pow(b)
    }
}

pub proof fn lemma_two_pow_positive(k: nat)
    ensures
        two_pow(k) >= 1,
    decreases k,
{
    if k > 0 {
        lemma_two_pow_positive((k - 1) as nat);
    }
}

/// Any least width of `n` is `ceil_log2(n)`.
pub proof fn lemma_least_width_is_ceil_log2(n: nat, b: nat)
    requires
        is_least_width(n, b),
    ensures
        ceil_log2(n) == b,
    decreases b,
{
    if n > 1 {
        let h = ((n + 1) / 2) as nat;
        assert(ceil_log2(n) == 1 + ceil_log2(h));
        if b == 1 {
            assert(two_pow(1) == 2) by {
                reveal_with_fuel(two_pow, 2);
            }
            assert(h == 1);
            assert(ceil_log2(h) == 0);
        } else {
            let c = (b - 1) as nat;
            assert(two_pow(b) == 2 * two_pow(c));
            assert(two_pow(c) == 2 * two_pow((c - 1) as nat));
            lemma_two_pow_positive((c - 1) as nat);
            assert(is_least_width(h, c));
            lemma_least_width_is_ceil_log2(h, c);
        }
    }
}

/// The unsigned number whose little-endian bytes are `s`.
pub open spec fn le_value(s: Seq<u8>) -> nat
    decreases s.len(),
{
    if s.len() == 0 {
        0
    } else {
        s[0] as nat + 256 * le_value(s.drop_first())
    }
}

/// 256 to the power `k`.
pub open spec fn byte_pow(k: nat) -> nat
    decreases k,
{
    if k == 0 {
        1
    } else {
        256 * byte_pow((k - 1) as nat)
    }
}

/// The `k` low bytes of `v`, least significant first.
pub open spec fn le_bytes(v: nat, k: nat) -> Seq<u8>
    decreases k,
{
    if k == 0 {
        Seq::empty()
    } else {
        seq![(v % 256) as u8] + le_bytes(v / 256, (k - 1) as nat)
    }
}

/// `k` little-endian bytes hold `v` modulo `256^k`.
pub proof fn lemma_le_bytes(v: nat, k: nat)
    ensures
        le_bytes(v, k).len() == k,
        le_value(le_bytes(v, k)) == v % byte_pow(k),
    decreases k,
{
    if k > 0 {
        let rest = le_bytes(v / 256, (k - 1) as nat);
        lemma_le_bytes(v / 256, (k - 1) as nat);
        let s = le_bytes(v, k);
        assert(s.drop_first() =~= rest);
        lemma_byte_pow_positive((k - 1) as nat);
        lemma_mod_breakdown(v as int, 256, byte_pow((k - 1) as nat) as int);
    }
}

pub proof fn lemma_byte_pow_positive(k: nat)
    ensures
        byte_pow(k) >= 1,
    decreases k,
{
    if k > 0 {
        lemma_byte_pow_positive((k - 1) as nat);
    }
}

pub proof fn lemma_byte_pow_grows(i: nat, j: nat)
    requires
        i <= j,
    ensures
        byte_pow(i) <= byte_pow(j),
    decreases j,
{
    if i < j {
        lemma_byte_pow_grows(i, (j - 1) as nat);
    }
}

pub proof fn lemma_byte_pow_8()
    ensures
        byte_pow(8) == 0x1_0000_0000_0000_0000,
{
    reveal_with_fuel(byte_pow, 9);
}

pub proof fn lemma_le_value_bound(s: Seq<u8>)
    ensures
        le_value(s) < byte_pow(s.len()),
    decreases s.len(),
{
    if s.len() > 0 {
        lemma_le_value_bound(s.drop_first());
    }
}

/// The least width of `n`, `ceil(log2(n))`, counted up without rounding.
pub fn ceil_log2_exec(n: usize) -> (r: u32)
    ensures
        r == ceil_log2(n as nat),
        is_least_width(n as nat, r as nat),
        r <= 64,
{
    let mut b: u32 = 0;
    let mut cap: u128 = 1;
    while cap < n as u128
        invariant
            cap == two_pow(b as nat),
            cap >= 1,
            b == 0 || two_pow((b - 1) as nat) < n,
            b <= 64,
            cap <= 2 * (n as u128) || b == 0,
        decreases 64 - b,
    {
        proof {
            lemma_two_pow_64();
            if b >= 64 {
                if b > 64 {
                    lemma_two_pow_grows(64, b as nat);
                }
                assert(false);
            }
        }
        cap = cap * 2;
        b = b + 1;
    }
    proof {
        if n > 1 {
            assert(b >= 1);
        }
        lemma_least_width_is_ceil_log2(n as nat, b as nat);
    }
    b
}

/// Bit `j` of `v`.
pub open spec fn value_bit(v: u64, j: nat) -> nat {
    ((v >> (j as u64)) & 1u64) as nat
}

/// The number formed by the low `w` bits of `v`, bit by bit.
pub open spec fn bits_value(v: u64, w: nat) -> nat
    decreases w,
{
    if w == 0 {
        0
    } else {
        bits_value(v, (w - 1) as nat) + value_bit(v, (w - 1) as nat) * two_pow((w - 1) as nat)
    }
}

pub proof fn lemma_two_pow_is_pow2(k: nat)
    ensures
        two_pow(k) == pow2(k),
    decreases k,
{
    if k == 0 {
        lemma_pow2(0);
        reveal(vstd::arithmetic::power::pow);
    } else {
        lemma_two_pow_is_pow2((k - 1) as nat);
        lemma_pow2_unfold(k);
    }
}

/// The low `w` bits of `v`, summed bit by bit, are `v` modulo `2^w`.
pub proof fn lemma_bits_value(v: u64, w: nat)
    requires
        w <= 64,
    ensures
        bits_value(v, w) == v as nat % two_pow(w),
    decreases w,
{
    if w > 0 {
        let k = (w - 1) as nat;
        lemma_bits_value(v, k);
        lemma_two_pow_positive(k);
        lemma_two_pow_is_pow2(k);
        lemma_u64_shr_is_div(v, k as u64);
        let sh = v >> (k as u64);
        assert(sh & 1u64 == sh % 2) by (bit_vector);
        assert(value_bit(v, k) == (v as nat / two_pow(k)) % 2);
        lemma_mod_breakdown(v as int, two_pow(k) as int, 2);
        assert(two_pow(w) == two_pow(k) * 2);
        assert(bits_value(v, w) == bits_value(v, k) + value_bit(v, k) * two_pow(k));
        assert(v as nat % two_pow(w) == two_pow(k) * ((v as nat / two_pow(k)) % 2) + v as nat
            % two_pow(k));
    }
}

/// Setting or clearing bit `k` of a byte leaves its other bits as they were.
pub proof fn lemma_byte_bit_update(b: u8, k: u8, i: u8)
    requires
        k < 8,
        i < 8,
    ensures
        ((b | (1u8 << k)) >> i) & 1u8 == (if i == k {
            1u8
        } else {
            (b >> i) & 1u8
        }),
        ((b & !(1u8 << k)) >> i) & 1u8 == (if i == k {
            0u8
        } else {
            (b >> i) & 1u8
        }),
        (b >> i) & 1u8 <= 1,
{
    assert(((b | (1u8 << k)) >> i) & 1u8 == (if i == k {
        1u8
    } else {
        (b >> i) & 1u8
    })) by (bit_vector)
        requires
            k < 8,
            i < 8,
    ;
    assert(((b & !(1u8 << k)) >> i) & 1u8 == (if i == k {
        0u8
    } else {
        (b >> i) & 1u8
    })) by (bit_vector)
        requires
            k < 8,
            i < 8,
    ;
    assert((b >> i) & 1u8 <= 1) by (bit_vector);
}

/// Appends the eight little-endian bytes of `v`.
pub fn push_le_u64(buf: &mut Vec<u8>, v: u64)
    ensures
        final(buf)@ == old(buf)@ + le_bytes(v as nat, 8),
{
    let mut x: u64 = v;
    let mut k: usize = 0;
    while k < 8
        invariant
            k <= 8,
            buf@ + le_bytes(x as nat, (8 - k) as nat) == old(buf)@ + le_bytes(v as nat, 8),
        decreases 8 - k,
    {
        let ghost before = buf@;
        buf.push((x % 256) as u8);
        proof {
            let m = (8 - k) as nat;
            assert(le_bytes(x as nat, m) == seq![(x as nat % 256) as u8] + le_bytes(
                (x / 256) as nat,
                (m - 1) as nat,
            ));
            assert(buf@ + le_bytes((x / 256) as nat, (m - 1) as nat) =~= before + le_bytes(
                x as nat,
                m,
            ));
        }
        x = x / 256;
        k = k + 1;
    }
    assert(buf@ =~= buf@ + le_bytes(x as nat, 0));
}

/// The little-endian word in `bytes[start..start + 8]`.
pub fn read_le_u64(bytes: &Vec<u8>, start: usize) -> (r: u64)
    requires
        start + 8 <= bytes@.len(),
    ensures
        r == le_value(bytes@.subrange(start as int, start + 8)),
{
    let len = bytes.len();
    let mut acc: u128 = 0;
    let mut j: usize = 8;
    proof {
        lemma_byte_pow_8();
        assert(bytes@.subrange(start + 8, start + 8).len() == 0);
    }
    while j > 0
        invariant
            j <= 8,
            start + 8 <= bytes@.len(),
            len == bytes@.len(),
            acc == le_value(bytes@.subrange(start + j, start + 8)),
            acc < byte_pow((8 - j) as nat),
            byte_pow(8) == 0x1_0000_0000_0000_0000,
        decreases j,
    {
        let ghost prev = bytes@.subrange(start + j, start + 8);
        j = j - 1;
        let b = bytes[start + j];
        proof {
            let cur = bytes@.subrange(start + j, start + 8);
            assert(cur.drop_first() =~= prev);
            assert(cur[0] == b);
            lemma_le_value_bound(cur);
            lemma_byte_pow_grows((7 - j) as nat, 8);
            lemma_byte_pow_grows((8 - j) as nat, 8);
        }
        acc = (b as u128) + 256 * acc;
    }
    acc as u64
}

} // verus!
