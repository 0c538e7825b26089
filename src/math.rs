//! Bit and byte arithmetic shared by the packing engine.
//!
//! A byte sequence is read as the little-endian digits of a natural number:
//! byte `i` weighs `2^(8 * i)`, and bit `j` of byte `i` is bit `8 * i + j` of
//! the number.

use vstd::arithmetic::power2::{
    lemma2_to64, lemma_pow2_adds, lemma_pow2_pos, lemma_pow2_strictly_increases, lemma_pow2_unfold,
    pow2,
};
use vstd::bits::lemma_u16_shl_is_mul;
use vstd::prelude::*;

verus! {

/// The natural number whose little-endian bytes are `s`.
pub open spec fn le_value(s: Seq<u8>) -> nat
    decreases s.len(),
{
    if s.len() == 0 {
        0
    } else {
        s[0] as nat + 256 * le_value(s.drop_first())
    }
}

/// `ceil(a / b)` on naturals.
pub open spec fn ceil_div(a: nat, b: nat) -> nat
    recommends
        b > 0,
{
    ((a + b - 1) as nat / b) as nat
}

/// The number of bits needed to give `n` values distinct patterns: the
/// smallest `k` with `n <= 2^k`.
pub open spec fn bit_width_for(n: nat) -> nat
    decreases n,
{
    if n <= 1 {
        0
    } else {
        1 + bit_width_for(((n + 1) / 2) as nat)
    }
}

/// `pow2(8 * (n + 1)) == 256 * pow2(8 * n)`.
pub proof fn lemma_pow2_byte_step(n: nat)
    ensures
        pow2(8 * (n + 1)) == 256 * pow2(8 * n),
{
    lemma_pow2_adds(8 * n, 8);
    lemma2_to64();
    assert(8 * (n + 1) == 8 * n + 8) by (nonlinear_arith);
}

/// The value of a sequence is below `2^(8 * len)`.
pub proof fn lemma_le_value_bound(s: Seq<u8>)
    ensures
        le_value(s) < pow2(8 * s.len()),
    decreases s.len(),
{
    if s.len() == 0 {
        lemma2_to64();
    } else {
        let t = s.drop_first();
        lemma_le_value_bound(t);
        lemma_pow2_byte_step(t.len());
        assert(le_value(s) == s[0] as nat + 256 * le_value(t));
        assert(s[0] as nat + 256 * le_value(t) < 256 * pow2(8 * t.len())) by (nonlinear_arith)
            requires
                le_value(t) < pow2(8 * t.len()),
                s[0] < 256,
        ;
        assert(8 * s.len() == 8 * (t.len() + 1));
    }
}

/// The value of a concatenation.
pub proof fn lemma_le_value_concat(a: Seq<u8>, b: Seq<u8>)
    ensures
        le_value(a + b) == le_value(a) + pow2(8 * a.len()) * le_value(b),
    decreases a.len(),
{
    if a.len() == 0 {
        assert(a + b =~= b);
        lemma2_to64();
    } else {
        let t = a.drop_first();
        assert((a + b).drop_first() =~= t + b);
        lemma_le_value_concat(t, b);
        lemma_pow2_byte_step(t.len());
        assert(8 * a.len() == 8 * (t.len() + 1));
        let p = pow2(8 * t.len());
        assert(a[0] as nat + 256 * (le_value(t) + p * le_value(b)) == (a[0] as nat + 256
            * le_value(t)) + (256 * p) * le_value(b)) by (nonlinear_arith);
    }
}

/// A single byte is its own value.
pub proof fn lemma_le_value_single(b: u8)
    ensures
        le_value(seq![b]) == b,
{
    assert(seq![b].drop_first() =~= Seq::<u8>::empty());
    assert(le_value(Seq::<u8>::empty()) == 0);
    assert(le_value(seq![b]) == b as nat + 256 * le_value(seq![b].drop_first()));
}

/// Appending one byte.
pub proof fn lemma_le_value_push(s: Seq<u8>, b: u8)
    ensures
        le_value(s.push(b)) == le_value(s) + pow2(8 * s.len()) * b,
{
    assert(s.push(b) =~= s + seq![b]);
    lemma_le_value_concat(s, seq![b]);
    assert(le_value(seq![b]) == b) by {
        assert(seq![b].drop_first() =~= Seq::<u8>::empty());
        assert(le_value(Seq::<u8>::empty()) == 0);
        assert(le_value(seq![b]) == b as nat + 256 * le_value(seq![b].drop_first()));
    }
}

/// Trailing zero bytes do not change the value.
pub proof fn lemma_le_value_zeros(s: Seq<u8>, n: nat)
    ensures
        le_value(s + Seq::new(n, |i: int| 0u8)) == le_value(s),
    decreases n,
{
    let z = Seq::new(n, |i: int| 0u8);
    if n == 0 {
        assert(s + z =~= s);
    } else {
        let z1 = Seq::new((n - 1) as nat, |i: int| 0u8);
        assert(s + z =~= (s + z1).push(0u8));
        lemma_le_value_push(s + z1, 0u8);
        lemma_le_value_zeros(s, (n - 1) as nat);
    }
}

/// A prefix of `m` bytes holds the value modulo `2^(8 * m)`; the rest of the
/// value sits above it.
pub proof fn lemma_le_value_prefix(s: Seq<u8>, m: nat)
    requires
        m <= s.len(),
    ensures
        le_value(s) == le_value(s.subrange(0, m as int)) + pow2(8 * m) * le_value(
            s.subrange(m as int, s.len() as int),
        ),
        le_value(s.subrange(0, m as int)) == le_value(s) % pow2(8 * m),
{
    let a = s.subrange(0, m as int);
    let b = s.subrange(m as int, s.len() as int);
    assert(s =~= a + b);
    lemma_le_value_concat(a, b);
    lemma_le_value_bound(a);
    lemma_pow2_pos(8 * m);
    assert(le_value(s) == le_value(b) * pow2(8 * m) + le_value(a)) by (nonlinear_arith)
        requires
            le_value(s) == le_value(a) + pow2(8 * m) * le_value(b),
    ;
    vstd::arithmetic::div_mod::lemma_fundamental_div_mod_converse(
        le_value(s) as int,
        pow2(8 * m) as int,
        le_value(b) as int,
        le_value(a) as int,
    );
}

/// Unsigned division of `lhs` by `rhs`, rounding up.
pub fn div_ceil(lhs: usize, rhs: usize) -> (r: usize)
    requires
        rhs > 0,
    ensures
        r == ceil_div(lhs as nat, rhs as nat),
{
    let x = lhs / rhs;
    if lhs % rhs != 0 {
        proof {
            assert((lhs as int + rhs as int - 1) / rhs as int == x + 1) by (nonlinear_arith)
                requires
                    lhs % rhs != 0,
                    x == lhs / rhs,
                    rhs > 0,
            ;
            assert(x * rhs <= lhs) by (nonlinear_arith)
                requires
                    x == lhs / rhs,
                    rhs > 0,
            ;
            assert(x < usize::MAX) by (nonlinear_arith)
                requires
                    x * rhs <= lhs,
                    lhs % rhs != 0,
                    rhs > 0,
                    lhs <= usize::MAX,
                    x == lhs / rhs,
            ;
        }
        x + 1
    } else {
        proof {
            assert((lhs as int + rhs as int - 1) / rhs as int == x) by (nonlinear_arith)
                requires
                    lhs % rhs == 0,
                    x == lhs / rhs,
                    rhs > 0,
            ;
        }
        x
    }
}

/// Shifts `lhs` left by `rhs` bits, returning the byte that remains together
/// with the bits shifted out at the top, moved down to the low end.
pub fn shl_with_carry(lhs: u8, rhs: u8) -> (r: (u8, u8))
    requires
        rhs <= 8,
    ensures
        r.0 as nat + 256 * r.1 as nat == lhs as nat * pow2(rhs as nat),
        rhs == 0 ==> r.1 == 0,
        rhs == 8 ==> r.0 == 0,
        0 < rhs < 8 ==> r.0 == lhs << rhs && r.1 == lhs >> ((8 - rhs) as u8),
{
    proof {
        lemma2_to64();
    }
    if rhs == 8 {
        (0, lhs)
    } else if rhs == 0 {
        (lhs, 0)
    } else {
        let lo = lhs << rhs;
        let hi = lhs >> (8 - rhs);
        proof {
            let x = lhs as u16;
            let s = rhs as u16;
            assert((x << s) == (lo as u16) + (hi as u16) * 256) by (bit_vector)
                requires
                    x == lhs as u16,
                    s == rhs as u16,
                    0 < rhs < 8,
                    lo == lhs << rhs,
                    hi == lhs >> ((8 - rhs) as u8),
            ;
            lemma_pow2_strictly_increases(s as nat, 8);
            assert(x * pow2(s as nat) <= u16::MAX) by (nonlinear_arith)
                requires
                    x < 256,
                    pow2(s as nat) < 256,
            ;
            lemma_u16_shl_is_mul(x, s);
        }
        (lo, hi)
    }
}

/// Shifts the little-endian number held in `v` left by `n` bits.
///
/// Whole bytes of the shift become leading zero bytes. When `n` is not a
/// multiple of 8, one more byte is always appended for the bits carried out of
/// the top, even when they are all zero.
pub fn vec_shl(v: Vec<u8>, n: u8) -> (r: Vec<u8>)
    ensures
        le_value(r@) == le_value(v@) * pow2(n as nat),
        r@.len() == v@.len() + n as nat / 8 + (if n % 8 != 0 { 1nat } else { 0nat }),
{
    let k: u8 = n % 8;
    let q: u8 = n / 8;
    let mut r: Vec<u8> = Vec::new();
    let mut j: u8 = 0;
    while j < q
        invariant
            j <= q,
            r@ == Seq::new(j as nat, |i: int| 0u8),
        decreases q - j,
    {
        r.push(0);
        j = j + 1;
        proof {
            assert(r@ =~= Seq::new(j as nat, |i: int| 0u8));
        }
    }
    proof {
        lemma_le_value_zeros(Seq::<u8>::empty(), q as nat);
        assert(Seq::<u8>::empty() + Seq::new(q as nat, |i: int| 0u8) =~= r@);
        assert(le_value(Seq::<u8>::empty()) == 0);
        lemma2_to64();
        assert(v@.subrange(0, 0) =~= Seq::<u8>::empty());
        assert(pow2(8 * q as nat) * 0 == 0);
        assert(0 * pow2((8 * q + k) as nat) == 0);
    }
    let mut carry_in: u8 = 0;
    let mut i: usize = 0;
    while i < v.len()
        invariant
            0 <= k < 8,
            k == n % 8,
            q == n / 8,
            i <= v@.len(),
            r@.len() == q + i,
            k == 0 ==> carry_in == 0,
            0 < k ==> i == 0 ==> carry_in == 0,
            0 < k ==> i > 0 ==> carry_in == v@[i - 1] >> ((8 - k) as u8),
            le_value(r@) + pow2(8 * (q + i) as nat) * carry_in == le_value(v@.subrange(0, i as int))
                * pow2((8 * q + k) as nat),
        decreases v.len() - i,
    {
        let b = v[i];
        let (shifted, carry_out) = shl_with_carry(b, k);
        let byte = shifted | carry_in;
        proof {
            if k > 0 {
                if i > 0 {
                    let p = v@[i - 1];
                    assert((shifted | carry_in) as nat == shifted as nat + carry_in as nat)
                        by (bit_vector)
                        requires
                            shifted == b << k,
                            carry_in == p >> ((8 - k) as u8),
                            0 < k < 8,
                    ;
                } else {
                    assert((shifted | 0u8) == shifted) by (bit_vector);
                }
            } else {
                assert((shifted | 0u8) == shifted) by (bit_vector);
            }
            assert(byte as nat == shifted as nat + carry_in as nat);
            let old_r = r@;
            let m = (q + i) as nat;
            lemma_le_value_push(old_r, byte);
            lemma_pow2_byte_step(m);
            let pre = v@.subrange(0, i as int);
            assert(v@.subrange(0, i + 1) =~= pre.push(b));
            lemma_le_value_push(pre, b);
            lemma_pow2_adds(8 * i as nat, (8 * q + k) as nat);
            lemma_pow2_adds(8 * m, k as nat);
            assert(8 * m + k == 8 * i + (8 * q + k));
            let pm = pow2(8 * m);
            let pk = pow2(k as nat);
            let pi = pow2(8 * i as nat);
            let pqk = pow2((8 * q + k) as nat);
            assert(pm * pk == pi * pqk);
            assert(le_value(old_r) + pm * carry_in == le_value(pre) * pqk);
            assert(shifted as nat + 256 * carry_out as nat == b as nat * pk);
            assert(le_value(old_r) + pm * byte + (256 * pm) * carry_out == (le_value(pre) + pi * b)
                * pqk) by (nonlinear_arith)
                requires
                    le_value(old_r) + pm * carry_in == le_value(pre) * pqk,
                    shifted as nat + 256 * carry_out as nat == b as nat * pk,
                    byte as nat == shifted as nat + carry_in as nat,
                    pm * pk == pi * pqk,
            ;
        }
        r.push(byte);
        carry_in = carry_out;
        i = i + 1;
        proof {
            assert(8 * (q + i) as nat == 8 * ((q + i - 1) as nat + 1));
        }
    }
    proof {
        assert(v@.subrange(0, v@.len() as int) =~= v@);
        lemma_pow2_adds(8 * q as nat, k as nat);
        assert(8 * q + k == n) by {
            assert(n == 8 * (n / 8) + n % 8);
        }
    }
    if k != 0 {
        proof {
            lemma_le_value_push(r@, carry_in);
        }
        r.push(carry_in);
    } else {
        proof {
            assert(pow2(8 * (q + i) as nat) * carry_in == 0) by (nonlinear_arith)
                requires
                    carry_in == 0,
            ;
        }
    }
    r
}

/// The number of bits needed to store `n` distinct bit patterns.
pub fn required_bit_width(n: usize) -> (r: usize)
    ensures
        r == bit_width_for(n as nat),
        n as nat <= pow2(r as nat),
        r == 0 || pow2((r - 1) as nat) < n,
        r <= 64,
{
    let mut k: usize = 0;
    let mut p: u128 = 1;
    proof {
        lemma2_to64();
        lemma_bit_width_for_bounds(n as nat);
    }
    while p < n as u128
        invariant
            p == pow2(k as nat),
            k <= 64,
            k == 0 || pow2((k - 1) as nat) < n,
            n <= usize::MAX,
            pow2(64) == 0x1_0000_0000_0000_0000,
        decreases 64 - k,
    {
        proof {
            if k == 64 {
                assert(p >= n);
            }
            lemma_pow2_unfold((k + 1) as nat);
        }
        p = p * 2;
        k = k + 1;
    }
    proof {
        lemma_bit_width_for_unique(n as nat, k as nat);
    }
    k
}

/// `bit_width_for` is the least exponent whose power covers `n`.
proof fn lemma_bit_width_for_bounds(n: nat)
    ensures
        n <= pow2(bit_width_for(n)),
        bit_width_for(n) == 0 || pow2((bit_width_for(n) - 1) as nat) < n,
    decreases n,
{
    lemma2_to64();
    if n > 1 {
        let h = ((n + 1) / 2) as nat;
        lemma_bit_width_for_bounds(h);
        let w = bit_width_for(h);
        lemma_pow2_unfold(w + 1);
        if w > 0 {
            lemma_pow2_unfold(w);
        }
    }
}

/// Any exponent with the two bounds is `bit_width_for(n)`.
pub proof fn lemma_bit_width_for_unique(n: nat, k: nat)
    requires
        n <= pow2(k),
        k == 0 || pow2((k - 1) as nat) < n,
    ensures
        k == bit_width_for(n),
{
    lemma_bit_width_for_bounds(n);
    let w = bit_width_for(n);
    if k < w {
        if k + 1 < w {
            lemma_pow2_strictly_increases(k, (w - 1) as nat);
        }
    } else if w < k {
        if w < (k - 1) as nat {
            lemma_pow2_strictly_increases(w, (k - 1) as nat);
        }
    }
}

/// A byte with the low `n` bits set.
pub fn low_mask(n: u8) -> (r: u8)
    requires
        n <= 8,
    ensures
        r as nat == pow2(n as nat) - 1,
{
    proof {
        lemma2_to64();
    }
    if n == 8 {
        0xff
    } else if n == 0 {
        0
    } else {
        let r = 0xffu8 >> (8 - n);
        proof {
            assert(r == 0xffu8 >> ((8 - n) as u8));
            if n == 0 {
                assert(0xffu8 >> 8u8 == 0) by (bit_vector);
            } else if n == 1 {
                assert(0xffu8 >> 7u8 == 1) by (bit_vector);
            } else if n == 2 {
                assert(0xffu8 >> 6u8 == 3) by (bit_vector);
            } else if n == 3 {
                assert(0xffu8 >> 5u8 == 7) by (bit_vector);
            } else if n == 4 {
                assert(0xffu8 >> 4u8 == 15) by (bit_vector);
            } else if n == 5 {
                assert(0xffu8 >> 3u8 == 31) by (bit_vector);
            } else if n == 6 {
                assert(0xffu8 >> 2u8 == 63) by (bit_vector);
            } else {
                assert(0xffu8 >> 1u8 == 127) by (bit_vector);
            }
        }
        r
    }
}

/// The `n` low-order little-endian bytes of `x`.
pub fn le_bytes(x: u64, n: usize) -> (r: Vec<u8>)
    ensures
        r@.len() == n,
        le_value(r@) == x as nat % pow2(8 * n as nat),
{
    let mut r: Vec<u8> = Vec::new();
    let mut rest: u64 = x;
    let mut i: usize = 0;
    proof {
        lemma2_to64();
        assert(le_value(r@) == 0);
        assert(8 * i as nat == 0);
        assert(pow2(0) == 1);
        assert(pow2(8 * i as nat) * rest == rest);
    }
    while i < n
        invariant
            i <= n,
            r@.len() == i,
            x as nat == le_value(r@) + pow2(8 * i as nat) * rest,
        decreases n - i,
    {
        let b = (rest % 256) as u8;
        proof {
            lemma_le_value_push(r@, b);
            lemma_pow2_byte_step(i as nat);
            let p = pow2(8 * i as nat);
            assert(p * rest == p * b + (256 * p) * (rest / 256)) by (nonlinear_arith)
                requires
                    b == rest % 256,
            ;
        }
        r.push(b);
        rest = rest / 256;
        i = i + 1;
        proof {
            assert(8 * i as nat == 8 * ((i - 1) as nat + 1));
        }
    }
    proof {
        lemma_le_value_bound(r@);
        lemma_pow2_pos(8 * n as nat);
        let p = pow2(8 * n as nat);
        assert(x as int == rest as int * p as int + le_value(r@) as int) by (nonlinear_arith)
            requires
                x as nat == le_value(r@) + p * rest,
        ;
        vstd::arithmetic::div_mod::lemma_fundamental_div_mod_converse(
            x as int,
            pow2(8 * n as nat) as int,
            rest as int,
            le_value(r@) as int,
        );
    }
    r
}

/// The 64-bit integer whose little-endian bytes are `bytes`.
pub fn le_to_u64(bytes: &[u8]) -> (r: u64)
    requires
        bytes@.len() <= 8,
    ensures
        r == le_value(bytes@),
{
    let mut acc: u64 = 0;
    let mut k: usize = bytes.len();
    proof {
        lemma2_to64();
        assert(bytes@.subrange(k as int, k as int) =~= Seq::<u8>::empty());
    }
    while k > 0
        invariant
            k <= bytes@.len() <= 8,
            acc as nat == le_value(bytes@.subrange(k as int, bytes@.len() as int)),
            (acc as nat) < pow2(8 * (bytes@.len() - k) as nat),
        decreases k,
    {
        k = k - 1;
        proof {
            let e = (bytes@.len() - k - 1) as nat;
            lemma2_to64();
            lemma_pow2_byte_step(e);
            assert(8 * (e + 1) <= 64);
            if 8 * (e + 1) < 64 {
                lemma_pow2_strictly_increases(8 * (e + 1), 64);
            }
            let d = bytes@[k as int];
            assert(acc * 256 + d < 256 * pow2(8 * e)) by (nonlinear_arith)
                requires
                    (acc as nat) < pow2(8 * e),
                    d < 256,
            ;
            assert(bytes@.subrange(k as int, bytes@.len() as int).drop_first() =~= bytes@.subrange(
                k + 1,
                bytes@.len() as int,
            ));
            assert((bytes@.len() - k - 1) as nat + 1 == (bytes@.len() - k) as nat);
        }
        acc = acc * 256 + bytes[k] as u64;
    }
    proof {
        assert(bytes@.subrange(0, bytes@.len() as int) =~= bytes@);
    }
    acc
}

/// Appends zero bytes to `vec` until it holds `n`; a longer `vec` is left
/// as it is.
pub fn pad_with_zero(n: usize, vec: &mut Vec<u8>)
    ensures
        old(vec)@.len() >= n ==> final(vec)@ == old(vec)@,
        old(vec)@.len() < n ==> final(vec)@ == old(vec)@ + Seq::new(
            (n - old(vec)@.len()) as nat,
            |i: int| 0u8,
        ),
{
    let ghost d = vec@;
    while vec.len() < n
        invariant
            d.len() <= vec@.len(),
            d.len() >= n ==> vec@ == d,
            vec@ == d + Seq::new((vec@.len() - d.len()) as nat, |i: int| 0u8),
            d.len() < n ==> vec@.len() <= n,
        decreases n - vec.len(),
    {
        vec.push(0);
        proof {
            assert(vec@ =~= d + Seq::new((vec@.len() - d.len()) as nat, |i: int| 0u8));
        }
    }
    proof {
        if d.len() >= n {
            assert(vec@ =~= d);
        }
    }
}

} // verus!
