//! Globs: bit-exact buffers with a declared width.
//!
//! A glob of width `w` holds the `w` low bits of a natural number, packed
//! least-significant bit first into `ceil(w / 8)` bytes. Bits of the trailing
//! byte at positions `w` and above are always zero.

use crate::math::{
    ceil_div, div_ceil, lemma_le_value_bound, lemma_le_value_concat, lemma_le_value_prefix,
    lemma_le_value_push, lemma_le_value_zeros, le_value, low_mask, vec_shl,
};
use vstd::arithmetic::div_mod::{lemma_fundamental_div_mod_converse, lemma_mod_mod};
use vstd::arithmetic::power2::{
    lemma2_to64, lemma_pow2_adds, lemma_pow2_pos, lemma_pow2_strictly_increases, pow2,
};
use vstd::bits::lemma_u8_shl_is_mul;
use vstd::prelude::*;

verus! {

/// A packed run of bits: the payload of a data block, or any serialized
/// piece of a compressed object.
#[derive(Clone, Debug, PartialEq, Eq)]
pub struct Glob {
    /// The number of bits held.
    pub width: usize,
    /// The bytes holding the bits, least significant first.
    pub data: Vec<u8>,
}

impl Glob {
    /// The number the bits spell, bit 0 being the least significant.
    pub open spec fn value(&self) -> nat {
        le_value(self.data@)
    }

    /// A non-empty glob whose bytes are exactly those its width needs, with
    /// every bit above the width clear.
    pub open spec fn wf(&self) -> bool {
        &&& self.width > 0
        &&& self.data@.len() == ceil_div(self.width as nat, 8)
        &&& self.value() < pow2(self.width as nat)
    }

    /// Builds a glob of `width` bits from the low bits of the little-endian
    /// number in `data`. Bytes past the width are dropped, bits above the
    /// width in the trailing byte are cleared, and a trailing byte that
    /// `data` lacks reads as zero.
    pub fn new(width: usize, data: Vec<u8>) -> (r: Glob)
        requires
            width > 0,
            data@.len() >= width as nat / 8,
        ensures
            r.wf(),
            r.width == width,
            r.value() == le_value(data@) % pow2(width as nat),
    {
        let m = div_ceil(width, 8);
        let mut bytes = data;
        let ghost orig = bytes@;
        proof {
            lemma_pow2_pos(8 * m as nat);
            lemma_pow2_pos(width as nat);
        }
        if bytes.len() < m {
            proof {
                lemma_le_value_zeros(orig, 1);
                lemma_le_value_bound(orig);
                assert(orig.push(0u8) =~= orig + Seq::new(1, |i: int| 0u8));
                assert(pow2(8 * orig.len()) <= pow2(8 * m as nat)) by {
                    if orig.len() < m {
                        lemma_pow2_strictly_increases(8 * orig.len(), 8 * m as nat);
                    }
                }
                vstd::arithmetic::div_mod::lemma_small_mod(
                    le_value(orig),
                    pow2(8 * m as nat),
                );
            }
            bytes.push(0);
        }
        let mut glob = Glob { width, data: bytes };
        glob.truncate_data();
        proof {
            if orig.len() >= m {
                lemma_le_value_prefix(orig, m as nat);
                assert(glob.data@ == orig.subrange(0, m as int));
            }
            assert(le_value(glob.data@) == le_value(orig) % pow2(8 * m as nat));
        }
        let k = width % 8;
        if k != 0 {
            let mask = low_mask(k as u8);
            let last = glob.data[m - 1];
            let masked = last & mask;
            let ghost before = glob.data@;
            glob.data.set(m - 1, masked);
            proof {
                let kk = k as nat;
                let p = pow2(8 * (m - 1) as nat);
                lemma_pow2_pos(kk);
                lemma2_to64();
                lemma_pow2_strictly_increases(kk, 8);
                vstd::bits::lemma_u8_low_bits_mask_is_mod(last, kk);
                assert(vstd::bits::low_bits_mask(kk) == pow2(kk) - 1) by {
                    vstd::bits::lemma_low_bits_mask_values();
                    if kk == 1 {} else if kk == 2 {} else if kk == 3 {} else if kk == 4 {}
                    else if kk == 5 {} else if kk == 6 {} else {}
                };
                assert(masked as nat == last as nat % pow2(kk));
                let pre = before.subrange(0, m - 1);
                lemma_le_value_prefix(before, (m - 1) as nat);
                assert(before.subrange(m - 1, m as int) =~= seq![last]);
                crate::math::lemma_le_value_single(last);
                assert(glob.data@ =~= pre.push(masked));
                lemma_le_value_push(pre, masked);
                lemma_le_value_bound(pre);
                assert(width as nat == 8 * (m - 1) as nat + kk) by {
                    assert(m == (width as nat + 7) / 8);
                }
                lemma_pow2_adds(8 * (m - 1) as nat, kk);
                lemma_pow2_adds(width as nat, (8 - kk) as nat);
                assert(8 * m as nat == width as nat + (8 - kk) as nat);
                lemma_pow2_pos((8 - kk) as nat);
                lemma_mod_mod(le_value(orig) as int, pow2(width as nat) as int, pow2((8 - kk) as nat) as int);
                lemma_split_mod(le_value(pre), p, last as nat, pow2(kk));
            }
        } else {
            proof {
                assert(8 * m as nat == width as nat) by {
                    assert(m == (width as nat + 7) / 8);
                }
                vstd::arithmetic::div_mod::lemma_mod_bound(le_value(orig) as int, pow2(width as nat) as int);
            }
        }
        glob
    }

    /// Appends the bits of `other` right after the bits of `self`, with no
    /// padding between them.
    pub fn append(&mut self, other: Glob)
        requires
            old(self).wf(),
            other.wf(),
            old(self).width + other.width <= usize::MAX,
        ensures
            final(self).wf(),
            final(self).width == old(self).width + other.width,
            final(self).data@.len() == ceil_div(final(self).width as nat, 8),
            final(self).value() < pow2(final(self).width as nat),
            final(self).value() == old(self).value() + pow2(old(self).width as nat) * other.value(),
    {
        let ghost a = self.data@;
        let ghost w1 = self.width as nat;
        let ghost w2 = other.width as nat;
        let ghost v1 = self.value();
        let ghost v2 = other.value();
        if self.width % 8 == 0 {
            let mut od = other.data;
            self.data.append(&mut od);
            self.width = self.width + other.width;
            proof {
                lemma_le_value_concat(a, other.data@);
                assert(8 * a.len() == w1) by {
                    assert(a.len() == (w1 + 7) / 8);
                }
                assert(self.data@.len() == ceil_div(self.width as nat, 8));
                lemma_value_sum_bound(v1, v2, w1, w2);
            }
            return;
        }
        let shift_amount = self.width % 8;
        let shifted = vec_shl(other.data, shift_amount as u8);
        let n = self.data.len();
        let last = self.data[n - 1];
        let s0 = shifted[0];
        let merged = last | s0;
        proof {
            let k = shift_amount as nat;
            let p = pow2(8 * (n - 1) as nat);
            lemma2_to64();
            lemma_pow2_pos(k);
            lemma_pow2_strictly_increases(k, 8);
            assert(w1 == 8 * (n - 1) as nat + k) by {
                assert(n == (w1 + 7) / 8);
            }
            lemma_pow2_adds(8 * (n - 1) as nat, k);
            let pre = a.subrange(0, n - 1);
            lemma_le_value_prefix(a, (n - 1) as nat);
            assert(a.subrange(n - 1, n as int) =~= seq![last]);
            crate::math::lemma_le_value_single(last);
            assert(last < pow2(k)) by (nonlinear_arith)
                requires
                    le_value(a) == le_value(pre) + p * last,
                    le_value(a) < pow2(w1),
                    pow2(w1) == p * pow2(k),
                    p > 0,
            ;
            // the low `k` bits of the first shifted byte are clear
            let rest = shifted@.drop_first();
            assert(le_value(shifted@) == s0 as nat + 256 * le_value(rest));
            lemma_pow2_adds(k, (8 - k) as nat);
            lemma_pow2_pos((8 - k) as nat);
            let pk = pow2(k);
            let q = pow2((8 - k) as nat);
            assert(s0 as nat % pk == 0) by (nonlinear_arith)
                requires
                    s0 as nat + 256 * le_value(rest) == v2 * pk,
                    256 == pk * q,
                    pk > 0,
            {
                assert(s0 as nat == pk * (v2 - q * le_value(rest)));
                vstd::arithmetic::div_mod::lemma_mod_multiples_basic(
                    v2 - q * le_value(rest),
                    pk as int,
                );
            }
            lemma_u8_shl_is_mul(1, shift_amount as u8);
            let sa = shift_amount as u8;
            assert(merged as nat == last as nat + s0 as nat) by (bit_vector)
                requires
                    merged == last | s0,
                    last < (1u8 << sa),
                    s0 % (1u8 << sa) == 0,
                    0 < sa < 8,
            ;
        }
        self.data.set(n - 1, merged);
        let ghost base = self.data@;
        let mut j: usize = 1;
        while j < shifted.len()
            invariant
                1 <= j <= shifted@.len(),
                self.data@ == base + shifted@.subrange(1, j as int),
                self.width == w1,
            decreases shifted.len() - j,
        {
            self.data.push(shifted[j]);
            j = j + 1;
            proof {
                assert(self.data@ =~= base + shifted@.subrange(1, j as int));
            }
        }
        self.width = self.width + other.width;
        proof {
            let k = shift_amount as nat;
            let p = pow2(8 * (n - 1) as nat);
            let pre = a.subrange(0, n - 1);
            let rest = shifted@.drop_first();
            assert(shifted@.subrange(1, shifted@.len() as int) =~= rest);
            assert(base =~= pre.push(merged));
            lemma_le_value_push(pre, merged);
            lemma_le_value_concat(base, rest);
            crate::math::lemma_pow2_byte_step((n - 1) as nat);
            assert(le_value(shifted@) == s0 as nat + 256 * le_value(rest));
            assert(le_value(a) == le_value(pre) + p * last);
            assert(le_value(self.data@) == le_value(a) + p * le_value(shifted@)) by (nonlinear_arith)
                requires
                    le_value(self.data@) == le_value(base) + pow2(8 * n as nat) * le_value(rest),
                    le_value(base) == le_value(pre) + p * merged,
                    pow2(8 * n as nat) == 256 * p,
                    merged as nat == last as nat + s0 as nat,
                    le_value(shifted@) == s0 as nat + 256 * le_value(rest),
                    le_value(a) == le_value(pre) + p * last,
            ;
            assert(p * le_value(shifted@) == pow2(w1) * v2) by (nonlinear_arith)
                requires
                    le_value(shifted@) == v2 * pow2(k),
                    pow2(w1) == p * pow2(k),
            ;
            lemma_value_sum_bound(v1, v2, w1, w2);
            // enough bytes remain for the new width
            assert(self.data@.len() == n + other.data@.len());
            assert(self.data@.len() >= ceil_div(w1 + w2, 8)) by {
                assert(other.data@.len() == (w2 + 7) / 8);
                assert(n == (w1 + 7) / 8);
            }
        }
        let ghost full = self.data@;
        self.truncate_data();
        proof {
            let m = ceil_div(w1 + w2, 8);
            assert(pow2(w1 + w2) <= pow2(8 * m)) by {
                if w1 + w2 < 8 * m {
                    lemma_pow2_strictly_increases(w1 + w2, 8 * m);
                }
            }
            lemma_pow2_pos(8 * m);
            vstd::arithmetic::div_mod::lemma_small_mod(le_value(full), pow2(8 * m));
        }
    }

    /// Drops the bytes beyond those the width needs.
    fn truncate_data(&mut self)
        requires
            old(self).width > 0,
            old(self).data@.len() >= ceil_div(old(self).width as nat, 8),
        ensures
            final(self).width == old(self).width,
            final(self).data@ == old(self).data@.subrange(
                0,
                ceil_div(old(self).width as nat, 8) as int,
            ),
            le_value(final(self).data@) == le_value(old(self).data@) % pow2(
                8 * ceil_div(old(self).width as nat, 8),
            ),
    {
        let required_bytes = div_ceil(self.width, 8);
        let ghost d = self.data@;
        while self.data.len() > required_bytes
            invariant
                required_bytes == ceil_div(self.width as nat, 8),
                required_bytes <= self.data@.len() <= d.len(),
                self.data@ == d.subrange(0, self.data@.len() as int),
                self.width == old(self).width,
            decreases self.data.len(),
        {
            self.data.pop();
        }
        proof {
            lemma_le_value_prefix(d, required_bytes as nat);
        }
    }
}

/// Two values below `2^w1` and `2^w2`, placed side by side, stay below
/// `2^(w1 + w2)`.
proof fn lemma_value_sum_bound(v1: nat, v2: nat, w1: nat, w2: nat)
    requires
        v1 < pow2(w1),
        v2 < pow2(w2),
    ensures
        v1 + pow2(w1) * v2 < pow2(w1 + w2),
{
    lemma_pow2_adds(w1, w2);
    assert(v1 + pow2(w1) * v2 < pow2(w1) * pow2(w2)) by (nonlinear_arith)
        requires
            v1 < pow2(w1),
            v2 < pow2(w2),
    ;
}

/// Splitting a number at a byte boundary `p` and reducing the top part
/// modulo `d` reduces the whole modulo `p * d`.
proof fn lemma_split_mod(a: nat, p: nat, b: nat, d: nat)
    requires
        a < p,
        d > 0,
    ensures
        a + p * (b % d) == (a + p * b) % (p * d),
{
    let q = b / d;
    let r = b % d;
    vstd::arithmetic::div_mod::lemma_fundamental_div_mod(b as int, d as int);
    assert(a + p * b == q * (p * d) + (a + p * r)) by (nonlinear_arith)
        requires
            b == d * q + r,
    ;
    assert(a + p * r < p * d) by (nonlinear_arith)
        requires
            a < p,
            r < d,
    ;
    lemma_fundamental_div_mod_converse((a + p * b) as int, (p * d) as int, q as int, (a + p * r) as int);
}

} // verus!
