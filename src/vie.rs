//! Variable-width integer encoding (VIE): a UTF-8 style, self-delimiting
//! encoding of naturals.
//!
//! Each byte carries seven bits of the value, least significant group first.
//! The high bit of every byte but the last is set (a continuation); the high
//! bit of the last byte is clear. The canonical encoding has no trailing zero
//! group, so zero is the single byte `0x00`.

use crate::math::{le_bytes, le_value};
use vstd::arithmetic::power2::{lemma2_to64, lemma_pow2_pos, pow2};
use vstd::prelude::*;

verus! {

/// The value a byte sequence encodes: the low seven bits of each byte,
/// least significant group first. High bits are ignored.
pub open spec fn vie_value(s: Seq<u8>) -> nat
    decreases s.len(),
{
    if s.len() == 0 {
        0
    } else {
        (s[0] % 128) as nat + 128 * vie_value(s.drop_first())
    }
}

/// The canonical encoding of `n`.
pub open spec fn vie_encoding(n: nat) -> Seq<u8>
    decreases n,
{
    if n < 128 {
        seq![n as u8]
    } else {
        seq![(n % 128 + 128) as u8] + vie_encoding(n / 128)
    }
}

/// A well-formed code point in canonical form: non-empty, every byte but the
/// last has its continuation bit set, the last has it clear, and the last is
/// non-zero unless it is the only byte.
pub open spec fn is_canonical(s: Seq<u8>) -> bool {
    &&& s.len() > 0
    &&& forall|i: int| 0 <= i < s.len() - 1 ==> s[i] >= 128
    &&& s.last() < 128
    &&& (s.len() == 1 || s.last() != 0)
}

/// What decoding into an integer of `byte_width` bytes yields: the value if
/// it fits, and nothing if it overflows.
pub open spec fn vie_decoded(s: Seq<u8>, byte_width: nat) -> Option<nat> {
    if vie_value(s) < pow2(8 * byte_width) {
        Some(vie_value(s))
    } else {
        None
    }
}

/// Decoding the encoding gives the number back.
pub proof fn lemma_vie_value_of_encoding(n: nat)
    ensures
        vie_value(vie_encoding(n)) == n,
    decreases n,
{
    let e = vie_encoding(n);
    if n < 128 {
        assert(e.drop_first() =~= Seq::<u8>::empty());
        assert(vie_value(Seq::<u8>::empty()) == 0);
        assert(e[0] == n as u8);
        assert(vie_value(e) == (e[0] % 128) as nat + 128 * vie_value(e.drop_first()));
    } else {
        lemma_vie_value_of_encoding(n / 128);
        assert(e.drop_first() =~= vie_encoding(n / 128));
        assert(((n % 128 + 128) as u8) % 128 == n % 128);
    }
}

/// The encoding is canonical, and only zero encodes with a final zero byte.
pub proof fn lemma_vie_encoding_canonical(n: nat)
    ensures
        is_canonical(vie_encoding(n)),
        vie_encoding(n).last() == 0 <==> n == 0,
        vie_encoding(n).len() >= 1,
        n < pow2(7 * vie_encoding(n).len()),
    decreases n,
{
    lemma2_to64();
    if n >= 128 {
        let t = vie_encoding(n / 128);
        lemma_vie_encoding_canonical(n / 128);
        let e = vie_encoding(n);
        assert(e == seq![(n % 128 + 128) as u8] + t);
        assert(e.last() == t.last());
        assert forall|i: int| 0 <= i < e.len() - 1 implies e[i] >= 128 by {
            if i > 0 {
                assert(e[i] == t[i - 1]);
            }
        }
        vstd::arithmetic::power2::lemma_pow2_adds(7, 7 * t.len());
        assert(7 * e.len() == 7 + 7 * t.len());
    } else {
        if n > 0 {
            assert(n < pow2(7));
        }
    }
}

/// A value below `2^(7 * k)` encodes in at most `k` bytes.
pub proof fn lemma_vie_encoding_len(n: nat, k: nat)
    requires
        k >= 1,
        n < pow2(7 * k),
    ensures
        vie_encoding(n).len() <= k,
    decreases n,
{
    lemma2_to64();
    if n >= 128 {
        if k == 1 {
            assert(false);
        }
        vstd::arithmetic::power2::lemma_pow2_adds(7, 7 * (k - 1) as nat);
        assert(7 * k == 7 + 7 * (k - 1) as nat);
        assert(n / 128 < pow2(7 * (k - 1) as nat)) by {
            vstd::arithmetic::div_mod::lemma_multiply_divide_lt(
                n as int,
                128,
                pow2(7 * (k - 1) as nat) as int,
            );
        }
        lemma_vie_encoding_len(n / 128, (k - 1) as nat);
    }
}

/// Variable-width integer round trip: decoding the encoding of any `x` that
/// fits in `byte_width` bytes gives `x` back.
pub proof fn lemma_vie_round_trip(x: nat, byte_width: nat)
    requires
        x < pow2(8 * byte_width),
    ensures
        vie_decoded(vie_encoding(x), byte_width) == Some(x),
{
    lemma_vie_value_of_encoding(x);
}

/// Canonicality: the encoding of any `x` never ends in a zero byte unless
/// `x` is zero, and its last byte never has the continuation bit set.
pub proof fn lemma_vie_canonical(x: nat)
    ensures
        x != 0 ==> vie_encoding(x).last() != 0,
        vie_encoding(x).last() < 128,
        is_canonical(vie_encoding(x)),
{
    lemma_vie_encoding_canonical(x);
}

/// Appending one group.
proof fn lemma_vie_value_push(s: Seq<u8>, d: u8)
    ensures
        vie_value(s.push(d)) == vie_value(s) + pow2(7 * s.len()) * (d % 128) as nat,
    decreases s.len(),
{
    lemma2_to64();
    if s.len() == 0 {
        assert(s.push(d).drop_first() =~= Seq::<u8>::empty());
        assert(vie_value(Seq::<u8>::empty()) == 0);
        assert(s =~= Seq::<u8>::empty());
        assert(s.push(d)[0] == d);
        assert(vie_value(s.push(d)) == (d % 128) as nat + 128 * vie_value(s.push(d).drop_first()));
    } else {
        let t = s.drop_first();
        assert(s.push(d).drop_first() =~= t.push(d));
        assert(s.push(d)[0] == s[0]);
        lemma_vie_value_push(t, d);
        vstd::arithmetic::power2::lemma_pow2_adds(7, 7 * t.len());
        assert(7 * s.len() == 7 + 7 * t.len());
        let p = pow2(7 * t.len());
        assert(128 * (vie_value(t) + p * (d % 128) as nat) == 128 * vie_value(t) + (128 * p) * (d
            % 128) as nat) by (nonlinear_arith);
    }
}

/// A value below `2^(7 * len)` when every group is below 128.
proof fn lemma_vie_value_bound(s: Seq<u8>)
    ensures
        vie_value(s) < pow2(7 * s.len()),
    decreases s.len(),
{
    lemma2_to64();
    if s.len() > 0 {
        let t = s.drop_first();
        lemma_vie_value_bound(t);
        vstd::arithmetic::power2::lemma_pow2_adds(7, 7 * t.len());
        assert(7 * s.len() == 7 + 7 * t.len());
        assert((s[0] % 128) as nat + 128 * vie_value(t) < 128 * pow2(7 * t.len())) by (nonlinear_arith)
            requires
                vie_value(t) < pow2(7 * t.len()),
                s[0] % 128 < 128,
        ;
    }
}

/// Seven-bit groups, each below 128, with no trailing zero group unless it
/// is the only one.
pub open spec fn is_trimmed_groups(s: Seq<u8>) -> bool {
    &&& s.len() > 0
    &&& forall|i: int| 0 <= i < s.len() ==> s[i] < 128
    &&& (s.len() == 1 || s.last() != 0)
}

/// The groups with the continuation bit set on every one but the last.
pub open spec fn with_continuation(s: Seq<u8>) -> Seq<u8> {
    Seq::new(s.len(), |i: int| if i < s.len() - 1 { (s[i] + 128) as u8 } else { s[i] })
}

/// Trimmed groups, flagged, are the canonical encoding of their value.
proof fn lemma_trimmed_groups_encoding(s: Seq<u8>)
    requires
        is_trimmed_groups(s),
    ensures
        with_continuation(s) == vie_encoding(vie_value(s)),
    decreases s.len(),
{
    lemma2_to64();
    let v = vie_value(s);
    if s.len() == 1 {
        assert(s.drop_first() =~= Seq::<u8>::empty());
        assert(vie_value(Seq::<u8>::empty()) == 0);
        assert(v == s[0]);
        assert(with_continuation(s) =~= seq![s[0]]);
    } else {
        let t = s.drop_first();
        assert(t.last() == s.last());
        lemma_trimmed_groups_encoding(t);
        lemma_vie_value_positive(t);
        assert(v == s[0] as nat + 128 * vie_value(t));
        assert(v >= 128);
        assert(v % 128 == s[0] as nat && v / 128 == vie_value(t)) by (nonlinear_arith)
            requires
                v == s[0] as nat + 128 * vie_value(t),
                s[0] < 128,
        ;
        assert(with_continuation(s) =~= seq![(v % 128 + 128) as u8] + with_continuation(t));
    }
}

/// Groups whose last one is not zero spell a positive value.
proof fn lemma_vie_value_positive(s: Seq<u8>)
    requires
        s.len() > 0,
        s.last() != 0,
        s.last() < 128,
    ensures
        vie_value(s) > 0,
    decreases s.len(),
{
    if s.len() == 1 {
        assert(s.drop_first() =~= Seq::<u8>::empty());
        assert(vie_value(Seq::<u8>::empty()) == 0);
    } else {
        let t = s.drop_first();
        assert(t.last() == s.last());
        lemma_vie_value_positive(t);
    }
}

/// Regroups the little-endian number held in `bytes` into seven-bit groups,
/// least significant first: at least as many groups as there are bytes,
/// and more only where the value needs them.
pub fn u8_to_u7(bytes: &[u8]) -> (r: Vec<u8>)
    ensures
        forall|i: int| 0 <= i < r@.len() ==> r@[i] < 128,
        vie_value(r@) == le_value(bytes@),
        r@.len() >= bytes@.len(),
        r@.len() == bytes@.len() || r@.last() != 0,
{
    let mut r: Vec<u8> = Vec::new();
    let mut acc: u32 = 0;
    let mut nb: u32 = 0;
    let mut i: usize = 0;
    proof {
        lemma2_to64();
        assert(bytes@.subrange(0, 0) =~= Seq::<u8>::empty());
        assert(vie_value(r@) == 0);
        assert(le_value(Seq::<u8>::empty()) == 0);
    }
    while i < bytes.len()
        invariant
            i <= bytes@.len(),
            nb < 7,
            (acc as nat) < pow2(nb as nat),
            forall|j: int| 0 <= j < r@.len() ==> r@[j] < 128,
            7 * r@.len() + nb == 8 * i,
            vie_value(r@) + pow2(7 * r@.len()) * acc == le_value(bytes@.subrange(0, i as int)),
        decreases bytes.len() - i,
    {
        let b = bytes[i];
        proof {
            lemma2_to64();
            vstd::arithmetic::power2::lemma_pow2_strictly_increases(nb as nat, 7);
            crate::math::lemma_le_value_push(bytes@.subrange(0, i as int), b);
            assert(bytes@.subrange(0, i + 1) =~= bytes@.subrange(0, i as int).push(b));
            vstd::arithmetic::power2::lemma_pow2_adds(7 * r@.len(), nb as nat);
            assert(b as u32 * pow2(nb as nat) <= u32::MAX) by (nonlinear_arith)
                requires
                    b < 256,
                    pow2(nb as nat) < 128,
            ;
            vstd::bits::lemma_u32_shl_is_mul(b as u32, nb);
            assert(acc + b as u32 * pow2(nb as nat) <= u32::MAX) by (nonlinear_arith)
                requires
                    b < 256,
                    pow2(nb as nat) < 128,
                    (acc as nat) < pow2(nb as nat),
            ;
        }
        let ghost old_acc = acc;
        let ghost rl = r@.len();
        acc = acc + ((b as u32) << nb);
        nb = nb + 8;
        proof {
            let p = pow2(7 * rl);
            let q = pow2((nb - 8) as nat);
            assert(pow2(8 * i as nat) == p * q);
            assert(p * acc == p * old_acc + (p * q) * b) by (nonlinear_arith)
                requires
                    acc == old_acc + b * q,
            ;
            vstd::arithmetic::power2::lemma_pow2_adds((nb - 8) as nat, 8);
            assert((acc as nat) < pow2(nb as nat)) by (nonlinear_arith)
                requires
                    acc == old_acc + b * q,
                    old_acc < q,
                    b < 256,
                    pow2(nb as nat) == q * 256,
            ;
        }
        while nb >= 7
            invariant
                i < bytes@.len(),
                nb < 15,
                (acc as nat) < pow2(nb as nat),
                forall|j: int| 0 <= j < r@.len() ==> r@[j] < 128,
                7 * r@.len() + nb == 8 * (i + 1),
                vie_value(r@) + pow2(7 * r@.len()) * acc == le_value(bytes@.subrange(0, i + 1)),
            decreases nb,
        {
            let d = (acc % 128) as u8;
            proof {
                lemma2_to64();
                assert(d % 128 == d);
                lemma_vie_value_push(r@, d);
                vstd::arithmetic::power2::lemma_pow2_adds(7 * r@.len(), 7);
                assert(7 * (r@.len() + 1) == 7 * r@.len() + 7);
                let p = pow2(7 * r@.len());
                assert(p * acc == p * d + (p * 128) * (acc / 128)) by (nonlinear_arith)
                    requires
                        d == acc % 128,
                ;
                vstd::arithmetic::power2::lemma_pow2_adds((nb - 7) as nat, 7);
                assert(acc / 128 < pow2((nb - 7) as nat)) by (nonlinear_arith)
                    requires
                        (acc as nat) < pow2((nb - 7) as nat) * 128,
                ;
            }
            r.push(d);
            acc = acc / 128;
            nb = nb - 7;
        }
        i = i + 1;
    }
    proof {
        assert(bytes@.subrange(0, bytes@.len() as int) =~= bytes@);
    }
    if nb > 0 {
        proof {
            vstd::arithmetic::power2::lemma_pow2_strictly_increases(nb as nat, 7);
            lemma2_to64();
            lemma_vie_value_push(r@, acc as u8);
            assert((acc as u8) % 128 == acc);
        }
        r.push(acc as u8);
    } else {
        proof {
            lemma2_to64();
            assert(acc == 0);
        }
    }
    while r.len() > bytes.len() && r[r.len() - 1] == 0
        invariant
            forall|i: int| 0 <= i < r@.len() ==> r@[i] < 128,
            vie_value(r@) == le_value(bytes@),
            r@.len() >= bytes@.len(),
        decreases r.len(),
    {
        let ghost before = r@;
        r.pop();
        proof {
            assert(before =~= r@.push(0u8));
            lemma_vie_value_push(r@, 0u8);
        }
    }
    r
}

/// Regroups seven-bit groups, least significant first, into the
/// little-endian bytes of the same number.
pub fn u7_to_u8(groups: &[u8]) -> (r: Vec<u8>)
    requires
        forall|i: int| 0 <= i < groups@.len() ==> groups@[i] < 128,
    ensures
        le_value(r@) == vie_value(groups@),
        r@.len() == (7 * groups@.len() + 7) / 8,
{
    let mut r: Vec<u8> = Vec::new();
    let mut acc: u32 = 0;
    let mut nb: u32 = 0;
    let mut i: usize = 0;
    proof {
        lemma2_to64();
        assert(groups@.subrange(0, 0) =~= Seq::<u8>::empty());
        assert(le_value(r@) == 0);
        assert(vie_value(Seq::<u8>::empty()) == 0);
    }
    while i < groups.len()
        invariant
            i <= groups@.len(),
            forall|j: int| 0 <= j < groups@.len() ==> groups@[j] < 128,
            nb < 8,
            (acc as nat) < pow2(nb as nat),
            8 * r@.len() + nb == 7 * i,
            le_value(r@) + pow2(8 * r@.len()) * acc == vie_value(groups@.subrange(0, i as int)),
        decreases groups.len() - i,
    {
        let g = groups[i];
        proof {
            lemma2_to64();
            vstd::arithmetic::power2::lemma_pow2_strictly_increases(nb as nat, 8);
            lemma_vie_value_push(groups@.subrange(0, i as int), g);
            assert(groups@.subrange(0, i + 1) =~= groups@.subrange(0, i as int).push(g));
            assert(g % 128 == g);
            vstd::arithmetic::power2::lemma_pow2_adds(8 * r@.len(), nb as nat);
            assert(g as u32 * pow2(nb as nat) <= u32::MAX) by (nonlinear_arith)
                requires
                    g < 128,
                    pow2(nb as nat) < 256,
            ;
            vstd::bits::lemma_u32_shl_is_mul(g as u32, nb);
            assert(acc + g as u32 * pow2(nb as nat) <= u32::MAX) by (nonlinear_arith)
                requires
                    g < 128,
                    pow2(nb as nat) < 256,
                    (acc as nat) < pow2(nb as nat),
            ;
        }
        let ghost old_acc = acc;
        let ghost rl = r@.len();
        acc = acc + ((g as u32) << nb);
        nb = nb + 7;
        proof {
            let p = pow2(8 * rl);
            let q = pow2((nb - 7) as nat);
            assert(pow2(7 * i as nat) == p * q);
            assert(p * acc == p * old_acc + (p * q) * g) by (nonlinear_arith)
                requires
                    acc == old_acc + g * q,
            ;
            vstd::arithmetic::power2::lemma_pow2_adds((nb - 7) as nat, 7);
            assert((acc as nat) < pow2(nb as nat)) by (nonlinear_arith)
                requires
                    acc == old_acc + g * q,
                    old_acc < q,
                    g < 128,
                    pow2(nb as nat) == q * 128,
            ;
        }
        if nb >= 8 {
            let b = (acc % 256) as u8;
            proof {
                lemma2_to64();
                crate::math::lemma_le_value_push(r@, b);
                crate::math::lemma_pow2_byte_step(r@.len());
                let p = pow2(8 * r@.len());
                assert(p * acc == p * b + (256 * p) * (acc / 256)) by (nonlinear_arith)
                    requires
                        b == acc % 256,
                ;
                vstd::arithmetic::power2::lemma_pow2_adds((nb - 8) as nat, 8);
                assert(acc / 256 < pow2((nb - 8) as nat)) by (nonlinear_arith)
                    requires
                        (acc as nat) < pow2((nb - 8) as nat) * 256,
                ;
                assert(8 * (r@.len() + 1) == 8 * r@.len() + 8);
            }
            r.push(b);
            acc = acc / 256;
            nb = nb - 8;
        }
        i = i + 1;
    }
    proof {
        assert(groups@.subrange(0, groups@.len() as int) =~= groups@);
    }
    if nb > 0 {
        proof {
            vstd::arithmetic::power2::lemma_pow2_strictly_increases(nb as nat, 8);
            lemma2_to64();
            crate::math::lemma_le_value_push(r@, acc as u8);
        }
        r.push(acc as u8);
    } else {
        proof {
            lemma2_to64();
            assert(acc == 0);
        }
    }
    r
}

/// A code point: the bytes of one encoded natural.
#[derive(Clone, Debug, PartialEq, Eq)]
pub struct CodePoint {
    bytes: Vec<u8>,
}

impl View for CodePoint {
    type V = Seq<u8>;

    closed spec fn view(&self) -> Seq<u8> {
        self.bytes@
    }
}

/// Splits a byte into its low seven bits and its high bit.
pub fn split_high_bit(x: u8) -> (r: (u8, u8))
    ensures
        r.0 == x % 128,
        r.1 == x / 128,
{
    let lo = x & 0x7f;
    let hi = x >> 7;
    assert(lo == x % 128 && hi == x / 128) by (bit_vector)
        requires
            lo == x & 0x7f,
            hi == x >> 7,
    ;
    (lo, hi)
}

impl CodePoint {
    /// Encodes `x` in canonical form: its little-endian bytes regrouped
    /// into seven-bit groups, trailing zero groups dropped, and the
    /// continuation bit set on all groups but the last.
    pub fn encode(x: u64) -> (r: CodePoint)
        ensures
            r@ == vie_encoding(x as nat),
    {
        if x == 0 {
            let mut zero: Vec<u8> = Vec::new();
            zero.push(0);
            proof {
                assert(zero@ =~= seq![0u8]);
            }
            return CodePoint { bytes: zero };
        }
        let le = le_bytes(x, 8);
        let mut groups = u8_to_u7(le.as_slice());
        proof {
            lemma2_to64();
            lemma_pow2_pos(64);
            vstd::arithmetic::div_mod::lemma_small_mod(x as nat, pow2(64));
            if groups@.len() == 0 {
                assert(vie_value(groups@) == 0);
            }
        }
        while groups.len() > 1 && groups[groups.len() - 1] == 0
            invariant
                groups@.len() >= 1,
                forall|j: int| 0 <= j < groups@.len() ==> groups@[j] < 128,
                vie_value(groups@) == x as nat,
            decreases groups.len(),
        {
            let ghost before = groups@;
            groups.pop();
            proof {
                assert(before =~= groups@.push(0u8));
                lemma_vie_value_push(groups@, 0u8);
            }
        }
        proof {
            if groups@.len() == 1 {
                assert(groups@.drop_first() =~= Seq::<u8>::empty());
                assert(vie_value(Seq::<u8>::empty()) == 0);
                assert(vie_value(groups@) == (groups@[0] % 128) as nat);
            }
            assert(is_trimmed_groups(groups@));
            lemma_trimmed_groups_encoding(groups@);
        }
        let ghost trimmed = groups@;
        let n = groups.len();
        let mut i: usize = 0;
        while i + 1 < n
            invariant
                n == trimmed.len(),
                n >= 1,
                i < n,
                groups@.len() == n,
                is_trimmed_groups(trimmed),
                forall|j: int|
                    0 <= j < n ==> #[trigger] groups@[j] == (if j < i {
                        (trimmed[j] + 128) as u8
                    } else {
                        trimmed[j]
                    }),
            decreases n - i,
        {
            let g = groups[i];
            let flagged = g | 0x80;
            assert(flagged == (g + 128) as u8) by (bit_vector)
                requires
                    g < 128,
                    flagged == g | 0x80,
            ;
            groups.set(i, flagged);
            i = i + 1;
        }
        proof {
            assert(groups@ =~= with_continuation(trimmed));
        }
        CodePoint { bytes: groups }
    }

    /// The number of bytes taken up by this code point.
    pub fn count(&self) -> (r: usize)
        ensures
            r == self@.len(),
    {
        self.bytes.len()
    }

    /// The bytes that make up this code point.
    pub fn bytes(&self) -> (r: &[u8])
        ensures
            r@ == self@,
    {
        self.bytes.as_slice()
    }

    /// Decodes into an integer of `byte_width` bytes; `None` when the value
    /// does not fit. The continuation bits are dropped, the groups
    /// regrouped into little-endian bytes, and trailing zero bytes beyond
    /// the integer's width trimmed; more bytes than that width is an
    /// overflow.
    pub fn decode(&self, byte_width: usize) -> (r: Option<u64>)
        requires
            1 <= byte_width <= 8,
        ensures
            match r {
                Some(v) => vie_decoded(self@, byte_width as nat) == Some(v as nat),
                None => vie_decoded(self@, byte_width as nat) is None,
            },
    {
        let ghost s = self.bytes@;
        let mut groups: Vec<u8> = Vec::new();
        let mut i: usize = 0;
        while i < self.bytes.len()
            invariant
                s == self.bytes@,
                i <= s.len(),
                groups@.len() == i,
                forall|j: int| 0 <= j < i ==> #[trigger] groups@[j] == s[j] % 128,
            decreases self.bytes.len() - i,
        {
            let (low, _) = split_high_bit(self.bytes[i]);
            groups.push(low);
            i = i + 1;
        }
        proof {
            lemma_vie_value_low_groups(s, groups@);
        }
        let mut le = u7_to_u8(groups.as_slice());
        let ghost v = le_value(le@);
        while le.len() > byte_width && le[le.len() - 1] == 0
            invariant
                le_value(le@) == v,
            decreases le.len(),
        {
            let ghost before = le@;
            le.pop();
            proof {
                assert(before =~= le@.push(0u8));
                crate::math::lemma_le_value_push(le@, 0u8);
            }
        }
        proof {
            lemma2_to64();
        }
        if le.len() > byte_width {
            proof {
                lemma_le_value_last_nonzero(le@);
                if byte_width < le@.len() - 1 {
                    vstd::arithmetic::power2::lemma_pow2_strictly_increases(
                        8 * byte_width as nat,
                        8 * (le@.len() - 1) as nat,
                    );
                }
            }
            return None;
        }
        proof {
            crate::math::lemma_le_value_bound(le@);
            if le@.len() < byte_width {
                vstd::arithmetic::power2::lemma_pow2_strictly_increases(
                    8 * le@.len(),
                    8 * byte_width as nat,
                );
            }
        }
        let ghost short = le@;
        crate::math::pad_with_zero(byte_width, &mut le);
        proof {
            crate::math::lemma_le_value_zeros(short, (byte_width - short.len()) as nat);
            if short.len() == byte_width {
                assert(le@ == short);
            }
        }
        Some(crate::math::le_to_u64(le.as_slice()))
    }
}

/// Dropping the continuation bits does not change the value.
proof fn lemma_vie_value_low_groups(s: Seq<u8>, g: Seq<u8>)
    requires
        s.len() == g.len(),
        forall|j: int| 0 <= j < s.len() ==> #[trigger] g[j] == s[j] % 128,
    ensures
        vie_value(g) == vie_value(s),
        forall|j: int| 0 <= j < g.len() ==> g[j] < 128,
    decreases s.len(),
{
    if s.len() > 0 {
        lemma_vie_value_low_groups(s.drop_first(), g.drop_first());
        assert(g[0] == s[0] % 128);
    }
}

/// A byte string whose last byte is not zero spells at least
/// `2^(8 * (len - 1))`.
proof fn lemma_le_value_last_nonzero(s: Seq<u8>)
    requires
        s.len() > 0,
        s.last() != 0,
    ensures
        le_value(s) >= pow2(8 * (s.len() - 1) as nat),
{
    let m = (s.len() - 1) as nat;
    crate::math::lemma_le_value_prefix(s, m);
    assert(s.subrange(m as int, s.len() as int) =~= seq![s.last()]);
    crate::math::lemma_le_value_single(s.last());
    lemma_pow2_pos(8 * m);
    assert(pow2(8 * m) * s.last() >= pow2(8 * m)) by (nonlinear_arith)
        requires
            s.last() >= 1,
    ;
}

} // verus!
