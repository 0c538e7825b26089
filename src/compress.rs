//! Byte-level compressors: each turns a byte string into a glob and back.

use crate::glob::Glob;
use crate::math::{
    bit_width_for, div_ceil, le_bytes, le_to_u64, le_value, lemma_le_value_bound,
    lemma_le_value_prefix, lemma_le_value_zeros, pad_with_zero, required_bit_width,
};
use vstd::arithmetic::power2::{lemma2_to64, lemma_pow2_pos, lemma_pow2_strictly_increases, pow2};
use vstd::prelude::*;
use vstd::string::StringSliceAdditionalSpecFns;
use vstd::utf8::{decode_utf8, valid_utf8};

verus! {

/// Why a compressor refused its input.
#[derive(Clone, Debug, PartialEq, Eq)]
pub enum CompressError {
    /// The value has a type the compressor does not take.
    UnexpectedType,
    /// The text is none of the enumeration's variants.
    UnknownVariant,
    /// The input cannot be encoded: empty, malformed, or it would give a
    /// glob of width zero.
    BadInput,
    /// The glob's width is not the one the compressor produces.
    WrongGlobWidth(usize),
    /// The glob holds an ordinal that no variant has.
    NoVariantWithIndex(u64),
    /// The glob is too wide for the integer it should hold.
    GlobTooLarge(usize),
}

/// A copy of a byte slice.
pub fn copy_bytes(s: &[u8]) -> (r: Vec<u8>)
    ensures
        r@ == s@,
{
    let mut r: Vec<u8> = Vec::new();
    let mut i: usize = 0;
    while i < s.len()
        invariant
            i <= s@.len(),
            r@ == s@.subrange(0, i as int),
        decreases s.len() - i,
    {
        r.push(s[i]);
        i = i + 1;
        proof {
            assert(r@ =~= s@.subrange(0, i as int));
        }
    }
    proof {
        assert(r@ =~= s@);
    }
    r
}

/// Byte-wise equality.
pub fn bytes_eq(a: &[u8], b: &[u8]) -> (r: bool)
    ensures
        r == (a@ == b@),
{
    if a.len() != b.len() {
        return false;
    }
    let mut i: usize = 0;
    while i < a.len()
        invariant
            a@.len() == b@.len(),
            i <= a@.len(),
            forall|j: int| 0 <= j < i ==> a@[j] == b@[j],
        decreases a.len() - i,
    {
        if a[i] != b[i] {
            return false;
        }
        i = i + 1;
    }
    proof {
        assert(a@ =~= b@);
    }
    true
}

/// The value of an ASCII hexadecimal digit, in either case.
pub open spec fn hex_value(c: char) -> Option<u8> {
    let n = c as u32;
    if 48 <= n <= 57 {
        Some((n - 48) as u8)
    } else if 97 <= n <= 102 {
        Some((n - 87) as u8)
    } else if 65 <= n <= 70 {
        Some((n - 55) as u8)
    } else {
        None
    }
}

/// The bytes that hexadecimal digits spell, two digits to a byte, the high
/// digit first; nothing if a character is not a digit or one is left over.
pub open spec fn hex_bytes(d: Seq<char>) -> Option<Seq<u8>>
    decreases d.len(),
{
    if d.len() == 0 {
        Some(Seq::empty())
    } else if d.len() == 1 {
        None
    } else {
        match (hex_value(d[0]), hex_value(d[1]), hex_bytes(d.subrange(2, d.len() as int))) {
            (Some(h), Some(l), Some(rest)) => Some(seq![(16 * h + l) as u8] + rest),
            _ => None,
        }
    }
}

/// The digits of the hyphenated form, 8-4-4-4-12: 36 characters with
/// hyphens at positions 8, 13, 18 and 23.
pub open spec fn unhyphenated(t: Seq<char>) -> Option<Seq<char>> {
    if t.len() == 36 && t[8] == '-' && t[13] == '-' && t[18] == '-' && t[23] == '-' {
        Some(
            t.subrange(0, 8) + t.subrange(9, 13) + t.subrange(14, 18) + t.subrange(19, 23)
                + t.subrange(24, 36),
        )
    } else {
        None
    }
}

/// Each byte takes two digits.
proof fn lemma_hex_bytes_len(d: Seq<char>)
    ensures
        hex_bytes(d) is Some ==> 2 * hex_bytes(d)->Some_0.len() == d.len(),
    decreases d.len(),
{
    if d.len() >= 2 {
        lemma_hex_bytes_len(d.subrange(2, d.len() as int));
    }
}

/// A parsed UUID is 16 bytes.
proof fn lemma_uuid_bytes_len(text: Seq<char>)
    ensures
        uuid_bytes_of(text) is Some ==> uuid_bytes_of(text)->Some_0.len() == 16,
{
    if text.len() == 32 {
        lemma_hex_bytes_len(text);
    } else if text.len() == 36 {
        if let Some(d) = unhyphenated(text) {
            lemma_hex_bytes_len(d);
        }
    } else if text.len() == 45 && text.subrange(0, 9) == urn_prefix() {
        if let Some(d) = unhyphenated(text.subrange(9, 45)) {
            lemma_hex_bytes_len(d);
        }
    }
}

/// The prefix of the URN form.
pub open spec fn urn_prefix() -> Seq<char> {
    seq!['u', 'r', 'n', ':', 'u', 'u', 'i', 'd', ':']
}

/// What the UUID parser makes of a text: the 16 bytes that its 32
/// hexadecimal digits spell, written plain (32 characters), hyphenated (36),
/// or hyphenated after `urn:uuid:` (45); nothing for any other text.
pub open spec fn uuid_bytes_of(text: Seq<char>) -> Option<Seq<u8>> {
    let digits = if text.len() == 32 {
        Some(text)
    } else if text.len() == 36 {
        unhyphenated(text)
    } else if text.len() == 45 && text.subrange(0, 9) == urn_prefix() {
        unhyphenated(text.subrange(9, 45))
    } else {
        None
    };
    match digits {
        Some(d) => hex_bytes(d),
        None => None,
    }
}

/// The ASCII code of a lower-case hexadecimal digit.
pub open spec fn hex_lower(n: u8) -> u8 {
    if n < 10 {
        (48 + n) as u8
    } else {
        (87 + n) as u8
    }
}

/// Two lower-case hexadecimal digits for each byte, the high digit first.
pub open spec fn hex_text(b: Seq<u8>) -> Seq<u8>
    decreases b.len(),
{
    if b.len() == 0 {
        Seq::empty()
    } else {
        seq![hex_lower(b[0] / 16), hex_lower(b[0] % 16)] + hex_text(b.drop_first())
    }
}

/// The hyphenated text of the UUID with the given 16 bytes, as ASCII:
/// lower-case hexadecimal in groups of 8, 4, 4, 4 and 12 digits joined by
/// hyphens.
pub open spec fn uuid_text_of(bytes: Seq<u8>) -> Seq<u8> {
    hex_text(bytes.subrange(0, 4)) + seq![45u8] + hex_text(bytes.subrange(4, 6)) + seq![45u8]
        + hex_text(bytes.subrange(6, 8)) + seq![45u8] + hex_text(bytes.subrange(8, 10)) + seq![
        45u8,
    ] + hex_text(bytes.subrange(10, 16))
}

/// Relies on `std::str::from_utf8`: it accepts exactly the byte strings that
/// are valid UTF-8, and the text then holds the characters they encode.
#[verifier::external_body]
fn str_from_utf8(bytes: &[u8]) -> (r: Option<&str>)
    ensures
        match r {
            Some(s) => valid_utf8(bytes@) && s@ == decode_utf8(bytes@),
            None => !valid_utf8(bytes@),
        },
{
    std::str::from_utf8(bytes).ok()
}

/// Relies on `uuid::Uuid::parse_str` (0.8), which accepts the plain,
/// hyphenated and URN forms of 32 hexadecimal digits in either case, and on
/// `Uuid::as_bytes`, the 16 bytes those digits spell.
#[verifier::external_body]
fn parse_uuid(text: &str) -> (r: Option<Vec<u8>>)
    ensures
        match r {
            Some(b) => uuid_bytes_of(text@) == Some(b@),
            None => uuid_bytes_of(text@) is None,
        },
{
    match uuid::Uuid::parse_str(text) {
        Ok(u) => Some(u.as_bytes().to_vec()),
        Err(_) => None,
    }
}

/// Relies on `uuid::Uuid::from_slice` (0.8), which takes exactly 16 bytes,
/// and on the text of `Uuid::to_hyphenated`: lower-case, hyphenated 8-4-4-4-12.
#[verifier::external_body]
fn hyphenated_uuid(bytes: &[u8]) -> (r: Vec<u8>)
    requires
        bytes@.len() == 16,
    ensures
        r@ == uuid_text_of(bytes@),
{
    match uuid::Uuid::from_slice(bytes) {
        Ok(u) => u.to_hyphenated().to_string().into_bytes(),
        Err(_) => Vec::new(),
    }
}

/// Encodes bytes as they are, eight bits each.
pub struct PassThroughCompressor;

impl PassThroughCompressor {
    /// The input's bytes as a glob of `8 * len` bits; an empty input has no
    /// glob.
    pub fn compress(&self, input: &[u8]) -> (r: Result<Glob, CompressError>)
        ensures
            input@.len() == 0 || 8 * input@.len() > usize::MAX ==> r == Err::<Glob, CompressError>(
                CompressError::BadInput,
            ),
            0 < input@.len() && 8 * input@.len() <= usize::MAX ==> r is Ok && r->Ok_0.wf()
                && r->Ok_0.width == 8 * input@.len() && r->Ok_0.data@ == input@,
    {
        if input.len() == 0 || input.len() > usize::MAX / 8 {
            return Err(CompressError::BadInput);
        }
        let bytes = copy_bytes(input);
        let g = Glob::new(input.len() * 8, bytes);
        proof {
            lemma_le_value_bound(input@);
            vstd::arithmetic::div_mod::lemma_small_mod(le_value(input@), pow2(8 * input@.len()));
            lemma_glob_data_of_value(g, input@);
        }
        Ok(g)
    }

    /// The glob's bytes; its width must be a whole number of bytes.
    pub fn decompress(&self, glob: Glob) -> (r: Result<Vec<u8>, CompressError>)
        ensures
            glob.width % 8 != 0 ==> r == Err::<Vec<u8>, CompressError>(
                CompressError::WrongGlobWidth(glob.width),
            ),
            glob.width % 8 == 0 ==> r is Ok && r->Ok_0@ == glob.data@,
    {
        if glob.width % 8 != 0 {
            return Err(CompressError::WrongGlobWidth(glob.width));
        }
        Ok(glob.data)
    }
}

/// Equal values in equally many bytes are equal byte strings.
proof fn lemma_glob_data_of_value(g: Glob, s: Seq<u8>)
    requires
        g.data@.len() == s.len(),
        le_value(g.data@) == le_value(s),
    ensures
        g.data@ == s,
{
    lemma_le_value_injective(g.data@, s);
}

/// Byte strings of one length with one value are equal.
pub proof fn lemma_le_value_injective(a: Seq<u8>, b: Seq<u8>)
    requires
        a.len() == b.len(),
        le_value(a) == le_value(b),
    ensures
        a == b,
    decreases a.len(),
{
    if a.len() > 0 {
        let ta = a.drop_first();
        let tb = b.drop_first();
        assert(a[0] as nat + 256 * le_value(ta) == b[0] as nat + 256 * le_value(tb));
        assert(a[0] == b[0] && le_value(ta) == le_value(tb)) by (nonlinear_arith)
            requires
                a[0] as nat + 256 * le_value(ta) == b[0] as nat + 256 * le_value(tb),
                a[0] < 256,
                b[0] < 256,
        ;
        lemma_le_value_injective(ta, tb);
        assert(a =~= seq![a[0]] + ta);
        assert(b =~= seq![b[0]] + tb);
    } else {
        assert(a =~= b);
    }
}

/// Encodes the byte 0 or 1 as one bit.
pub struct BoolCompressor;

impl BoolCompressor {
    /// A single byte, 0 or 1, as a one-bit glob.
    pub fn compress(&self, input: &[u8]) -> (r: Result<Glob, CompressError>)
        ensures
            input@ == seq![0u8] || input@ == seq![1u8] ==> r is Ok && r->Ok_0.wf()
                && r->Ok_0.width == 1 && r->Ok_0.value() == input@[0],
            !(input@ == seq![0u8] || input@ == seq![1u8]) ==> r == Err::<Glob, CompressError>(
                CompressError::BadInput,
            ),
    {
        if input.len() != 1 || input[0] > 1 {
            proof {
                if input@.len() == 1 {
                    assert(input@ != seq![0u8] && input@ != seq![1u8]) by {
                        assert(seq![0u8][0] == 0u8);
                        assert(seq![1u8][0] == 1u8);
                    }
                }
            }
            return Err(CompressError::BadInput);
        }
        let bit = input[0];
        let mut bytes: Vec<u8> = Vec::new();
        bytes.push(bit);
        proof {
            assert(input@ =~= seq![bit]);
            assert(bit == 0 ==> input@ =~= seq![0u8]);
            assert(bit == 1 ==> input@ =~= seq![1u8]);
            crate::math::lemma_le_value_single(bit);
            assert(bytes@ =~= seq![bit]);
            lemma2_to64();
            vstd::arithmetic::div_mod::lemma_small_mod(bit as nat, 2);
        }
        Ok(Glob::new(1, bytes))
    }

    /// The one-bit glob's bit as a byte.
    pub fn decompress(&self, glob: Glob) -> (r: Result<Vec<u8>, CompressError>)
        requires
            glob.wf(),
        ensures
            glob.width != 1 ==> r == Err::<Vec<u8>, CompressError>(
                CompressError::WrongGlobWidth(glob.width),
            ),
            glob.width == 1 ==> r is Ok && r->Ok_0@ == seq![glob.value() as u8],
    {
        if glob.width != 1 {
            return Err(CompressError::WrongGlobWidth(glob.width));
        }
        proof {
            assert(glob.data@ =~= seq![glob.data@[0]]);
            crate::math::lemma_le_value_single(glob.data@[0]);
        }
        Ok(glob.data)
    }
}

/// Encodes one of a fixed list of byte strings as its ordinal, in the
/// fewest bits that give every variant its own pattern.
pub struct EnumCompressor {
    variants: Vec<Vec<u8>>,
}

/// The index of the first variant equal to `s`, if any.
pub open spec fn variant_index(variants: Seq<Seq<u8>>, s: Seq<u8>) -> Option<nat> {
    if exists|i: int| 0 <= i < variants.len() && variants[i] == s {
        let i = choose|i: int|
            0 <= i < variants.len() && variants[i] == s && forall|j: int|
                0 <= j < i ==> variants[j] != s;
        Some(i as nat)
    } else {
        None
    }
}

impl View for EnumCompressor {
    type V = Seq<Seq<u8>>;

    closed spec fn view(&self) -> Seq<Seq<u8>> {
        self.variants@.map_values(|v: Vec<u8>| v@)
    }
}

impl EnumCompressor {
    /// A compressor for the given variants, in the given order.
    pub fn from_variants(variants: Vec<Vec<u8>>) -> (r: EnumCompressor)
        ensures
            r@ == variants@.map_values(|v: Vec<u8>| v@),
    {
        EnumCompressor { variants }
    }

    /// A compressor for the UTF-8 bytes of the given strings, in order.
    pub fn from_string_variants(variants: &[&str]) -> (r: EnumCompressor)
        ensures
            r@.len() == variants@.len(),
            forall|i: int| 0 <= i < variants@.len() ==> r@[i] == (#[trigger] variants@[i]).spec_bytes(),
    {
        let mut vs: Vec<Vec<u8>> = Vec::new();
        let mut i: usize = 0;
        while i < variants.len()
            invariant
                i <= variants@.len(),
                vs@.len() == i,
                forall|j: int| 0 <= j < i ==> (#[trigger] vs@[j])@ == variants@[j].spec_bytes(),
            decreases variants.len() - i,
        {
            let b = copy_bytes(variants[i].as_bytes());
            vs.push(b);
            i = i + 1;
        }
        EnumCompressor { variants: vs }
    }

    /// The width of the produced globs, in bits.
    pub fn result_width(&self) -> (r: usize)
        ensures
            r == bit_width_for(self@.len()),
            self@.len() <= pow2(r as nat),
            r <= 64,
    {
        required_bit_width(self.variants.len())
    }

    /// The ordinal of the variant equal to `input`, in `result_width` bits.
    pub fn compress(&self, input: &[u8]) -> (r: Result<Glob, CompressError>)
        ensures
            variant_index(self@, input@) is None ==> r == Err::<Glob, CompressError>(
                CompressError::UnknownVariant,
            ),
            variant_index(self@, input@) is Some && bit_width_for(self@.len()) == 0 ==> r == Err::<
                Glob,
                CompressError,
            >(CompressError::BadInput),
            variant_index(self@, input@) is Some && bit_width_for(self@.len()) > 0 ==> r is Ok
                && r->Ok_0.wf() && r->Ok_0.width == bit_width_for(self@.len())
                && r->Ok_0.value() == variant_index(self@, input@)->Some_0,
    {
        let mut i: usize = 0;
        while i < self.variants.len() && !bytes_eq(self.variants[i].as_slice(), input)
            invariant
                i <= self@.len(),
                self@.len() == self.variants@.len(),
                forall|j: int| 0 <= j < i ==> self@[j] != input@,
            decreases self.variants.len() - i,
        {
            proof {
                assert(self@[i as int] == self.variants@[i as int]@);
            }
            i = i + 1;
        }
        proof {
            if i < self@.len() {
                assert(self@[i as int] == self.variants@[i as int]@);
            }
        }
        if i == self.variants.len() {
            return Err(CompressError::UnknownVariant);
        }
        proof {
            assert(self@[i as int] == input@);
            let k = choose|k: int|
                0 <= k < self@.len() && self@[k] == input@ && forall|j: int|
                    0 <= j < k ==> self@[j] != input@;
            if k < i {
            } else if k > i {
                assert(self@[i as int] != input@);
            }
            assert(variant_index(self@, input@) == Some(i as nat));
        }
        let width = self.result_width();
        if width == 0 {
            return Err(CompressError::BadInput);
        }
        let bytes = le_bytes(i as u64, 8);
        proof {
            lemma2_to64();
            assert(width <= 64);
            // the ordinal fits in the width, and in eight bytes
            assert(i < pow2(width as nat));
            lemma_pow2_pos(64);
            vstd::arithmetic::div_mod::lemma_small_mod(i as nat, pow2(64));
            vstd::arithmetic::div_mod::lemma_small_mod(i as nat, pow2(width as nat));
        }
        Ok(Glob::new(width, bytes))
    }

    /// The variant whose ordinal the glob holds.
    pub fn decompress(&self, glob: Glob) -> (r: Result<Vec<u8>, CompressError>)
        requires
            glob.wf(),
        ensures
            glob.width != bit_width_for(self@.len()) ==> r == Err::<Vec<u8>, CompressError>(
                CompressError::WrongGlobWidth(glob.width),
            ),
            glob.width == bit_width_for(self@.len()) && glob.value() < self@.len() ==> r is Ok
                && r->Ok_0@ == self@[glob.value() as int],
            glob.width == bit_width_for(self@.len()) && glob.value() >= self@.len() ==> r is Err,
    {
        let width = self.result_width();
        if glob.width != width {
            return Err(CompressError::WrongGlobWidth(glob.width));
        }
        // A width of at most 64 bits holds at most eight bytes.
        proof {
            assert(glob.data@.len() <= 8) by {
                assert(glob.data@.len() == (glob.width as nat + 7) / 8);
            }
        }
        let index = le_to_u64(glob.data.as_slice());
        if index >= self.variants.len() as u64 {
            return Err(CompressError::NoVariantWithIndex(index));
        }
        let v = copy_bytes(self.variants[index as usize].as_slice());
        proof {
            assert(self@[index as int] == self.variants@[index as int]@);
        }
        Ok(v)
    }
}

/// Encodes the little-endian bytes of an integer in a fixed number of bits.
pub struct IntegerCompressor {
    width: usize,
}

impl IntegerCompressor {
    /// A compressor to `width` bits.
    pub fn new(width: usize) -> (r: IntegerCompressor)
        ensures
            r.spec_width() == width,
    {
        IntegerCompressor { width }
    }

    /// The width of the produced globs.
    pub closed spec fn spec_width(&self) -> nat {
        self.width as nat
    }

    /// The width of the produced globs.
    pub fn width(&self) -> (r: usize)
        ensures
            r == self.spec_width(),
    {
        self.width
    }

    /// The low `width` bits of the little-endian number `input`.
    pub fn compress(&self, input: &[u8]) -> (r: Result<Glob, CompressError>)
        ensures
            self.spec_width() == 0 ==> r == Err::<Glob, CompressError>(CompressError::BadInput),
            self.spec_width() > 0 ==> r is Ok && r->Ok_0.wf() && r->Ok_0.width == self.spec_width()
                && r->Ok_0.value() == le_value(input@) % pow2(self.spec_width()),
    {
        if self.width == 0 {
            return Err(CompressError::BadInput);
        }
        let byte_count = div_ceil(self.width, 8);
        let mut bytes: Vec<u8> = Vec::new();
        let mut i: usize = 0;
        while i < byte_count
            invariant
                i <= byte_count,
                bytes@.len() == i,
                forall|j: int| 0 <= j < i ==> #[trigger] bytes@[j] == (if j < input@.len() {
                    input@[j]
                } else {
                    0u8
                }),
            decreases byte_count - i,
        {
            if i < input.len() {
                bytes.push(input[i]);
            } else {
                bytes.push(0);
            }
            i = i + 1;
        }
        proof {
            let m = byte_count as nat;
            let w = self.width as nat;
            lemma_pow2_pos(w);
            lemma_pow2_pos(8 * m);
            if input@.len() >= m {
                lemma_le_value_prefix(input@, m);
                assert(bytes@ =~= input@.subrange(0, m as int));
            } else {
                let z = Seq::new((m - input@.len()) as nat, |j: int| 0u8);
                assert(bytes@ =~= input@ + z);
                lemma_le_value_zeros(input@, (m - input@.len()) as nat);
                lemma_le_value_bound(input@);
                lemma_pow2_strictly_increases(8 * input@.len(), 8 * m);
                vstd::arithmetic::div_mod::lemma_small_mod(le_value(input@), pow2(8 * m));
            }
            assert(le_value(bytes@) == le_value(input@) % pow2(8 * m));
            // the glob keeps the low `w` bits, and `2^w` divides `2^(8 * m)`
            assert(8 * m >= w);
            vstd::arithmetic::power2::lemma_pow2_adds(w, (8 * m - w) as nat);
            lemma_pow2_pos((8 * m - w) as nat);
            vstd::arithmetic::div_mod::lemma_mod_mod(
                le_value(input@) as int,
                pow2(w) as int,
                pow2((8 * m - w) as nat) as int,
            );
        }
        Ok(Glob::new(self.width, bytes))
    }

    /// The glob's bytes, zero-extended to the eight bytes of a 64-bit
    /// integer.
    pub fn decompress(&self, glob: Glob) -> (r: Result<Vec<u8>, CompressError>)
        ensures
            glob.data@.len() > 8 ==> r == Err::<Vec<u8>, CompressError>(
                CompressError::GlobTooLarge(glob.width),
            ),
            glob.data@.len() <= 8 ==> r is Ok && r->Ok_0@ == glob.data@ + Seq::new(
                (8 - glob.data@.len()) as nat,
                |j: int| 0u8,
            ),
    {
        let mut bytes = glob.data;
        if bytes.len() > 8 {
            return Err(CompressError::GlobTooLarge(glob.width));
        }
        pad_with_zero(8, &mut bytes);
        Ok(bytes)
    }
}

/// Encodes a UUID, given as text, as its 128 bits.
pub struct UuidCompressor;

impl UuidCompressor {
    /// The 16 bytes of the UUID that the UTF-8 text `input` spells.
    pub fn compress(&self, input: &[u8]) -> (r: Result<Glob, CompressError>)
        ensures
            !valid_utf8(input@) || uuid_bytes_of(decode_utf8(input@)) is None ==> r == Err::<
                Glob,
                CompressError,
            >(CompressError::BadInput),
            valid_utf8(input@) && uuid_bytes_of(decode_utf8(input@)) is Some ==> r is Ok
                && r->Ok_0.wf() && r->Ok_0.width == 128 && r->Ok_0.data@ == uuid_bytes_of(
                decode_utf8(input@),
            )->Some_0,
    {
        match str_from_utf8(input) {
            None => Err(CompressError::BadInput),
            Some(text) => self.compress_text(text),
        }
    }

    /// The 16 bytes of the UUID that `text` spells.
    pub fn compress_text(&self, text: &str) -> (r: Result<Glob, CompressError>)
        ensures
            uuid_bytes_of(text@) is None ==> r == Err::<Glob, CompressError>(CompressError::BadInput),
            uuid_bytes_of(text@) is Some ==> r is Ok && r->Ok_0.wf() && r->Ok_0.width == 128
                && r->Ok_0.data@ == uuid_bytes_of(text@)->Some_0,
    {
        match parse_uuid(text) {
            None => Err(CompressError::BadInput),
            Some(bytes) => {
                let ghost b = bytes@;
                proof {
                    lemma_uuid_bytes_len(text@);
                    lemma2_to64();
                    vstd::arithmetic::power2::lemma_pow2_pos(128);
                    vstd::arithmetic::power2::lemma_pow2_adds(64, 64);
                }
                let g = Glob::new(128, bytes);
                proof {
                    lemma_le_value_bound(b);
                    vstd::arithmetic::div_mod::lemma_small_mod(le_value(b), pow2(128));
                    lemma_glob_data_of_value(g, b);
                }
                Ok(g)
            },
        }
    }

    /// The hyphenated text of the UUID held in a 128-bit glob.
    pub fn decompress(&self, glob: Glob) -> (r: Result<Vec<u8>, CompressError>)
        requires
            glob.wf(),
        ensures
            glob.width != 128 ==> r == Err::<Vec<u8>, CompressError>(
                CompressError::WrongGlobWidth(glob.width),
            ),
            glob.width == 128 ==> r is Ok && r->Ok_0@ == uuid_text_of(glob.data@),
    {
        if glob.width != 128 {
            return Err(CompressError::WrongGlobWidth(glob.width));
        }
        Ok(hyphenated_uuid(glob.data.as_slice()))
    }
}

} // verus!
