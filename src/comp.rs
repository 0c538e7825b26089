//! The compressor capability: typed primitive values to globs.

use crate::compress::{
    copy_bytes, uuid_bytes_of, uuid_text_of, variant_index, BoolCompressor, CompressError, EnumCompressor,
    IntegerCompressor, PassThroughCompressor, UuidCompressor,
};
use crate::glob::Glob;
use crate::math::{bit_width_for, le_bytes, le_to_u64, le_value};
use vstd::arithmetic::power2::{lemma2_to64, pow2};
use vstd::prelude::*;
use vstd::string::StringSliceAdditionalSpecFns;
use vstd::utf8::{decode_utf8, encode_utf8, valid_utf8};

verus! {

/// A primitive value to be compressed.
#[derive(Clone, Debug, PartialEq, Eq)]
pub enum Value {
    Bool(bool),
    Int(i64),
    UInt(u64),
    Str(String),
}

/// How wide a compressor's output is: always the same number of bits, or
/// depending on the value.
#[derive(Copy, Clone, Debug, PartialEq, Eq, Structural)]
pub enum EncodedWidth {
    Fixed(usize),
    Variable,
}

/// Takes strings and keeps their UTF-8 bytes as they are.
#[derive(Copy, Clone, Debug, PartialEq, Eq, Structural)]
pub struct IdentityCompressor;

/// Takes booleans, as one bit.
#[derive(Copy, Clone, Debug, PartialEq, Eq, Structural)]
pub struct BooleanCompressor;

/// A compressor of primitive values.
pub enum Compressor {
    Identity(IdentityCompressor),
    Boolean(BooleanCompressor),
    Enum(EnumCompressor),
    Integer(IntegerCompressor),
    Uuid(UuidCompressor),
}

/// The UTF-8 bytes of a string.
pub open spec fn utf8_of(s: String) -> Seq<u8> {
    encode_utf8(s@)
}

/// What compressing `v` with `c` gives: the glob's width and the number its
/// bits spell, or the error.
pub open spec fn compressed(c: Compressor, v: Value) -> Result<(nat, nat), CompressError> {
    match c {
        Compressor::Identity(_) => match v {
            Value::Str(s) => if 0 < utf8_of(s).len() && 8 * utf8_of(s).len() <= usize::MAX {
                Ok((8 * utf8_of(s).len(), le_value(utf8_of(s))))
            } else {
                Err(CompressError::BadInput)
            },
            _ => Err(CompressError::UnexpectedType),
        },
        Compressor::Boolean(_) => match v {
            Value::Bool(b) => Ok((1, if b { 1nat } else { 0nat })),
            _ => Err(CompressError::UnexpectedType),
        },
        Compressor::Enum(e) => match v {
            Value::Str(s) => match variant_index(e@, utf8_of(s)) {
                None => Err(CompressError::UnknownVariant),
                Some(i) => if bit_width_for(e@.len()) == 0 {
                    Err(CompressError::BadInput)
                } else {
                    Ok((bit_width_for(e@.len()), i))
                },
            },
            _ => Err(CompressError::UnexpectedType),
        },
        Compressor::Integer(n) => match v {
            Value::UInt(x) => if n.spec_width() == 0 {
                Err(CompressError::BadInput)
            } else {
                Ok((n.spec_width(), x as nat % pow2(n.spec_width())))
            },
            _ => Err(CompressError::UnexpectedType),
        },
        Compressor::Uuid(_) => match v {
            Value::Str(s) => match uuid_bytes_of(s@) {
                None => Err(CompressError::BadInput),
                Some(b) => Ok((128, le_value(b))),
            },
            _ => Err(CompressError::UnexpectedType),
        },
    }
}

/// The output width a compressor declares.
pub open spec fn declared_width(c: Compressor) -> EncodedWidth {
    match c {
        Compressor::Identity(_) => EncodedWidth::Variable,
        Compressor::Boolean(_) => EncodedWidth::Fixed(1),
        Compressor::Enum(e) => EncodedWidth::Fixed(bit_width_for(e@.len()) as usize),
        Compressor::Integer(n) => EncodedWidth::Fixed(n.spec_width() as usize),
        Compressor::Uuid(_) => EncodedWidth::Fixed(128),
    }
}

/// Relies on `String::from_utf8`: it accepts exactly the byte strings that
/// are valid UTF-8, and the string then holds the characters they encode.
#[verifier::external_body]
fn string_from_utf8(bytes: Vec<u8>) -> (r: Option<String>)
    ensures
        match r {
            Some(s) => valid_utf8(bytes@) && s@ == decode_utf8(bytes@),
            None => !valid_utf8(bytes@),
        },
{
    String::from_utf8(bytes).ok()
}

/// The text that decompressing to `bytes` gives: the string they encode as
/// UTF-8, or `BadInput`.
pub open spec fn text_result(bytes: Seq<u8>, r: Result<Value, CompressError>) -> bool {
    if valid_utf8(bytes) {
        r matches Ok(Value::Str(s)) && s@ == decode_utf8(bytes)
    } else {
        r == Err::<Value, CompressError>(CompressError::BadInput)
    }
}

/// What decompressing `g` with `c` gives.
pub open spec fn decompressed(c: Compressor, g: Glob, r: Result<Value, CompressError>) -> bool {
    match c {
        Compressor::Identity(_) => if g.width % 8 != 0 {
            r == Err::<Value, CompressError>(CompressError::WrongGlobWidth(g.width))
        } else {
            text_result(g.data@, r)
        },
        Compressor::Boolean(_) => if g.width != 1 {
            r == Err::<Value, CompressError>(CompressError::WrongGlobWidth(g.width))
        } else {
            r == Ok::<Value, CompressError>(Value::Bool(g.value() == 1))
        },
        Compressor::Enum(e) => if g.width != bit_width_for(e@.len()) {
            r == Err::<Value, CompressError>(CompressError::WrongGlobWidth(g.width))
        } else if g.value() >= e@.len() {
            r is Err
        } else {
            text_result(e@[g.value() as int], r)
        },
        Compressor::Integer(n) => if g.width > 64 {
            r == Err::<Value, CompressError>(CompressError::GlobTooLarge(g.width))
        } else {
            r == Ok::<Value, CompressError>(Value::UInt(g.value() as u64))
        },
        Compressor::Uuid(_) => if g.width != 128 {
            r == Err::<Value, CompressError>(CompressError::WrongGlobWidth(g.width))
        } else {
            text_result(uuid_text_of(g.data@), r)
        },
    }
}

/// The string that `bytes` encode as UTF-8.
fn text_of(bytes: Vec<u8>) -> (r: Result<Value, CompressError>)
    ensures
        text_result(bytes@, r),
{
    match string_from_utf8(bytes) {
        Some(s) => Ok(Value::Str(s)),
        None => Err(CompressError::BadInput),
    }
}

/// The UTF-8 bytes of a string, copied.
fn utf8_bytes(s: &String) -> (r: Vec<u8>)
    ensures
        r@ == utf8_of(*s),
{
    copy_bytes(s.as_str().as_bytes())
}

impl Compressor {
    /// Compresses `value`; it must have the type this compressor takes.
    pub fn compress(&self, value: &Value) -> (r: Result<Glob, CompressError>)
        ensures
            match r {
                Ok(g) => g.wf() && compressed(*self, *value) == Ok::<(nat, nat), CompressError>(
                    (g.width as nat, g.value()),
                ),
                Err(e) => compressed(*self, *value) == Err::<(nat, nat), CompressError>(e),
            },
    {
        match self {
            Compressor::Identity(_) => match value {
                Value::Str(s) => {
                    let bytes = utf8_bytes(s);
                    PassThroughCompressor.compress(bytes.as_slice())
                },
                _ => Err(CompressError::UnexpectedType),
            },
            Compressor::Boolean(_) => match value {
                Value::Bool(b) => {
                    let bit: u8 = if *b {
                        1
                    } else {
                        0
                    };
                    let mut one: Vec<u8> = Vec::new();
                    one.push(bit);
                    proof {
                        assert(one@ =~= seq![bit]);
                    }
                    BoolCompressor.compress(one.as_slice())
                },
                _ => Err(CompressError::UnexpectedType),
            },
            Compressor::Enum(e) => match value {
                Value::Str(s) => {
                    let bytes = utf8_bytes(s);
                    e.compress(bytes.as_slice())
                },
                _ => Err(CompressError::UnexpectedType),
            },
            Compressor::Integer(n) => match value {
                Value::UInt(x) => {
                    let bytes = le_bytes(*x, 8);
                    proof {
                        lemma2_to64();
                        vstd::arithmetic::div_mod::lemma_small_mod(*x as nat, pow2(64));
                    }
                    n.compress(bytes.as_slice())
                },
                _ => Err(CompressError::UnexpectedType),
            },
            Compressor::Uuid(u) => match value {
                Value::Str(s) => u.compress_text(s.as_str()),
                _ => Err(CompressError::UnexpectedType),
            },
        }
    }

    /// Interprets a glob as a value of the type this compressor takes.
    pub fn decompress(&self, glob: &Glob) -> (r: Result<Value, CompressError>)
        requires
            glob.wf(),
        ensures
            decompressed(*self, *glob, r),
    {
        match self {
            Compressor::Identity(_) => {
                if glob.width % 8 != 0 {
                    return Err(CompressError::WrongGlobWidth(glob.width));
                }
                text_of(copy_bytes(glob.data.as_slice()))
            },
            Compressor::Boolean(_) => {
                if glob.width != 1 {
                    return Err(CompressError::WrongGlobWidth(glob.width));
                }
                proof {
                    assert(glob.data@ =~= seq![glob.data@[0]]);
                    crate::math::lemma_le_value_single(glob.data@[0]);
                }
                Ok(Value::Bool(glob.data[0] == 1))
            },
            Compressor::Enum(e) => {
                let copy = Glob { width: glob.width, data: copy_bytes(glob.data.as_slice()) };
                match e.decompress(copy) {
                    Ok(bytes) => text_of(bytes),
                    Err(err) => Err(err),
                }
            },
            Compressor::Integer(_) => {
                if glob.width > 64 {
                    return Err(CompressError::GlobTooLarge(glob.width));
                }
                proof {
                    assert(glob.data@.len() <= 8) by {
                        assert(glob.data@.len() == (glob.width as nat + 7) / 8);
                    }
                }
                Ok(Value::UInt(le_to_u64(glob.data.as_slice())))
            },
            Compressor::Uuid(u) => {
                let copy = Glob { width: glob.width, data: copy_bytes(glob.data.as_slice()) };
                match u.decompress(copy) {
                    Ok(bytes) => text_of(bytes),
                    Err(err) => Err(err),
                }
            },
        }
    }

    /// The width of this compressor's output.
    pub fn encoded_width(&self) -> (r: EncodedWidth)
        ensures
            r == declared_width(*self),
    {
        match self {
            Compressor::Identity(_) => EncodedWidth::Variable,
            Compressor::Boolean(_) => EncodedWidth::Fixed(1),
            Compressor::Enum(e) => EncodedWidth::Fixed(e.result_width()),
            Compressor::Integer(n) => EncodedWidth::Fixed(n.width()),
            Compressor::Uuid(_) => EncodedWidth::Fixed(128),
        }
    }
}

/// The decimal number the ASCII digits `d` spell, most significant first.
pub open spec fn decimal_value(d: Seq<u8>) -> nat
    decreases d.len(),
{
    if d.len() == 0 {
        0
    } else {
        decimal_value(d.drop_last()) * 10 + (d.last() - 48) as nat
    }
}

/// The bytes are all ASCII digits.
pub open spec fn all_digits(d: Seq<u8>) -> bool {
    forall|i: int| 0 <= i < d.len() ==> 48 <= #[trigger] d[i] <= 57
}

/// The bytes of the name `bool`.
pub open spec fn bool_name() -> Seq<u8> {
    seq![98u8, 111u8, 111u8, 108u8]
}

/// The bytes of the name `uuid`.
pub open spec fn uuid_name() -> Seq<u8> {
    seq![117u8, 117u8, 105u8, 100u8]
}

/// The name is `u` followed by one or more decimal digits.
pub open spec fn is_integer_name(name: Seq<u8>) -> bool {
    name.len() >= 2 && name[0] == 117u8 && all_digits(name.drop_first())
}

/// `c` is the built-in compressor called `name`.
pub open spec fn named_compressor(name: Seq<u8>, c: Compressor) -> bool {
    ||| name == bool_name() && c is Boolean
    ||| name == uuid_name() && c is Uuid
    ||| is_integer_name(name) && decimal_value(name.drop_first()) <= usize::MAX && c is Integer
        && c->Integer_0.spec_width() == decimal_value(name.drop_first())
}

/// Reads the decimal digits of `d`; nothing if the number does not fit.
fn parse_decimal(d: &[u8]) -> (r: Option<usize>)
    requires
        all_digits(d@),
    ensures
        match r {
            Some(v) => v == decimal_value(d@),
            None => decimal_value(d@) > usize::MAX,
        },
{
    let mut acc: usize = 0;
    let mut i: usize = 0;
    while i < d.len()
        invariant
            i <= d@.len(),
            all_digits(d@),
            acc == decimal_value(d@.subrange(0, i as int)),
        decreases d.len() - i,
    {
        let digit = (d[i] - 48) as usize;
        proof {
            assert(d@.subrange(0, i + 1).drop_last() =~= d@.subrange(0, i as int));
            assert(48 <= d@[i as int] <= 57);
        }
        if acc > (usize::MAX - digit) / 10 {
            proof {
                lemma_decimal_prefix_le(d@, i + 1);
            }
            return None;
        }
        acc = acc * 10 + digit;
        i = i + 1;
    }
    proof {
        assert(d@.subrange(0, d@.len() as int) =~= d@);
    }
    Some(acc)
}

/// A longer run of digits spells at least as much.
proof fn lemma_decimal_prefix_le(d: Seq<u8>, i: int)
    requires
        0 <= i <= d.len(),
        all_digits(d),
    ensures
        decimal_value(d.subrange(0, i)) <= decimal_value(d),
    decreases d.len() - i,
{
    if i < d.len() {
        lemma_decimal_prefix_le(d, i + 1);
        assert(d.subrange(0, i + 1).drop_last() =~= d.subrange(0, i));
        assert(48 <= d[i] <= 57);
    } else {
        assert(d.subrange(0, i) =~= d);
    }
}

/// Looks up a built-in compressor by name: `bool`, `uuid`, or `u` with the
/// bit width in decimal digits. Widths that do not fit a `usize` are no
/// name.
pub fn builtin(name: &str) -> (r: Option<Compressor>)
    ensures
        name.spec_bytes() == bool_name() ==> r matches Some(Compressor::Boolean(_)),
        name.spec_bytes() == uuid_name() ==> r matches Some(Compressor::Uuid(_)),
        is_integer_name(name.spec_bytes()) ==> (r is Some <==> decimal_value(
            name.spec_bytes().drop_first(),
        ) <= usize::MAX),
        is_integer_name(name.spec_bytes()) && r is Some ==> r->Some_0 is Integer
            && r->Some_0->Integer_0.spec_width() == decimal_value(name.spec_bytes().drop_first()),
        name.spec_bytes() != bool_name() && name.spec_bytes() != uuid_name() && !is_integer_name(
            name.spec_bytes(),
        ) ==> r is None,
        match r {
            Some(c) => named_compressor(name.spec_bytes(), c),
            None => forall|c: Compressor| !named_compressor(name.spec_bytes(), c),
        },
{
    let b = name.as_bytes();
    if b.len() == 4 && b[0] == 98 && b[1] == 111 && b[2] == 111 && b[3] == 108 {
        proof {
            assert(b@ =~= bool_name());
        }
        return Some(Compressor::Boolean(BooleanCompressor));
    }
    if b.len() == 4 && b[0] == 117 && b[1] == 117 && b[2] == 105 && b[3] == 100 {
        proof {
            assert(b@ =~= uuid_name());
        }
        return Some(Compressor::Uuid(UuidCompressor));
    }
    proof {
        if b@.len() == 4 {
            assert(b@ != bool_name() || (b@[0] == 98 && b@[1] == 111 && b@[2] == 111 && b@[3]
                == 108));
            assert(b@ != uuid_name() || (b@[0] == 117 && b@[1] == 117 && b@[2] == 105 && b@[3]
                == 100));
        }
        assert(bool_name().len() == 4);
        assert(uuid_name().len() == 4);
        assert(b@ != bool_name());
        assert(b@ != uuid_name());
        assert(!is_integer_name(bool_name()));
        assert(!is_integer_name(uuid_name())) by {
            assert(uuid_name().drop_first()[0] == 117u8);
        }
    }
    if b.len() < 2 || b[0] != 117 {
        return None;
    }
    let mut digits: Vec<u8> = Vec::new();
    let mut i: usize = 1;
    while i < b.len()
        invariant
            1 <= i <= b@.len(),
            b@ == name.spec_bytes(),
            b@ != bool_name(),
            b@ != uuid_name(),
            digits@ == b@.subrange(1, i as int),
            all_digits(digits@),
        decreases b.len() - i,
    {
        if b[i] < 48 || b[i] > 57 {
            proof {
                assert(b@.drop_first()[i - 1] == b@[i as int]);
            }
            return None;
        }
        digits.push(b[i]);
        i = i + 1;
        proof {
            assert(digits@ =~= b@.subrange(1, i as int));
        }
    }
    proof {
        assert(digits@ =~= b@.drop_first());
        assert(b@.drop_first() == name.spec_bytes().drop_first());
    }
    match parse_decimal(digits.as_slice()) {
        Some(width) => Some(Compressor::Integer(IntegerCompressor::new(width))),
        None => None,
    }
}

} // verus!
