//! The encoder: walks a document against a schema and emits the blocks of a
//! compressed object.
//!
//! The schema drives the walk. A nested record or list becomes a header, its
//! contents and a terminator; anything else becomes one data block whose
//! length section gives the width of the payload.

use crate::co::{blocks_wf, is_data_block_for, Block, CompressedObject, Marker};
use crate::comp::{
    builtin, compressed, named_compressor, utf8_of, Compressor, IdentityCompressor, Value,
};
use crate::compress::{copy_bytes, CompressError, EnumCompressor};
use crate::schema::{
    composite_wf, lemma_fields_wf, name_rank, type_wf, CompositeType, List, Record, Schema, Type,
};
use crate::validator::{
    accepts, lemma_accepts_concat, lemma_run_from_accepted, marker_suits, step,
    validation_result,
};
use crate::vie::{lemma_vie_value_of_encoding, vie_encoding, vie_value};
use vstd::prelude::*;
use vstd::string::StringSliceAdditionalSpecFns;

verus! {

/// A document: a JSON-like value tree.
#[derive(Debug)]
pub enum Document {
    Null,
    Bool(bool),
    Int(i64),
    UInt(u64),
    Str(String),
    Array(Vec<Document>),
    Object(Vec<(String, Document)>),
}

/// Why a document could not be encoded.
#[derive(Clone, Debug, PartialEq, Eq)]
pub enum EncodeError {
    /// The document has a field that the schema's record lacks.
    UnexpectedField(String),
    /// A value does not have the shape its type asks for.
    WrongValueType,
    /// A type names no known compressor.
    UnknownCompressor(String),
    /// The compressor refused the value.
    CompressionFailure(CompressError),
    /// A record has more fields than field markers can number.
    TooManyFields,
}

/// `c` is the compressor that the non-nested type `t` calls for.
pub open spec fn compressor_for(t: Type, c: Compressor) -> bool {
    match t {
        Type::PassThrough => c is Identity,
        Type::Name(n) => named_compressor(utf8_of(n), c),
        Type::Enum { variants } => c is Enum && c->Enum_0@ == variants@.map_values(
            |v: String| utf8_of(v),
        ),
        Type::Nested(_) => false,
    }
}

/// The primitive value a document holds, if it is one.
pub open spec fn primitive_of(doc: Document) -> Option<Value> {
    match doc {
        Document::Bool(b) => Some(Value::Bool(b)),
        Document::Int(i) => Some(Value::Int(i)),
        Document::UInt(u) => Some(Value::UInt(u)),
        Document::Str(s) => Some(Value::Str(s)),
        _ => None,
    }
}

/// The position of the first field called `name`, if any.
pub open spec fn field_position(fields: Seq<(String, Type)>, name: Seq<char>) -> Option<int> {
    if exists|j: int| 0 <= j < fields.len() && fields[j].0@ == name {
        Some(
            choose|j: int|
                0 <= j < fields.len() && fields[j].0@ == name && forall|k: int|
                    0 <= k < j ==> fields[k].0@ != name,
        )
    } else {
        None
    }
}

/// What a block is, up to the bytes of its payload: the bytes of a
/// well-formed glob follow from its width and value.
pub enum BlockShape {
    Header(Marker, Marker),
    /// The marker, the bytes of the length section, the payload's width and
    /// the number its bits spell.
    Data(Marker, Seq<u8>, nat, nat),
    Terminator,
}

/// The shape of a block.
pub open spec fn shape_of(b: Block) -> BlockShape {
    match b {
        Block::Header(m1, m2) => BlockShape::Header(m1, m2),
        Block::Data(m, l, g) => BlockShape::Data(m, l@, g.width as nat, g.value()),
        Block::Terminator => BlockShape::Terminator,
    }
}

/// The shapes of a run of blocks.
pub open spec fn shapes(bs: Seq<Block>) -> Seq<BlockShape> {
    bs.map_values(|b: Block| shape_of(b))
}

/// The error for a non-nested type that calls for no compressor.
pub open spec fn missing_compressor_error(t: Type) -> EncodeError {
    match t {
        Type::Name(n) => EncodeError::UnknownCompressor(n),
        _ => EncodeError::WrongValueType,
    }
}

/// What encoding `doc` as a value of the non-nested type `t`, tagged `m`,
/// gives: one data block whose length section holds the payload's width,
/// with the payload the type's compressor makes of the value; or the first
/// fault met, looking up the compressor, reading the value, compressing it.
pub open spec fn value_outcome(t: Type, m: Marker, doc: Document) -> Result<
    Seq<BlockShape>,
    EncodeError,
> {
    if !exists|c: Compressor| compressor_for(t, c) {
        Err(missing_compressor_error(t))
    } else {
        let c = choose|c: Compressor| compressor_for(t, c);
        match primitive_of(doc) {
            None => Err(EncodeError::WrongValueType),
            Some(v) => match compressed(c, v) {
                Err(e) => Err(EncodeError::CompressionFailure(e)),
                Ok((w, val)) => Ok(seq![BlockShape::Data(m, vie_encoding(w), w, val)]),
            },
        }
    }
}

/// What encoding `doc` as a value of type `t`, tagged `m`, gives.
pub open spec fn type_outcome(t: Type, m: Marker, doc: Document) -> Result<
    Seq<BlockShape>,
    EncodeError,
>
    decreases doc, 1nat,
{
    match t {
        Type::Nested(ct) => composite_outcome(ct, Some(m), doc),
        _ => value_outcome(t, m, doc),
    }
}

/// `body` framed by a header and a terminator when the object is nested
/// (`field` is its marker), and as it is at the root.
pub open spec fn framed(kind: Marker, field: Option<Marker>, body: Seq<BlockShape>) -> Seq<
    BlockShape,
> {
    match field {
        Some(f) => seq![BlockShape::Header(kind, f)] + body + seq![BlockShape::Terminator],
        None => body,
    }
}

/// What encoding `doc` as the record or list `ct` gives: for a record, an
/// object's entries in their order, each tagged with its field's id; for a
/// list, an array's elements in order, each tagged `Element`; framed when
/// nested. Or the first fault met on the way.
pub open spec fn composite_outcome(ct: CompositeType, field: Option<Marker>, doc: Document) -> Result<
    Seq<BlockShape>,
    EncodeError,
>
    decreases doc, 0nat,
{
    match ct {
        CompositeType::Record(r) => match doc {
            Document::Object(entries) => match entries_outcome(r, entries@) {
                Ok(body) => Ok(framed(Marker::Record, field, body)),
                Err(e) => Err(e),
            },
            _ => Err(EncodeError::WrongValueType),
        },
        CompositeType::List(l) => match doc {
            Document::Array(items) => match items_outcome(*l.0, items@) {
                Ok(body) => Ok(framed(Marker::List, field, body)),
                Err(e) => Err(e),
            },
            _ => Err(EncodeError::WrongValueType),
        },
    }
}

/// What encoding one entry of an object as a field of `r` gives.
pub open spec fn entry_outcome(r: Record, e: (String, Document)) -> Result<
    Seq<BlockShape>,
    EncodeError,
>
    decreases e, 2nat,
{
    match field_position(r.0@, e.0@) {
        None => Err(EncodeError::UnexpectedField(e.0)),
        Some(j) => {
            let rank = name_rank(r.0@, utf8_of(e.0));
            if rank + 4 > u32::MAX {
                Err(EncodeError::TooManyFields)
            } else {
                type_outcome(r.0@[j].1, Marker::Field((rank + 4) as u32), e.1)
            }
        },
    }
}

/// What encoding the entries `es`, in order, gives.
pub open spec fn entries_outcome(r: Record, es: Seq<(String, Document)>) -> Result<
    Seq<BlockShape>,
    EncodeError,
>
    decreases es, 0nat,
{
    if es.len() == 0 {
        Ok(Seq::empty())
    } else {
        match entries_outcome(r, es.drop_last()) {
            Err(e) => Err(e),
            Ok(a) => match entry_outcome(r, es.last()) {
                Err(e) => Err(e),
                Ok(b) => Ok(a + b),
            },
        }
    }
}

/// What encoding the elements `items` of a list of `t`, in order, gives.
pub open spec fn items_outcome(t: Type, items: Seq<Document>) -> Result<
    Seq<BlockShape>,
    EncodeError,
>
    decreases items, 0nat,
{
    if items.len() == 0 {
        Ok(Seq::empty())
    } else {
        match items_outcome(t, items.drop_last()) {
            Err(e) => Err(e),
            Ok(a) => match type_outcome(t, Marker::Element, items.last()) {
                Err(e) => Err(e),
                Ok(b) => Ok(a + b),
            },
        }
    }
}

/// `r` and the blocks appended are what `o` says: the shapes on success,
/// the same error on failure.
pub open spec fn outcome_met(
    o: Result<Seq<BlockShape>, EncodeError>,
    r: Result<(), EncodeError>,
    appended: Seq<Block>,
) -> bool {
    match o {
        Ok(s) => r is Ok && shapes(appended) == s,
        Err(e) => r == Err::<(), EncodeError>(e),
    }
}

/// Once a prefix of the entries fails, the whole does, with that error.
proof fn lemma_entries_err(r: Record, es: Seq<(String, Document)>, k: int, e: EncodeError)
    requires
        0 <= k <= es.len(),
        entries_outcome(r, es.subrange(0, k)) == Err::<Seq<BlockShape>, EncodeError>(e),
    ensures
        entries_outcome(r, es) == Err::<Seq<BlockShape>, EncodeError>(e),
    decreases es.len() - k,
{
    if k < es.len() {
        assert(es.subrange(0, k + 1).drop_last() =~= es.subrange(0, k));
        lemma_entries_err(r, es, k + 1, e);
    } else {
        assert(es.subrange(0, k) =~= es);
    }
}

/// Once a prefix of the elements fails, the whole does, with that error.
proof fn lemma_items_err(t: Type, items: Seq<Document>, k: int, e: EncodeError)
    requires
        0 <= k <= items.len(),
        items_outcome(t, items.subrange(0, k)) == Err::<Seq<BlockShape>, EncodeError>(e),
    ensures
        items_outcome(t, items) == Err::<Seq<BlockShape>, EncodeError>(e),
    decreases items.len() - k,
{
    if k < items.len() {
        assert(items.subrange(0, k + 1).drop_last() =~= items.subrange(0, k));
        lemma_items_err(t, items, k + 1, e);
    } else {
        assert(items.subrange(0, k) =~= items);
    }
}

/// Shapes of blocks side by side.
proof fn lemma_shapes_concat(a: Seq<Block>, b: Seq<Block>)
    ensures
        shapes(a + b) == shapes(a) + shapes(b),
{
    assert(shapes(a + b) =~= shapes(a) + shapes(b));
}

/// The first field called `name` is at `i`.
proof fn lemma_field_position(fields: Seq<(String, Type)>, name: Seq<char>, i: int)
    requires
        0 <= i < fields.len(),
        fields[i].0@ == name,
        forall|k: int| 0 <= k < i ==> fields[k].0@ != name,
    ensures
        field_position(fields, name) == Some(i),
{
    let j = choose|j: int|
        0 <= j < fields.len() && fields[j].0@ == name && forall|k: int|
            0 <= k < j ==> fields[k].0@ != name;
    assert(0 <= j < fields.len() && fields[j].0@ == name && forall|k: int|
        0 <= k < j ==> fields[k].0@ != name);
    if j < i {
        assert(fields[j].0@ != name);
    } else if j > i {
        assert(fields[i].0@ != name);
    }
}

/// Two compressors that a type calls for compress alike.
proof fn lemma_compressor_for_unique(t: Type, c1: Compressor, c2: Compressor)
    requires
        compressor_for(t, c1),
        compressor_for(t, c2),
    ensures
        forall|v: Value| #[trigger] compressed(c1, v) == compressed(c2, v),
{
}

/// `new` is `old` with blocks appended.
pub open spec fn grows(old: Seq<Block>, new: Seq<Block>) -> bool {
    old.len() <= new.len() && new.subrange(0, old.len() as int) == old
}

/// The blocks appended to `old` to give `new`.
pub open spec fn added(old: Seq<Block>, new: Seq<Block>) -> Seq<Block> {
    new.subrange(old.len() as int, new.len() as int)
}

/// Blocks that, inside any scope of the given kind, are accepted and leave
/// the scopes as they found them.
pub open spec fn balanced_in(frag: Seq<Block>, in_record: bool) -> bool {
    forall|st: Seq<bool>|
        st.len() > 0 && st.last() == in_record ==> #[trigger] accepts(st, frag) == Some(st)
}

/// Blocks that, inside any scope that `m` suits, are accepted and leave the
/// scopes as they found them.
pub open spec fn balanced_item(frag: Seq<Block>, m: Marker) -> bool {
    forall|st: Seq<bool>|
        st.len() > 0 && marker_suits(st.last(), m) ==> #[trigger] accepts(st, frag) == Some(st)
}

/// Growing twice is growing once, by both additions.
proof fn lemma_grows_trans(a: Seq<Block>, b: Seq<Block>, c: Seq<Block>)
    requires
        grows(a, b),
        grows(b, c),
    ensures
        grows(a, c),
        added(a, c) == added(a, b) + added(b, c),
{
    assert(c.subrange(0, a.len() as int) =~= b.subrange(0, a.len() as int));
    assert(added(a, c) =~= added(a, b) + added(b, c));
}

/// Serializable blocks side by side stay serializable.
proof fn lemma_blocks_wf_concat(a: Seq<Block>, b: Seq<Block>)
    requires
        blocks_wf(a),
        blocks_wf(b),
    ensures
        blocks_wf(a + b),
{
    assert forall|j: int| 0 <= j < (a + b).len() implies (#[trigger] (a + b)[j]).wf() by {
        if j >= a.len() {
            assert((a + b)[j] == b[j - a.len()]);
        }
    }
}

/// No blocks are balanced.
proof fn lemma_balanced_empty(k: bool)
    ensures
        balanced_in(Seq::<Block>::empty(), k),
{
}

/// Balanced blocks side by side are balanced.
proof fn lemma_balanced_concat(a: Seq<Block>, b: Seq<Block>, k: bool)
    requires
        balanced_in(a, k),
        balanced_in(b, k),
    ensures
        balanced_in(a + b, k),
{
    assert forall|st: Seq<bool>| st.len() > 0 && st.last() == k implies #[trigger] accepts(
        st,
        a + b,
    ) == Some(st) by {
        lemma_accepts_concat(st, a, b);
        assert(accepts(st, a) == Some(st));
        assert(accepts(st, b) == Some(st));
    }
}

/// An item whose marker suits a scope is balanced inside it.
proof fn lemma_item_in_scope(frag: Seq<Block>, m: Marker, k: bool)
    requires
        balanced_item(frag, m),
        marker_suits(k, m),
    ensures
        balanced_in(frag, k),
{
    assert forall|st: Seq<bool>| st.len() > 0 && st.last() == k implies #[trigger] accepts(
        st,
        frag,
    ) == Some(st) by {
        assert(marker_suits(st.last(), m));
    }
}

/// A data block whose length section matches its payload is a balanced item.
proof fn lemma_data_item(b: Block, m: Marker)
    requires
        b is Data,
        b->Data_0 == m,
        vie_value(b->Data_1@) == b->Data_2.width as nat,
    ensures
        balanced_item(seq![b], m),
{
    assert forall|st: Seq<bool>| st.len() > 0 && marker_suits(st.last(), m) implies #[trigger] accepts(
        st,
        seq![b],
    ) == Some(st) by {
        assert(step(st, b) == Ok::<Seq<bool>, crate::validator::ValidationErrorKind>(st));
        assert(seq![b][0] == b);
        assert(seq![b].drop_first() =~= Seq::<Block>::empty());
        assert(accepts(st, Seq::<Block>::empty()) == Some(st));
    }
}

/// A header, balanced contents and a terminator make a balanced item.
proof fn lemma_nested_item(content: Seq<Block>, t: Marker, f: Marker)
    requires
        t is Record || t is List,
        balanced_in(content, t is Record),
    ensures
        balanced_item(seq![Block::Header(t, f)] + content + seq![Block::Terminator], f),
{
    let h = seq![Block::Header(t, f)];
    let e = seq![Block::Terminator];
    assert forall|st: Seq<bool>| st.len() > 0 && marker_suits(st.last(), f) implies #[trigger] accepts(
        st,
        h + content + e,
    ) == Some(st) by {
        let inner = st.push(t is Record);
        lemma_accepts_concat(st, h + content, e);
        lemma_accepts_concat(st, h, content);
        assert(step(st, Block::Header(t, f)) == Ok::<Seq<bool>, crate::validator::ValidationErrorKind>(
            inner,
        ));
        assert(h.drop_first() =~= Seq::<Block>::empty());
        assert(h[0] == Block::Header(t, f));
        assert(accepts(inner, Seq::<Block>::empty()) == Some(inner));
        assert(accepts(st, h) == Some(inner));
        assert(inner.last() == (t is Record));
        assert(accepts(inner, content) == Some(inner));
        assert(inner.drop_last() =~= st);
        assert(step(inner, Block::Terminator) == Ok::<Seq<bool>, crate::validator::ValidationErrorKind>(
            st,
        ));
        assert(e.drop_first() =~= Seq::<Block>::empty());
        assert(e[0] == Block::Terminator);
        assert(accepts(st, Seq::<Block>::empty()) == Some(st));
        assert(accepts(inner, e) == Some(st));
    }
}

/// A root header followed by balanced contents is a valid object.
proof fn lemma_rooted_valid(bs: Seq<Block>, root: Marker)
    requires
        root is Record || root is List,
        bs.len() >= 1,
        bs[0] == Block::Header(root, Marker::Null),
        balanced_in(bs.subrange(1, bs.len() as int), root is Record),
    ensures
        validation_result(bs) == Ok::<(), crate::validator::ValidationError>(()),
{
    let st = seq![root is Record];
    assert(step(Seq::empty(), bs[0]) == Ok::<Seq<bool>, crate::validator::ValidationErrorKind>(st));
    assert(st.last() == (root is Record));
    assert(accepts(st, bs.subrange(1, bs.len() as int)) == Some(st));
    lemma_run_from_accepted(st, bs, 1, bs.len() as int);
}

/// The primitive value a document holds, if it is one.
pub fn primitive_value(doc: &Document) -> (r: Option<Value>)
    ensures
        match *doc {
            Document::Bool(b) => r == Some(Value::Bool(b)),
            Document::Int(i) => r == Some(Value::Int(i)),
            Document::UInt(u) => r == Some(Value::UInt(u)),
            Document::Str(s) => r == Some(Value::Str(s)),
            _ => r is None,
        },
{
    match doc {
        Document::Bool(b) => Some(Value::Bool(*b)),
        Document::Int(i) => Some(Value::Int(*i)),
        Document::UInt(u) => Some(Value::UInt(*u)),
        Document::Str(s) => Some(Value::Str(s.clone())),
        _ => None,
    }
}

/// Encodes `value` following `schema`.
///
/// On success the object is a root header for the schema's root record or
/// list, followed by the blocks that `composite_outcome` gives; on failure
/// the error is the first fault that it meets. A successful object is well
/// formed: the validator accepts it, and only the root scope is open after
/// its last block.
pub fn encode(schema: &Schema, value: &Document) -> (r: Result<CompressedObject, EncodeError>)
    requires
        schema.spec_wf(),
    ensures
        match composite_outcome(schema.spec_root(), None, *value) {
            Ok(body) => r is Ok && shapes(r->Ok_0@) == seq![
                BlockShape::Header(root_marker(schema.spec_root()), Marker::Null),
            ] + body,
            Err(e) => r == Err::<CompressedObject, EncodeError>(e),
        },
        r is Ok ==> r->Ok_0@.len() >= 1 && r->Ok_0@[0] == Block::Header(
            root_marker(schema.spec_root()),
            Marker::Null,
        ),
        r is Ok ==> validation_result(r->Ok_0@) == Ok::<(), crate::validator::ValidationError>(()),
        r is Ok ==> accepts(Seq::empty(), r->Ok_0@) == Some(
            seq![schema.spec_root() is Record],
        ),
        r is Ok ==> blocks_wf(r->Ok_0@),
{
    let root = schema.root();
    let mut co = match root {
        CompositeType::Record(_) => CompressedObject::new_record(),
        CompositeType::List(_) => CompressedObject::new_list(),
    };
    let ghost start = co@;
    let res = encode_composite_type(root, None, &mut co, value);
    match res {
        Ok(()) => {},
        Err(e) => {
            return Err(e);
        },
    }
    proof {
        let rm = root_marker(*root);
        assert(co@[0] == start[0]);
        assert(added(start, co@) == co@.subrange(1, co@.len() as int));
        lemma_rooted_valid(co@, rm);
        assert(co@ =~= seq![co@[0]] + added(start, co@));
        assert(blocks_wf(seq![co@[0]]));
        lemma_blocks_wf_concat(seq![co@[0]], added(start, co@));
        lemma_shapes_concat(seq![co@[0]], added(start, co@));
        assert(shapes(seq![co@[0]]) =~= seq![BlockShape::Header(rm, Marker::Null)]);
        let st = seq![root is Record];
        let h = seq![co@[0]];
        lemma_accepts_concat(Seq::empty(), h, added(start, co@));
        assert(h[0] == co@[0]);
        assert(h.drop_first() =~= Seq::<Block>::empty());
        assert(step(Seq::empty(), co@[0]) == Ok::<Seq<bool>, crate::validator::ValidationErrorKind>(st));
        assert(accepts(st, Seq::<Block>::empty()) == Some(st));
        assert(accepts(Seq::empty(), h) == Some(st));
        assert(st.last() == (root is Record));
    }
    Ok(co)
}

/// The marker of the root header for `ct`.
pub open spec fn root_marker(ct: CompositeType) -> Marker {
    if ct is Record {
        Marker::Record
    } else {
        Marker::List
    }
}

/// Encodes a record or a list. A nested one (with a `field` marker) is
/// framed by its header and a terminator; the root one is not.
fn encode_composite_type(
    ct: &CompositeType,
    field: Option<Marker>,
    co: &mut CompressedObject,
    value: &Document,
) -> (r: Result<(), EncodeError>)
    requires
        field matches Some(f) ==> f.tags_data(),
        composite_wf(*ct),
    ensures
        outcome_met(composite_outcome(*ct, field, *value), r, added(old(co)@, final(co)@)),
        r is Ok ==> grows(old(co)@, final(co)@),
        r is Ok ==> blocks_wf(added(old(co)@, final(co)@)),
        r is Ok ==> match field {
            Some(f) => balanced_item(added(old(co)@, final(co)@), f),
            None => balanced_in(added(old(co)@, final(co)@), ct is Record),
        },
    decreases *value, 1nat,
{
    match ct {
        CompositeType::Record(r) => encode_record(r, field, co, value),
        CompositeType::List(l) => encode_list(l, field, co, value),
    }
}

/// Balanced contents pushed after a header, then closed by a terminator,
/// make a balanced item appended to what came before the header.
proof fn lemma_frame(
    before: Seq<Block>,
    opened: Seq<Block>,
    filled: Seq<Block>,
    closed: Seq<Block>,
    t: Marker,
    f: Marker,
)
    requires
        t is Record || t is List,
        opened == before.push(Block::Header(t, f)),
        grows(opened, filled),
        closed == filled.push(Block::Terminator),
        balanced_in(added(opened, filled), t is Record),
        blocks_wf(added(opened, filled)),
        f.wf(),
    ensures
        grows(before, closed),
        balanced_item(added(before, closed), f),
        blocks_wf(added(before, closed)),
        shapes(added(before, closed)) == seq![BlockShape::Header(t, f)] + shapes(
            added(opened, filled),
        ) + seq![BlockShape::Terminator],
{
    let n = before.len() as int;
    assert forall|j: int| 0 <= j < opened.len() implies filled[j] == opened[j] by {
        assert(filled.subrange(0, opened.len() as int)[j] == filled[j]);
    }
    assert forall|j: int| 0 <= j < n implies closed[j] == before[j] by {
        assert(filled[j] == opened[j]);
    }
    assert(closed.subrange(0, n) =~= before);
    let content = added(opened, filled);
    let framed = seq![Block::Header(t, f)] + content + seq![Block::Terminator];
    assert(framed.len() == closed.len() - n);
    assert forall|j: int| 0 <= j < framed.len() implies #[trigger] framed[j] == closed[n + j] by {
        if j == 0 {
            assert(filled[n] == opened[n]);
        } else if j < framed.len() - 1 {
            assert(framed[j] == content[j - 1]);
        } else {
        }
    }
    assert(added(before, closed) =~= framed);
    lemma_nested_item(added(opened, filled), t, f);
    assert(blocks_wf(seq![Block::Header(t, f)]));
    assert(blocks_wf(seq![Block::Terminator]));
    lemma_blocks_wf_concat(seq![Block::Header(t, f)], content);
    lemma_blocks_wf_concat(seq![Block::Header(t, f)] + content, seq![Block::Terminator]);
    lemma_shapes_concat(seq![Block::Header(t, f)] + content, seq![Block::Terminator]);
    lemma_shapes_concat(seq![Block::Header(t, f)], content);
    assert(shapes(seq![Block::Header(t, f)]) =~= seq![BlockShape::Header(t, f)]);
    assert(shapes(seq![Block::Terminator]) =~= seq![BlockShape::Terminator]);
}

/// Encodes a record: each field of the object `value`, in its order.
fn encode_record(
    record: &Record,
    field: Option<Marker>,
    co: &mut CompressedObject,
    value: &Document,
) -> (r: Result<(), EncodeError>)
    requires
        field matches Some(f) ==> f.tags_data(),
        composite_wf(CompositeType::Record(*record)),
    ensures
        outcome_met(
            composite_outcome(CompositeType::Record(*record), field, *value),
            r,
            added(old(co)@, final(co)@),
        ),
        r is Ok ==> grows(old(co)@, final(co)@),
        r is Ok ==> blocks_wf(added(old(co)@, final(co)@)),
        r is Ok ==> match field {
            Some(f) => balanced_item(added(old(co)@, final(co)@), f),
            None => balanced_in(added(old(co)@, final(co)@), true),
        },
    decreases *value, 0nat,
{
    let entries = match value {
        Document::Object(entries) => entries,
        _ => {
            return Err(EncodeError::WrongValueType);
        },
    };
    let ghost before = co@;
    if let Some(f) = field {
        let opened = co.begin_nested_record(f);
        assert(opened is Ok);
    }
    let ghost start = co@;
    proof {
        assert(added(start, co@) =~= Seq::<Block>::empty());
        assert(co@.subrange(0, start.len() as int) =~= start);
        assert(shapes(added(start, co@)) =~= Seq::<BlockShape>::empty());
        assert(entries@.subrange(0, 0) =~= Seq::<(String, Document)>::empty());
        lemma_balanced_empty(true);
    }
    let mut i: usize = 0;
    while i < entries.len()
        invariant
            *value is Object,
            value->Object_0 == *entries,
            i <= entries@.len(),
            composite_wf(CompositeType::Record(*record)),
            entries_outcome(*record, entries@.subrange(0, i as int)) == Ok::<
                Seq<BlockShape>,
                EncodeError,
            >(shapes(added(start, co@))),
            grows(start, co@),
            blocks_wf(added(start, co@)),
            balanced_in(added(start, co@), true),
        decreases entries.len() - i,
    {
        let key = &entries[i].0;
        let item = &entries[i].1;
        let ghost pre = entries@.subrange(0, i as int);
        let ghost next = entries@.subrange(0, i + 1);
        proof {
            assert(next.drop_last() =~= pre);
            assert(next.last() == entries@[i as int]);
        }
        let idx = match record.field_index(key) {
            Some(idx) => idx,
            None => {
                proof {
                    lemma_entries_err(*record, entries@, i + 1, EncodeError::UnexpectedField(*key));
                }
                return Err(EncodeError::UnexpectedField(key.clone()));
            },
        };
        proof {
            lemma_field_position(record.0@, key@, idx as int);
        }
        let rank = record.field_rank(key);
        if rank > 0xffff_fffb {
            proof {
                lemma_entries_err(*record, entries@, i + 1, EncodeError::TooManyFields);
            }
            return Err(EncodeError::TooManyFields);
        }
        let marker = Marker::Field(rank as u32 + 4);
        let ty = &record.0[idx].1;
        proof {
            lemma_fields_wf(record.0@);
            assert(type_wf(record.0@[idx as int].1));
        }
        let ghost mid = co@;
        let res = match ty {
            Type::Nested(ct) => encode_composite_type(ct, Some(marker), co, item),
            _ => encode_field(marker, ty, co, item),
        };
        proof {
            assert(outcome_met(type_outcome(*ty, marker, *item), res, added(mid, co@)));
            assert(entry_outcome(*record, entries@[i as int]) == type_outcome(*ty, marker, *item));
        }
        match res {
            Ok(()) => {},
            Err(e) => {
                proof {
                    lemma_entries_err(*record, entries@, i + 1, e);
                }
                return Err(e);
            },
        }
        proof {
            lemma_grows_trans(start, mid, co@);
            lemma_blocks_wf_concat(added(start, mid), added(mid, co@));
            lemma_item_in_scope(added(mid, co@), marker, true);
            lemma_balanced_concat(added(start, mid), added(mid, co@), true);
            lemma_shapes_concat(added(start, mid), added(mid, co@));
        }
        i = i + 1;
    }
    proof {
        assert(entries@.subrange(0, entries@.len() as int) =~= entries@);
    }
    if let Some(f) = field {
        let ghost filled = co@;
        co.end_nested_object();
        proof {
            lemma_frame(before, start, filled, co@, Marker::Record, f);
        }
    } else {
        proof {
            assert(start == before);
        }
    }
    Ok(())
}

/// Encodes a list: each element of the array `value`, in order.
fn encode_list(
    list: &List,
    field: Option<Marker>,
    co: &mut CompressedObject,
    value: &Document,
) -> (r: Result<(), EncodeError>)
    requires
        field matches Some(f) ==> f.tags_data(),
        composite_wf(CompositeType::List(*list)),
    ensures
        outcome_met(
            composite_outcome(CompositeType::List(*list), field, *value),
            r,
            added(old(co)@, final(co)@),
        ),
        r is Ok ==> grows(old(co)@, final(co)@),
        r is Ok ==> blocks_wf(added(old(co)@, final(co)@)),
        r is Ok ==> match field {
            Some(f) => balanced_item(added(old(co)@, final(co)@), f),
            None => balanced_in(added(old(co)@, final(co)@), false),
        },
    decreases *value, 0nat,
{
    let items = match value {
        Document::Array(items) => items,
        _ => {
            return Err(EncodeError::WrongValueType);
        },
    };
    let ghost before = co@;
    if let Some(f) = field {
        let opened = co.begin_nested_list(f);
        assert(opened is Ok);
    }
    let ghost start = co@;
    proof {
        assert(added(start, co@) =~= Seq::<Block>::empty());
        assert(co@.subrange(0, start.len() as int) =~= start);
        assert(shapes(added(start, co@)) =~= Seq::<BlockShape>::empty());
        assert(items@.subrange(0, 0) =~= Seq::<Document>::empty());
        lemma_balanced_empty(false);
    }
    let elem_ty: &Type = &list.0;
    let mut i: usize = 0;
    while i < items.len()
        invariant
            *value is Array,
            value->Array_0 == *items,
            i <= items@.len(),
            *elem_ty == *list.0,
            composite_wf(CompositeType::List(*list)),
            items_outcome(*list.0, items@.subrange(0, i as int)) == Ok::<
                Seq<BlockShape>,
                EncodeError,
            >(shapes(added(start, co@))),
            grows(start, co@),
            blocks_wf(added(start, co@)),
            balanced_in(added(start, co@), false),
        decreases items.len() - i,
    {
        let item = &items[i];
        let ghost mid = co@;
        proof {
            let next = items@.subrange(0, i + 1);
            assert(next.drop_last() =~= items@.subrange(0, i as int));
            assert(next.last() == items@[i as int]);
        }
        let res = match elem_ty {
            Type::Nested(ct) => encode_composite_type(ct, Some(Marker::Element), co, item),
            _ => encode_field(Marker::Element, elem_ty, co, item),
        };
        proof {
            assert(outcome_met(type_outcome(*list.0, Marker::Element, *item), res, added(mid, co@)));
        }
        match res {
            Ok(()) => {},
            Err(e) => {
                proof {
                    lemma_items_err(*list.0, items@, i + 1, e);
                }
                return Err(e);
            },
        }
        proof {
            lemma_grows_trans(start, mid, co@);
            lemma_blocks_wf_concat(added(start, mid), added(mid, co@));
            lemma_item_in_scope(added(mid, co@), Marker::Element, false);
            lemma_balanced_concat(added(start, mid), added(mid, co@), false);
            lemma_shapes_concat(added(start, mid), added(mid, co@));
        }
        i = i + 1;
    }
    proof {
        assert(items@.subrange(0, items@.len() as int) =~= items@);
    }
    if let Some(f) = field {
        let ghost filled = co@;
        co.end_nested_object();
        proof {
            lemma_frame(before, start, filled, co@, Marker::List, f);
        }
    } else {
        proof {
            assert(start == before);
        }
    }
    Ok(())
}

/// Encodes a value of a non-nested type as one data block tagged `marker`.
fn encode_field(marker: Marker, ty: &Type, co: &mut CompressedObject, value: &Document) -> (r:
    Result<(), EncodeError>)
    requires
        marker.tags_data(),
        !(*ty is Nested),
    ensures
        outcome_met(value_outcome(*ty, marker, *value), r, added(old(co)@, final(co)@)),
        r is Ok ==> grows(old(co)@, final(co)@),
        r is Ok ==> blocks_wf(added(old(co)@, final(co)@)),
        r is Ok ==> balanced_item(added(old(co)@, final(co)@), marker),
        r is Err ==> final(co)@ == old(co)@,
{
    let compressor = match get_compressor_for_type(ty) {
        Ok(c) => c,
        Err(e) => {
            return Err(e);
        },
    };
    proof {
        lemma_compressor_for_unique(*ty, compressor, choose|c: Compressor| compressor_for(*ty, c));
    }
    let prim = match primitive_value(value) {
        Some(p) => p,
        None => {
            return Err(EncodeError::WrongValueType);
        },
    };
    let glob = match compressor.compress(&prim) {
        Ok(g) => g,
        Err(e) => {
            return Err(EncodeError::CompressionFailure(e));
        },
    };
    let ghost g = glob;
    let pushed = co.push_data(marker, glob);
    assert(pushed is Ok);
    proof {
        let b = co@.last();
        assert(is_data_block_for(b, marker, g));
        lemma_vie_value_of_encoding(g.width as nat);
        lemma_data_item(b, marker);
        assert(added(old(co)@, co@) =~= seq![b]);
        assert(blocks_wf(seq![b]));
        assert(shapes(seq![b]) =~= seq![shape_of(b)]);
    }
    Ok(())
}

/// The compressor for a non-nested type.
fn get_compressor_for_type(ty: &Type) -> (r: Result<Compressor, EncodeError>)
    requires
        !(*ty is Nested),
    ensures
        match r {
            Ok(c) => compressor_for(*ty, c),
            Err(e) => e == missing_compressor_error(*ty) && forall|c: Compressor|
                !compressor_for(*ty, c),
        },
{
    match ty {
        Type::PassThrough => Ok(Compressor::Identity(IdentityCompressor)),
        Type::Name(name) => lookup_named_compressor(name),
        Type::Enum { variants } => {
            let mut vs: Vec<Vec<u8>> = Vec::new();
            let mut i: usize = 0;
            while i < variants.len()
                invariant
                    i <= variants@.len(),
                    vs@.len() == i,
                    forall|j: int| 0 <= j < i ==> (#[trigger] vs@[j])@ == utf8_of(variants@[j]),
                decreases variants.len() - i,
            {
                vs.push(copy_bytes(variants[i].as_str().as_bytes()));
                i = i + 1;
            }
            let e = EnumCompressor::from_variants(vs);
            proof {
                assert(e@ =~= variants@.map_values(|v: String| utf8_of(v)));
            }
            Ok(Compressor::Enum(e))
        },
        Type::Nested(_) => Err(EncodeError::WrongValueType),
    }
}

/// The built-in compressor called `name`.
fn lookup_named_compressor(name: &String) -> (r: Result<Compressor, EncodeError>)
    ensures
        match r {
            Ok(c) => named_compressor(utf8_of(*name), c),
            Err(e) => e == EncodeError::UnknownCompressor(*name) && forall|c: Compressor|
                !named_compressor(utf8_of(*name), c),
        },
{
    let n = name.as_str();
    proof {
        assert(n.spec_bytes() == utf8_of(*name));
    }
    match builtin(n) {
        Some(c) => Ok(c),
        None => Err(EncodeError::UnknownCompressor(name.clone())),
    }
}

} // verus!
