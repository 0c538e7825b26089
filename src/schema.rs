//! Schemas: the type tree that drives encoding.

use crate::comp::utf8_of;
use crate::math::{bit_width_for, required_bit_width};
use vstd::prelude::*;
use vstd::string::StringSliceAdditionalSpecFns;

verus! {

/// The type of a record field or list element.
pub enum Type {
    /// Raw bytes, encoded as they are.
    PassThrough,
    /// A built-in compressor, by name (`bool`, `u<bits>`, `uuid`, ...).
    Name(String),
    /// A nested record or list.
    Nested(CompositeType),
    /// One of a fixed set of strings, encoded as its ordinal. A well-formed
    /// schema keeps the variants in strictly ascending order, so that
    /// ordinals are reproducible.
    Enum { variants: Vec<String> },
}

/// A record or a list.
pub enum CompositeType {
    Record(Record),
    List(List),
}

/// The fields of a record: names, distinct, with their types.
///
/// A field's id is 4 plus the number of names that sort before its own
/// (bytewise, as `str` orders), so that ids follow the ascending order of
/// names whatever the order of the fields here; ids 0 to 3 are the reserved
/// markers.
pub struct Record(pub Vec<(String, Type)>);

/// A list of values of one type.
pub struct List(pub Box<Type>);

/// An interned field identifier.
#[derive(Copy, Clone, Debug, PartialEq, Eq, Structural)]
pub struct FieldId(pub u32);

impl FieldId {
    /// The identifier `i`.
    pub fn new(i: u32) -> (r: FieldId)
        ensures
            r.0 == i,
    {
        FieldId(i)
    }
}

/// The first id given to a field.
pub const FIRST_FIELD_ID: u32 = 4;

/// `a` sorts before `b`, bytewise, a proper prefix first: the order of
/// `str`.
pub open spec fn bytes_lt(a: Seq<u8>, b: Seq<u8>) -> bool
    decreases a.len(),
{
    if b.len() == 0 {
        false
    } else if a.len() == 0 {
        true
    } else if a[0] != b[0] {
        a[0] < b[0]
    } else {
        bytes_lt(a.drop_first(), b.drop_first())
    }
}

/// The number of fields whose name sorts before `name`.
pub open spec fn name_rank(fields: Seq<(String, Type)>, name: Seq<u8>) -> nat
    decreases fields.len(),
{
    if fields.len() == 0 {
        0
    } else {
        name_rank(fields.drop_last(), name) + if bytes_lt(utf8_of(fields.last().0), name) {
            1nat
        } else {
            0nat
        }
    }
}

/// Whether `a` sorts before `b`.
pub fn sorts_before(a: &[u8], b: &[u8]) -> (r: bool)
    ensures
        r == bytes_lt(a@, b@),
{
    let mut i: usize = 0;
    proof {
        assert(a@.subrange(0, a@.len() as int) =~= a@);
        assert(b@.subrange(0, b@.len() as int) =~= b@);
    }
    while i < a.len() && i < b.len() && a[i] == b[i]
        invariant
            i <= a@.len(),
            i <= b@.len(),
            bytes_lt(a@, b@) == bytes_lt(
                a@.subrange(i as int, a@.len() as int),
                b@.subrange(i as int, b@.len() as int),
            ),
        decreases a.len() - i,
    {
        proof {
            let sa = a@.subrange(i as int, a@.len() as int);
            let sb = b@.subrange(i as int, b@.len() as int);
            assert(sa.drop_first() =~= a@.subrange(i + 1, a@.len() as int));
            assert(sb.drop_first() =~= b@.subrange(i + 1, b@.len() as int));
            assert(sa[0] == sb[0]);
        }
        i = i + 1;
    }
    proof {
        assert(a@.subrange(0, a@.len() as int) =~= a@);
        assert(b@.subrange(0, b@.len() as int) =~= b@);
    }
    if i == b.len() {
        false
    } else if i == a.len() {
        true
    } else {
        proof {
            let sa = a@.subrange(i as int, a@.len() as int);
            assert(sa[0] == a@[i as int]);
        }
        a[i] < b[i]
    }
}

/// The variants are in strictly ascending order: sorted, none repeated.
pub open spec fn variants_ascending(vs: Seq<String>) -> bool {
    forall|i: int| 0 < i < vs.len() ==> bytes_lt(utf8_of(#[trigger] vs[i - 1]), utf8_of(vs[i]))
}

/// No two fields share a name.
pub open spec fn names_distinct(fields: Seq<(String, Type)>) -> bool {
    forall|i: int, j: int| 0 <= i < j < fields.len() ==> fields[i].0@ != fields[j].0@
}

/// A well-formed type: every enumeration in it has its variants in strictly
/// ascending order, and every record in it distinct field names, as a set
/// and a map keyed by name would keep them.
pub open spec fn type_wf(t: Type) -> bool
    decreases t,
{
    match t {
        Type::Nested(ct) => composite_wf(ct),
        Type::Enum { variants } => variants_ascending(variants@),
        _ => true,
    }
}

/// A well-formed record or list.
pub open spec fn composite_wf(ct: CompositeType) -> bool
    decreases ct,
{
    match ct {
        CompositeType::Record(r) => names_distinct(r.0@) && fields_wf(r.0@),
        CompositeType::List(l) => type_wf(*l.0),
    }
}

/// Every field's type is well formed.
pub open spec fn fields_wf(fields: Seq<(String, Type)>) -> bool
    decreases fields,
{
    if fields.len() == 0 {
        true
    } else {
        fields_wf(fields.drop_last()) && type_wf(fields.last().1)
    }
}

/// `fields_wf` holds when each field's type is well formed.
pub proof fn lemma_fields_wf(fields: Seq<(String, Type)>)
    ensures
        fields_wf(fields) <==> forall|k: int| 0 <= k < fields.len() ==> #[trigger] type_wf(fields[k].1),
    decreases fields.len(),
{
    if fields.len() > 0 {
        let pre = fields.drop_last();
        lemma_fields_wf(pre);
        if fields_wf(fields) {
            assert forall|k: int| 0 <= k < fields.len() implies #[trigger] type_wf(fields[k].1) by {
                if k < pre.len() {
                    assert(fields[k] == pre[k]);
                }
            }
        }
        if forall|k: int| 0 <= k < fields.len() ==> #[trigger] type_wf(fields[k].1) {
            assert forall|k: int| 0 <= k < pre.len() implies #[trigger] type_wf(pre[k].1) by {
                assert(fields[k] == pre[k]);
            }
            assert(type_wf(fields[fields.len() - 1].1));
        }
    }
}

/// The number of bits a record's field markers need: every field id and the
/// four reserved markers need a pattern of their own.
pub open spec fn field_marker_width(n_fields: nat) -> nat {
    bit_width_for(n_fields + 4)
}

/// The widest field marker a type needs, over the records it holds.
pub open spec fn type_marker_width(t: Type) -> nat
    decreases t,
{
    match t {
        Type::Nested(ct) => composite_marker_width(ct),
        _ => 0,
    }
}

/// The widest field marker a record or list needs, itself and everything
/// nested in it.
pub open spec fn composite_marker_width(ct: CompositeType) -> nat
    decreases ct,
{
    match ct {
        CompositeType::Record(r) => {
            let own = field_marker_width(r.0@.len());
            let inner = fields_marker_width(r.0@);
            if own >= inner {
                own
            } else {
                inner
            }
        },
        CompositeType::List(l) => type_marker_width(*l.0),
    }
}

/// The widest field marker the types of `fields` need.
pub open spec fn fields_marker_width(fields: Seq<(String, Type)>) -> nat
    decreases fields,
{
    if fields.len() == 0 {
        0
    } else {
        let last = type_marker_width(fields.last().1);
        let rest = fields_marker_width(fields.drop_last());
        if last >= rest {
            last
        } else {
            rest
        }
    }
}

/// The widest field marker of `n` fields, in exec code.
fn field_marker_width_of(n: usize) -> (r: usize)
    ensures
        r == field_marker_width(n as nat),
{
    // n + 4 patterns need one bit more than half of them, rounded up
    let half = n / 2 + 2 + n % 2;
    assert(half == (n as nat + 4 + 1) / 2);
    1 + required_bit_width(half)
}

impl Type {
    /// Whether this type is well formed.
    pub fn is_well_formed(&self) -> (r: bool)
        ensures
            r == type_wf(*self),
        decreases *self,
    {
        match self {
            Type::Nested(ct) => ct.is_well_formed(),
            Type::Enum { variants } => {
                let mut i: usize = 1;
                while i < variants.len()
                    invariant
                        *self == (Type::Enum { variants: *variants }),
                        1 <= i,
                        forall|k: int| 0 < k < i && k < variants@.len() ==> bytes_lt(
                            utf8_of(#[trigger] variants@[k - 1]),
                            utf8_of(variants@[k]),
                        ),
                    decreases variants.len() - i,
                {
                    let a = variants[i - 1].as_str();
                    let b = variants[i].as_str();
                    proof {
                        assert(a.spec_bytes() == utf8_of(variants@[i - 1]));
                        assert(b.spec_bytes() == utf8_of(variants@[i as int]));
                    }
                    if !sorts_before(a.as_bytes(), b.as_bytes()) {
                        return false;
                    }
                    i = i + 1;
                }
                true
            },
            _ => true,
        }
    }

    /// The widest field marker this type needs.
    pub fn marker_width(&self) -> (r: usize)
        ensures
            r == type_marker_width(*self),
        decreases *self,
    {
        match self {
            Type::Nested(ct) => ct.marker_width(),
            _ => 0,
        }
    }
}

impl CompositeType {
    /// Whether this record or list is well formed.
    pub fn is_well_formed(&self) -> (r: bool)
        ensures
            r == composite_wf(*self),
        decreases *self,
    {
        match self {
            CompositeType::Record(r) => {
                let mut i: usize = 0;
                while i < r.0.len()
                    invariant
                        *self is Record,
                        self->Record_0 == *r,
                        i <= r.0@.len(),
                        fields_wf(r.0@.subrange(0, i as int)),
                        forall|a: int, b: int| 0 <= a < b < i ==> r.0@[a].0@ != r.0@[b].0@,
                    decreases r.0.len() - i,
                {
                    proof {
                        assert(r.0@.subrange(0, i + 1).drop_last() =~= r.0@.subrange(0, i as int));
                    }
                    if !r.0[i].1.is_well_formed() {
                        proof {
                            lemma_fields_wf(r.0@);
                            lemma_fields_wf(r.0@.subrange(0, i + 1));
                            assert(r.0@.subrange(0, i + 1)[i as int] == r.0@[i as int]);
                        }
                        return false;
                    }
                    let mut j: usize = 0;
                    while j < i
                        invariant
                            *self is Record,
                            self->Record_0 == *r,
                            j <= i < r.0@.len(),
                            forall|a: int| 0 <= a < j ==> r.0@[a].0@ != r.0@[i as int].0@,
                        decreases i - j,
                    {
                        if r.0[j].0 == r.0[i].0 {
                            return false;
                        }
                        j = j + 1;
                    }
                    i = i + 1;
                }
                proof {
                    assert(r.0@.subrange(0, r.0@.len() as int) =~= r.0@);
                }
                true
            },
            CompositeType::List(l) => l.0.is_well_formed(),
        }
    }

    /// The widest field marker this record or list needs.
    pub fn marker_width(&self) -> (r: usize)
        ensures
            r == composite_marker_width(*self),
        decreases *self,
    {
        match self {
            CompositeType::Record(r) => {
                let own = r.field_width();
                let mut inner: usize = 0;
                let mut i: usize = 0;
                while i < r.0.len()
                    invariant
                        *self is Record,
                        self->Record_0 == *r,
                        i <= r.0@.len(),
                        inner == fields_marker_width(r.0@.subrange(0, i as int)),
                    decreases r.0.len() - i,
                {
                    proof {
                        assert(r.0@.subrange(0, i + 1).drop_last() =~= r.0@.subrange(0, i as int));
                    }
                    let w = r.0[i].1.marker_width();
                    if w > inner {
                        inner = w;
                    }
                    i = i + 1;
                }
                proof {
                    assert(r.0@.subrange(0, r.0@.len() as int) =~= r.0@);
                }
                if own >= inner {
                    own
                } else {
                    inner
                }
            },
            CompositeType::List(l) => l.0.marker_width(),
        }
    }
}

impl Record {
    /// The width of this record's field markers.
    pub fn field_width(&self) -> (r: usize)
        ensures
            r == field_marker_width(self.0@.len()),
    {
        field_marker_width_of(self.0.len())
    }

    /// The position of the field called `name`, if there is one.
    pub fn field_index(&self, name: &String) -> (r: Option<usize>)
        ensures
            match r {
                Some(i) => i < self.0@.len() && self.0@[i as int].0@ == name@ && forall|j: int|
                    0 <= j < i ==> self.0@[j].0@ != name@,
                None => forall|j: int| 0 <= j < self.0@.len() ==> self.0@[j].0@ != name@,
            },
    {
        let mut i: usize = 0;
        while i < self.0.len()
            invariant
                i <= self.0@.len(),
                forall|j: int| 0 <= j < i ==> self.0@[j].0@ != name@,
            decreases self.0.len() - i,
        {
            if self.0[i].0 == *name {
                return Some(i);
            }
            i = i + 1;
        }
        None
    }

    /// The number of fields whose name sorts before `name`.
    pub fn field_rank(&self, name: &String) -> (r: usize)
        ensures
            r == name_rank(self.0@, utf8_of(*name)),
            r <= self.0@.len(),
    {
        let key = name.as_str().as_bytes();
        let mut count: usize = 0;
        let mut i: usize = 0;
        while i < self.0.len()
            invariant
                key@ == utf8_of(*name),
                i <= self.0@.len(),
                count <= i,
                count == name_rank(self.0@.subrange(0, i as int), utf8_of(*name)),
            decreases self.0.len() - i,
        {
            proof {
                assert(self.0@.subrange(0, i + 1).drop_last() =~= self.0@.subrange(0, i as int));
            }
            if sorts_before(self.0[i].0.as_str().as_bytes(), key) {
                count = count + 1;
            }
            i = i + 1;
        }
        proof {
            assert(self.0@.subrange(0, self.0@.len() as int) =~= self.0@);
        }
        count
    }

    /// The id of the field called `name`, if there is one.
    pub fn field_id(&self, name: &String) -> (r: Option<FieldId>)
        requires
            self.0@.len() + 4 <= u32::MAX,
        ensures
            match r {
                Some(id) => id.0 == name_rank(self.0@, utf8_of(*name)) + 4 && exists|j: int|
                    0 <= j < self.0@.len() && self.0@[j].0@ == name@,
                None => forall|j: int| 0 <= j < self.0@.len() ==> self.0@[j].0@ != name@,
            },
    {
        match self.field_index(name) {
            Some(_) => Some(FieldId::new(self.field_rank(name) as u32 + FIRST_FIELD_ID)),
            None => None,
        }
    }

    /// Each field's name with its id, in order.
    pub fn field_map(&self) -> (r: Vec<(String, FieldId)>)
        requires
            self.0@.len() + 4 <= u32::MAX,
        ensures
            r@.len() == self.0@.len(),
            forall|i: int|
                0 <= i < r@.len() ==> (#[trigger] r@[i]).0 == self.0@[i].0 && r@[i].1.0 == name_rank(
                    self.0@,
                    utf8_of(self.0@[i].0),
                ) + 4,
    {
        let mut m: Vec<(String, FieldId)> = Vec::new();
        let mut i: usize = 0;
        while i < self.0.len()
            invariant
                i <= self.0@.len(),
                self.0@.len() + 4 <= u32::MAX,
                m@.len() == i,
                forall|j: int|
                    0 <= j < i ==> (#[trigger] m@[j]).0 == self.0@[j].0 && m@[j].1.0 == name_rank(
                        self.0@,
                        utf8_of(self.0@[j].0),
                    ) + 4,
            decreases self.0.len() - i,
        {
            let name = self.0[i].0.clone();
            let rank = self.field_rank(&self.0[i].0);
            m.push((name, FieldId::new(rank as u32 + FIRST_FIELD_ID)));
            i = i + 1;
        }
        m
    }

    /// Each field's id with its name, in order.
    pub fn inverse_field_map(&self) -> (r: Vec<(FieldId, String)>)
        requires
            self.0@.len() + 4 <= u32::MAX,
        ensures
            r@.len() == self.0@.len(),
            forall|i: int|
                0 <= i < r@.len() ==> (#[trigger] r@[i]).1 == self.0@[i].0 && r@[i].0.0 == name_rank(
                    self.0@,
                    utf8_of(self.0@[i].0),
                ) + 4,
    {
        let mut m: Vec<(FieldId, String)> = Vec::new();
        let mut i: usize = 0;
        while i < self.0.len()
            invariant
                i <= self.0@.len(),
                self.0@.len() + 4 <= u32::MAX,
                m@.len() == i,
                forall|j: int|
                    0 <= j < i ==> (#[trigger] m@[j]).1 == self.0@[j].0 && m@[j].0.0 == name_rank(
                        self.0@,
                        utf8_of(self.0@[j].0),
                    ) + 4,
            decreases self.0.len() - i,
        {
            let name = self.0[i].0.clone();
            let rank = self.field_rank(&self.0[i].0);
            m.push((FieldId::new(rank as u32 + FIRST_FIELD_ID), name));
            i = i + 1;
        }
        m
    }
}

/// A schema: the type of a whole document, a record or a list.
pub struct Schema(CompositeType);

impl Schema {
    /// A schema whose root is `root`.
    pub fn new(root: CompositeType) -> (r: Schema)
        ensures
            r.spec_root() == root,
    {
        Schema(root)
    }

    /// The root type.
    pub closed spec fn spec_root(&self) -> CompositeType {
        self.0
    }

    /// The root type.
    pub fn root(&self) -> (r: &CompositeType)
        ensures
            *r == self.spec_root(),
    {
        &self.0
    }

    /// The schema is well formed.
    pub open spec fn spec_wf(&self) -> bool {
        composite_wf(self.spec_root())
    }

    /// Whether the schema is well formed.
    pub fn is_well_formed(&self) -> (r: bool)
        ensures
            r == self.spec_wf(),
    {
        self.0.is_well_formed()
    }

    /// The width of every marker when serializing: the widest field marker
    /// of any record, and at least the two bits the reserved markers need.
    pub fn marker_width(&self) -> (r: usize)
        ensures
            r == (if composite_marker_width(self.spec_root()) >= 2 {
                composite_marker_width(self.spec_root())
            } else {
                2
            }),
    {
        let w = self.0.marker_width();
        if w >= 2 {
            w
        } else {
            2
        }
    }
}

} // verus!
