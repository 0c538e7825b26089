//! Compressed objects: markers, blocks, their bit layout, and the
//! well-formedness check.

use crate::glob::Glob;
use crate::validator::{validation_result, ValidationError, Validator};
use crate::math::{ceil_div, le_bytes, le_value};
use crate::vie::{lemma_vie_encoding_len, vie_encoding, vie_value, CodePoint};
use vstd::arithmetic::power2::{lemma2_to64, lemma_pow2_adds, pow2};
use vstd::prelude::*;

verus! {

/// A control symbol of the compressed object layout.
///
/// The four reserved markers are encoded as 0 to 3; a field marker carries
/// the id that the schema gave the field, which is 4 or more.
#[derive(Copy, Clone, Debug, PartialEq, Eq, Structural)]
pub enum Marker {
    /// Ends a nested object; also the second marker of a root header.
    Null,
    /// Opens a record.
    Record,
    /// Opens a list.
    List,
    /// Tags a list element.
    Element,
    /// Tags a record field by its id.
    Field(u32),
}

impl Marker {
    /// The integer the marker is encoded as.
    pub open spec fn spec_value(self) -> nat {
        match self {
            Marker::Null => 0,
            Marker::Record => 1,
            Marker::List => 2,
            Marker::Element => 3,
            Marker::Field(v) => v as nat,
        }
    }

    /// A field marker does not use one of the reserved values.
    pub open spec fn wf(self) -> bool {
        match self {
            Marker::Field(v) => v >= 4,
            _ => true,
        }
    }

    /// A field marker with a legal id.
    pub open spec fn is_valid_field(self) -> bool {
        match self {
            Marker::Field(v) => v >= 4,
            _ => false,
        }
    }

    /// A marker that may tag data or a nested object: a legal field, or an
    /// element.
    pub open spec fn tags_data(self) -> bool {
        self.is_valid_field() || self is Element
    }

    /// Returns the encoded value for this marker.
    pub fn value(&self) -> (r: u32)
        requires
            self.wf(),
        ensures
            r as nat == self.spec_value(),
    {
        match self {
            Marker::Null => 0,
            Marker::Record => 1,
            Marker::List => 2,
            Marker::Element => 3,
            Marker::Field(v) => *v,
        }
    }

    /// Converts this marker into a glob of `width` bits: the low `width`
    /// bits of its value.
    pub fn into_glob(self, width: usize) -> (r: Glob)
        requires
            self.wf(),
            0 < width,
            width / 8 <= 4,
        ensures
            r.wf(),
            r.width == width,
            r.value() == marker_bits(self, width as nat),
    {
        let bytes = le_bytes(self.value() as u64, 4);
        proof {
            lemma2_to64();
            vstd::arithmetic::div_mod::lemma_small_mod(self.spec_value(), pow2(32));
        }
        Glob::new(width, bytes)
    }

    /// True if `self` is a `Null` marker.
    pub fn is_null(&self) -> (r: bool)
        ensures
            r == (*self is Null),
    {
        match self {
            Marker::Null => true,
            _ => false,
        }
    }

    /// True if `self` is a `Record` marker.
    pub fn is_record(&self) -> (r: bool)
        ensures
            r == (*self is Record),
    {
        match self {
            Marker::Record => true,
            _ => false,
        }
    }

    /// True if `self` is a `List` marker.
    pub fn is_list(&self) -> (r: bool)
        ensures
            r == (*self is List),
    {
        match self {
            Marker::List => true,
            _ => false,
        }
    }

    /// True if `self` is an `Element` marker.
    pub fn is_element(&self) -> (r: bool)
        ensures
            r == (*self is Element),
    {
        match self {
            Marker::Element => true,
            _ => false,
        }
    }

    /// True if `self` is a `Field` marker, whatever its id.
    pub fn is_field(&self) -> (r: bool)
        ensures
            r == (*self is Field),
    {
        match self {
            Marker::Field(..) => true,
            _ => false,
        }
    }

    /// True if `self` is a `Field` marker with a legal id.
    pub fn is_valid_field_marker(&self) -> (r: bool)
        ensures
            r == self.is_valid_field(),
    {
        match self {
            Marker::Field(v) => *v >= 4,
            _ => false,
        }
    }
}

/// The bits a marker serializes to at width `w`: the low `w` bits of its
/// value.
pub open spec fn marker_bits(m: Marker, w: nat) -> nat {
    m.spec_value() % pow2(w)
}

/// The length section of a data block: a bit count as a code point.
#[derive(Clone, Debug)]
pub struct Length(CodePoint);

impl View for Length {
    type V = Seq<u8>;

    closed spec fn view(&self) -> Seq<u8> {
        self.0@
    }
}

impl Length {
    /// A length section holding `len`.
    pub fn new(len: usize) -> (r: Length)
        ensures
            r@ == vie_encoding(len as nat),
            r.wf(),
    {
        let cp = CodePoint::encode(len as u64);
        proof {
            lemma2_to64();
            vstd::arithmetic::power2::lemma_pow2_strictly_increases(64, 70);
            lemma_vie_encoding_len(len as nat, 10);
            crate::vie::lemma_vie_canonical(len as nat);
        }
        Length(cp)
    }

    /// A length section short enough to serialize.
    pub open spec fn wf(&self) -> bool {
        0 < self@.len() <= 10
    }

    /// The bit count held, when it fits in 64 bits.
    pub fn decode(&self) -> (r: Option<u64>)
        ensures
            match r {
                Some(v) => vie_value(self@) == v as nat,
                None => vie_value(self@) >= pow2(64),
            },
    {
        self.0.decode(8)
    }

    /// Converts this length into a glob: the code point's bytes, eight bits
    /// each.
    pub fn into_glob(&self) -> (r: Glob)
        requires
            self.wf(),
        ensures
            r.wf(),
            r.width == 8 * self@.len(),
            r.value() == le_value(self@),
    {
        let width = self.0.count() * 8;
        let mut bytes: Vec<u8> = Vec::new();
        let src = self.0.bytes();
        let mut i: usize = 0;
        while i < src.len()
            invariant
                i <= src@.len(),
                bytes@ == src@.subrange(0, i as int),
            decreases src.len() - i,
        {
            bytes.push(src[i]);
            i = i + 1;
            proof {
                assert(bytes@ =~= src@.subrange(0, i as int));
            }
        }
        proof {
            assert(bytes@ =~= self@);
            crate::math::lemma_le_value_bound(bytes@);
            vstd::arithmetic::div_mod::lemma_small_mod(le_value(bytes@), pow2(width as nat));
            assert(width as nat == 8 * bytes@.len());
        }
        Glob::new(width, bytes)
    }
}

/// A unit of a compressed object.
#[derive(Clone, Debug)]
pub enum Block {
    /// Opens a record or a list: the first marker says which, the second is
    /// the field or element marker it belongs to (`Null` at the root).
    Header(Marker, Marker),
    /// Field or element data: its marker, the payload's width, the payload.
    Data(Marker, Length, Glob),
    /// Closes a nested object; serialized as a single `Null` marker.
    Terminator,
}

impl Block {
    /// Every part of the block can be serialized.
    pub open spec fn wf(&self) -> bool {
        match *self {
            Block::Header(a, b) => a.wf() && b.wf(),
            Block::Data(m, l, g) => m.wf() && l.wf() && g.wf(),
            Block::Terminator => true,
        }
    }

    /// Converts this block into a glob, with markers `marker_width` bits wide.
    pub fn into_glob(self, marker_width: usize) -> (r: Glob)
        requires
            self.wf(),
            0 < marker_width,
            marker_width / 8 <= 4,
            block_width(self, marker_width as nat) <= usize::MAX,
        ensures
            r.wf(),
            r.width == block_width(self, marker_width as nat),
            r.value() == block_value(self, marker_width as nat),
    {
        match self {
            Block::Header(m1, m2) => {
                let mut glob = m1.into_glob(marker_width);
                let second = m2.into_glob(marker_width);
                glob.append(second);
                assert(glob.value() == block_value(Block::Header(m1, m2), marker_width as nat));
                glob
            },
            Block::Data(m, l, g) => {
                let mut glob = m.into_glob(marker_width);
                let lg = l.into_glob();
                glob.append(lg);
                proof {
                    assert(glob.value() == marker_bits(m, marker_width as nat) + pow2(
                        marker_width as nat,
                    ) * le_value(l@));
                    lemma_pow2_adds(marker_width as nat, 8 * l@.len());
                    let p = pow2(marker_width as nat);
                    let q = pow2(8 * l@.len());
                    assert(glob.value() + pow2(marker_width as nat + 8 * l@.len()) * g.value()
                        == marker_bits(m, marker_width as nat) + p * (le_value(l@) + q
                        * g.value())) by (nonlinear_arith)
                        requires
                            glob.value() == marker_bits(m, marker_width as nat) + p * le_value(l@),
                            pow2(marker_width as nat + 8 * l@.len()) == p * q,
                    ;
                }
                let ghost gv = g.value();
                let ghost w0 = glob.width;
                let ghost v0 = glob.value();
                glob.append(g);
                assert(w0 == marker_width + 8 * l@.len());
                assert(glob.value() == v0 + pow2(w0 as nat) * gv);
                assert(glob.value() == block_value(Block::Data(m, l, g), marker_width as nat));
                glob
            },
            Block::Terminator => {
                proof {
                    vstd::arithmetic::power2::lemma_pow2_pos(marker_width as nat);
                    vstd::arithmetic::div_mod::lemma_small_mod(0, pow2(marker_width as nat));
                }
                let t = Marker::Null.into_glob(marker_width);
                t
            },
        }
    }
}

/// The number of bits a block serializes to.
pub open spec fn block_width(b: Block, w: nat) -> nat {
    match b {
        Block::Header(_, _) => w + w,
        Block::Data(_, l, g) => w + 8 * l@.len() + g.width as nat,
        Block::Terminator => w,
    }
}

/// The number a block's bits spell: its parts side by side, the first at
/// the low end.
pub open spec fn block_value(b: Block, w: nat) -> nat {
    match b {
        Block::Header(m1, m2) => marker_bits(m1, w) + pow2(w) * marker_bits(m2, w),
        Block::Data(m, l, g) => marker_bits(m, w) + pow2(w) * (le_value(l@) + pow2(8 * l@.len())
            * g.value()),
        Block::Terminator => 0,
    }
}

/// The number of bits a sequence of blocks serializes to.
pub open spec fn blocks_width(bs: Seq<Block>, w: nat) -> nat
    decreases bs.len(),
{
    if bs.len() == 0 {
        0
    } else {
        blocks_width(bs.drop_last(), w) + block_width(bs.last(), w)
    }
}

/// The number the serialized blocks spell: each block's bits follow those of
/// the blocks before it.
pub open spec fn blocks_value(bs: Seq<Block>, w: nat) -> nat
    decreases bs.len(),
{
    if bs.len() == 0 {
        0
    } else {
        blocks_value(bs.drop_last(), w) + pow2(blocks_width(bs.drop_last(), w)) * block_value(
            bs.last(),
            w,
        )
    }
}

/// A prefix serializes to no more bits than the whole.
proof fn lemma_blocks_width_prefix(bs: Seq<Block>, i: int, w: nat)
    requires
        0 <= i <= bs.len(),
    ensures
        blocks_width(bs.subrange(0, i), w) <= blocks_width(bs, w),
    decreases bs.len() - i,
{
    if i < bs.len() {
        lemma_blocks_width_prefix(bs, i + 1, w);
        assert(bs.subrange(0, i + 1).drop_last() =~= bs.subrange(0, i));
    } else {
        assert(bs.subrange(0, i) =~= bs);
    }
}

impl Default for CompressedObject {
    /// The default object is empty.
    fn default() -> (r: CompressedObject)
        ensures
            r@ == Seq::<Block>::empty(),
    {
        CompressedObject::new()
    }
}

/// Every block of `bs` can be serialized.
pub open spec fn blocks_wf(bs: Seq<Block>) -> bool {
    forall|j: int| 0 <= j < bs.len() ==> (#[trigger] bs[j]).wf()
}

/// Why a marker was refused: it cannot tag data or a nested object.
#[derive(Copy, Clone, Debug, PartialEq, Eq, Structural)]
pub struct MisusedMarker {
    /// The marker given.
    pub marker: Marker,
}

/// The data block that `push_data` appends for `marker` and `glob`.
pub open spec fn is_data_block_for(b: Block, marker: Marker, glob: Glob) -> bool {
    match b {
        Block::Data(m, l, g) => m == marker && l@ == vie_encoding(glob.width as nat) && l.wf() && g
            == glob,
        _ => false,
    }
}

/// A compressed object: a sequence of blocks.
///
/// A well-formed object opens with a root header, which is never terminated.
/// Nested records and lists open with a header and close with a terminator.
#[derive(Clone, Debug)]
pub struct CompressedObject {
    blocks: Vec<Block>,
}

impl View for CompressedObject {
    type V = Seq<Block>;

    closed spec fn view(&self) -> Seq<Block> {
        self.blocks@
    }
}

impl CompressedObject {
    /// An object with no blocks.
    pub fn new() -> (r: CompressedObject)
        ensures
            r@ == Seq::<Block>::empty(),
    {
        CompressedObject { blocks: Vec::new() }
    }

    /// An object opened by a root record header.
    pub fn new_record() -> (r: CompressedObject)
        ensures
            r@ == seq![Block::Header(Marker::Record, Marker::Null)],
    {
        let header = Block::Header(Marker::Record, Marker::Null);
        let mut blocks: Vec<Block> = Vec::new();
        blocks.push(header);
        proof {
            assert(blocks@ =~= seq![header]);
        }
        CompressedObject { blocks }
    }

    /// An object opened by a root list header.
    pub fn new_list() -> (r: CompressedObject)
        ensures
            r@ == seq![Block::Header(Marker::List, Marker::Null)],
    {
        let header = Block::Header(Marker::List, Marker::Null);
        let mut blocks: Vec<Block> = Vec::new();
        blocks.push(header);
        proof {
            assert(blocks@ =~= seq![header]);
        }
        CompressedObject { blocks }
    }

    /// The blocks, in order.
    pub fn blocks(&self) -> (r: &Vec<Block>)
        ensures
            r@ == self@,
    {
        &self.blocks
    }

    /// Appends a block, unchecked.
    pub fn push(&mut self, block: Block)
        ensures
            final(self)@ == old(self)@.push(block),
    {
        self.blocks.push(block)
    }

    /// Opens a nested record belonging to `field`, which must be a legal
    /// field marker or the element marker.
    pub fn begin_nested_record(&mut self, field: Marker) -> (r: Result<(), MisusedMarker>)
        ensures
            r is Ok <==> field.tags_data(),
            r is Ok ==> final(self)@ == old(self)@.push(Block::Header(Marker::Record, field)),
            r is Err ==> final(self)@ == old(self)@ && r == Err::<(), MisusedMarker>(
                MisusedMarker { marker: field },
            ),
    {
        if !field.is_valid_field_marker() && !field.is_element() {
            return Err(MisusedMarker { marker: field });
        }
        self.push(Block::Header(Marker::Record, field));
        Ok(())
    }

    /// Opens a nested list belonging to `field`, which must be a legal field
    /// marker or the element marker.
    pub fn begin_nested_list(&mut self, field: Marker) -> (r: Result<(), MisusedMarker>)
        ensures
            r is Ok <==> field.tags_data(),
            r is Ok ==> final(self)@ == old(self)@.push(Block::Header(Marker::List, field)),
            r is Err ==> final(self)@ == old(self)@ && r == Err::<(), MisusedMarker>(
                MisusedMarker { marker: field },
            ),
    {
        if !field.is_valid_field_marker() && !field.is_element() {
            return Err(MisusedMarker { marker: field });
        }
        self.push(Block::Header(Marker::List, field));
        Ok(())
    }

    /// Closes the innermost nested object.
    pub fn end_nested_object(&mut self)
        ensures
            final(self)@ == old(self)@.push(Block::Terminator),
    {
        self.push(Block::Terminator);
    }

    /// Appends a data block for `field` holding `glob`; its length section
    /// is the glob's width.
    pub fn push_data(&mut self, field: Marker, glob: Glob) -> (r: Result<(), MisusedMarker>)
        ensures
            r is Ok <==> field.tags_data(),
            r is Ok ==> final(self)@.len() == old(self)@.len() + 1 && final(self)@.subrange(
                0,
                old(self)@.len() as int,
            ) == old(self)@ && is_data_block_for(final(self)@.last(), field, glob),
            r is Err ==> final(self)@ == old(self)@ && r == Err::<(), MisusedMarker>(
                MisusedMarker { marker: field },
            ),
    {
        if !field.is_valid_field_marker() && !field.is_element() {
            return Err(MisusedMarker { marker: field });
        }
        let length = Length::new(glob.width);
        let block = Block::Data(field, length, glob);
        self.push(block);
        proof {
            assert(final(self)@.subrange(0, old(self)@.len() as int) =~= old(self)@);
        }
        Ok(())
    }

    /// Checks that this object is well formed.
    pub fn validate(&self) -> (r: Result<(), ValidationError>)
        ensures
            r == validation_result(self@),
    {
        Validator::run(self)
    }

    /// The number of bits this object serializes to with markers
    /// `marker_width` bits wide, if that number fits a `usize`.
    pub fn serialized_width(&self, marker_width: usize) -> (r: Option<usize>)
        ensures
            match r {
                Some(w) => w == blocks_width(self@, marker_width as nat),
                None => blocks_width(self@, marker_width as nat) > usize::MAX,
            },
    {
        let ghost bs = self.blocks@;
        let ghost w = marker_width as nat;
        let mut total: usize = 0;
        let mut i: usize = 0;
        proof {
            assert(bs.subrange(0, 0) =~= Seq::<Block>::empty());
        }
        while i < self.blocks.len()
            invariant
                bs == self.blocks@,
                w == marker_width as nat,
                i <= bs.len(),
                total == blocks_width(bs.subrange(0, i as int), w),
            decreases self.blocks.len() - i,
        {
            let ghost next = bs.subrange(0, i + 1);
            proof {
                assert(next.drop_last() =~= bs.subrange(0, i as int));
                assert(next.last() == bs[i as int]);
                lemma_blocks_width_prefix(bs, i + 1, w);
            }
            let bw: usize = match &self.blocks[i] {
                Block::Header(_, _) => {
                    if marker_width > usize::MAX - marker_width {
                        return None;
                    }
                    marker_width + marker_width
                },
                Block::Data(_, l, g) => {
                    let count = l.0.count();
                    if count > (usize::MAX - marker_width) / 8 {
                        return None;
                    }
                    let head = marker_width + 8 * count;
                    if g.width > usize::MAX - head {
                        return None;
                    }
                    head + g.width
                },
                Block::Terminator => marker_width,
            };
            if total > usize::MAX - bw {
                return None;
            }
            total = total + bw;
            i = i + 1;
        }
        proof {
            assert(bs.subrange(0, bs.len() as int) =~= bs);
        }
        Some(total)
    }

    /// Converts this object to bytes, with markers `marker_width` bits wide.
    ///
    /// The blocks' bits follow one another with no padding; the last byte is
    /// filled up with zero bits.
    pub fn into_bytes(self, marker_width: usize) -> (r: Vec<u8>)
        requires
            0 < marker_width,
            marker_width / 8 <= 4,
            blocks_wf(self@),
            blocks_width(self@, marker_width as nat) <= usize::MAX,
        ensures
            self@.len() == 0 ==> r@.len() == 0,
            self@.len() > 0 ==> r@.len() == ceil_div(blocks_width(self@, marker_width as nat), 8),
            le_value(r@) == blocks_value(self@, marker_width as nat),
    {
        let ghost bs = self.blocks@;
        let w = marker_width;
        if self.blocks.len() == 0 {
            return Vec::new();
        }
        // Reverse the blocks, so that popping hands them out in order.
        let mut blocks = self.blocks;
        assert(bs.len() <= usize::MAX);
        let mut rev: Vec<Block> = Vec::new();
        while blocks.len() > 0
            invariant
                blocks@ == bs.subrange(0, blocks@.len() as int),
                blocks@.len() + rev@.len() == bs.len(),
                forall|j: int| 0 <= j < rev@.len() ==> #[trigger] rev@[j] == bs[bs.len() - 1 - j],
            decreases blocks.len(),
        {
            let b = blocks.pop().unwrap();
            rev.push(b);
        }
        let first = rev.pop().unwrap();
        proof {
            lemma_blocks_width_prefix(bs, 1, w as nat);
            let head = bs.subrange(0, 1);
            assert(head.drop_last() =~= Seq::<Block>::empty());
            assert(head.last() == bs[0]);
            assert(blocks_width(Seq::<Block>::empty(), w as nat) == 0);
            assert(blocks_value(Seq::<Block>::empty(), w as nat) == 0);
            assert(blocks_width(head, w as nat) == block_width(bs[0], w as nat));
            lemma2_to64();
        }
        let mut glob = first.into_glob(w);
        proof {
            let head = bs.subrange(0, 1);
            assert(head.drop_last() =~= Seq::<Block>::empty());
            assert(blocks_value(head, w as nat) == block_value(bs[0], w as nat));
        }
        let mut i: usize = 1;
        while rev.len() > 0
            invariant
                1 <= i <= bs.len(),
                rev@.len() == bs.len() - i,
                forall|j: int| 0 <= j < rev@.len() ==> #[trigger] rev@[j] == bs[bs.len() - 1 - j],
                forall|j: int| 0 <= j < bs.len() ==> (#[trigger] bs[j]).wf(),
                glob.wf(),
                glob.width == blocks_width(bs.subrange(0, i as int), w as nat),
                glob.value() == blocks_value(bs.subrange(0, i as int), w as nat),
                blocks_width(bs, w as nat) <= usize::MAX,
                bs.len() <= usize::MAX,
                0 < w,
                w / 8 <= 4,
            decreases rev.len(),
        {
            let b = rev.pop().unwrap();
            proof {
                assert(b == bs[i as int]);
                let pre = bs.subrange(0, i as int);
                let next = bs.subrange(0, i + 1);
                assert(next.drop_last() =~= pre);
                assert(next.last() == b);
                lemma_blocks_width_prefix(bs, i + 1, w as nat);
            }
            let g = b.into_glob(w);
            glob.append(g);
            i = i + 1;
        }
        proof {
            assert(bs.subrange(0, i as int) =~= bs);
        }
        glob.data
    }
}

} // verus!
