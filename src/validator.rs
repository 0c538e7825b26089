//! The well-formedness check of compressed objects: a pushdown machine over
//! the blocks.
//!
//! The machine's state is the stack of open scopes, innermost last; `true`
//! stands for a record and `false` for a list. The empty stack is the state
//! before the root header. The root scope is never closed by a terminator:
//! it ends with the blocks. Nested scopes left open at the end are accepted.

use crate::co::{Block, CompressedObject, Length, Marker};
use crate::vie::{lemma_vie_value_of_encoding, vie_encoding, vie_value};
use vstd::prelude::*;

verus! {

/// The kinds of structural faults.
#[derive(Copy, Clone, Debug, PartialEq, Eq, Structural)]
pub enum ValidationErrorKind {
    /// The first block is not a header.
    UnexpectedBlock,
    /// A terminator at the root scope.
    UnexpectedTerminator,
    /// A root header that does not open a record or a list with a `Null`
    /// second marker, or a nested header whose first marker is neither
    /// `Record` nor `List`.
    MalformedHeader,
    /// A data block or nested header whose marker does not suit its scope:
    /// a legal field marker in a record, the element marker in a list.
    WrongMarkerType,
    /// A data block whose length section differs from its payload's width.
    LengthMismatch,
}

/// A structural fault and the index of the block at fault.
#[derive(Copy, Clone, Debug, PartialEq, Eq, Structural)]
pub struct ValidationError {
    /// What is wrong.
    pub kind: ValidationErrorKind,
    /// The index of the offending block.
    pub index: usize,
}

/// The marker suits a scope: a legal field in a record, an element in a list.
pub open spec fn marker_suits(in_record: bool, m: Marker) -> bool {
    if in_record {
        m.is_valid_field()
    } else {
        m is Element
    }
}

/// One move of the machine: the scopes after `b`, or the fault it shows.
pub open spec fn step(scopes: Seq<bool>, b: Block) -> Result<Seq<bool>, ValidationErrorKind> {
    if scopes.len() == 0 {
        match b {
            Block::Header(m1, m2) => {
                if !(m2 is Null) {
                    Err(ValidationErrorKind::MalformedHeader)
                } else if m1 is Record {
                    Ok(seq![true])
                } else if m1 is List {
                    Ok(seq![false])
                } else {
                    Err(ValidationErrorKind::MalformedHeader)
                }
            },
            _ => Err(ValidationErrorKind::UnexpectedBlock),
        }
    } else {
        let top = scopes.last();
        match b {
            Block::Data(m, l, g) => {
                if !marker_suits(top, m) {
                    Err(ValidationErrorKind::WrongMarkerType)
                } else if vie_value(l@) != g.width as nat {
                    Err(ValidationErrorKind::LengthMismatch)
                } else {
                    Ok(scopes)
                }
            },
            Block::Header(t, f) => {
                if !(t is Record || t is List) {
                    Err(ValidationErrorKind::MalformedHeader)
                } else if !marker_suits(top, f) {
                    Err(ValidationErrorKind::WrongMarkerType)
                } else {
                    Ok(scopes.push(t is Record))
                }
            },
            Block::Terminator => {
                if scopes.len() == 1 {
                    Err(ValidationErrorKind::UnexpectedTerminator)
                } else {
                    Ok(scopes.drop_last())
                }
            },
        }
    }
}

/// Runs the machine from `scopes` over the blocks of `bs` from index `i` on.
pub open spec fn run_from(scopes: Seq<bool>, bs: Seq<Block>, i: int) -> Result<(), ValidationError>
    decreases bs.len() - i,
{
    if i < 0 || i >= bs.len() {
        Ok(())
    } else {
        match step(scopes, bs[i]) {
            Err(kind) => Err(ValidationError { kind, index: i as usize }),
            Ok(next) => run_from(next, bs, i + 1),
        }
    }
}

/// What validating the blocks `bs` gives.
pub open spec fn validation_result(bs: Seq<Block>) -> Result<(), ValidationError> {
    run_from(Seq::empty(), bs, 0)
}

/// The scopes after running the machine over the whole of `frag` from
/// `scopes`, or nothing if it faults on the way.
pub open spec fn accepts(scopes: Seq<bool>, frag: Seq<Block>) -> Option<Seq<bool>>
    decreases frag.len(),
{
    if frag.len() == 0 {
        Some(scopes)
    } else {
        match step(scopes, frag[0]) {
            Ok(next) => accepts(next, frag.drop_first()),
            Err(_) => None,
        }
    }
}

/// Running over two pieces is running over the first, then the second.
pub proof fn lemma_accepts_concat(scopes: Seq<bool>, a: Seq<Block>, b: Seq<Block>)
    ensures
        accepts(scopes, a + b) == match accepts(scopes, a) {
            Some(mid) => accepts(mid, b),
            None => None,
        },
    decreases a.len(),
{
    if a.len() == 0 {
        assert(a + b =~= b);
    } else {
        assert((a + b)[0] == a[0]);
        assert((a + b).drop_first() =~= a.drop_first() + b);
        match step(scopes, a[0]) {
            Ok(next) => {
                lemma_accepts_concat(next, a.drop_first(), b);
            },
            Err(_) => {},
        }
    }
}

/// A run over a stretch that the machine accepts continues from the scopes
/// it ends in.
pub proof fn lemma_run_from_accepted(scopes: Seq<bool>, bs: Seq<Block>, i: int, j: int)
    requires
        0 <= i <= j <= bs.len(),
        accepts(scopes, bs.subrange(i, j)) is Some,
    ensures
        run_from(scopes, bs, i) == run_from(accepts(scopes, bs.subrange(i, j))->Some_0, bs, j),
    decreases j - i,
{
    if i < j {
        let frag = bs.subrange(i, j);
        assert(frag[0] == bs[i]);
        assert(frag.drop_first() =~= bs.subrange(i + 1, j));
        let next = step(scopes, bs[i])->Ok_0;
        lemma_run_from_accepted(next, bs, i + 1, j);
    }
}

/// The first fault decides: when the machine accepts the blocks before
/// index `i` and faults on block `i`, validation reports that fault there.
pub proof fn lemma_fault_at(bs: Seq<Block>, i: int, scopes: Seq<bool>, kind: ValidationErrorKind)
    requires
        0 <= i < bs.len(),
        i <= usize::MAX,
        accepts(Seq::empty(), bs.subrange(0, i)) == Some(scopes),
        step(scopes, bs[i]) == Err::<Seq<bool>, ValidationErrorKind>(kind),
    ensures
        validation_result(bs) == Err::<(), ValidationError>(ValidationError { kind, index: i as usize }),
{
    lemma_run_from_accepted(Seq::empty(), bs, 0, i);
}

/// Validator soundness, stray terminators: a terminator inserted where only
/// the root scope is open is rejected as unexpected, at its index.
pub proof fn lemma_rejects_stray_terminator(bs: Seq<Block>, i: int)
    requires
        0 <= i <= bs.len(),
        i <= usize::MAX,
        accepts(Seq::empty(), bs.subrange(0, i)) matches Some(scopes) && scopes.len() == 1,
    ensures
        validation_result(bs.insert(i, Block::Terminator)) == Err::<(), ValidationError>(
            ValidationError { kind: ValidationErrorKind::UnexpectedTerminator, index: i as usize },
        ),
{
    let mutated = bs.insert(i, Block::Terminator);
    assert(mutated.subrange(0, i) =~= bs.subrange(0, i));
    lemma_fault_at(
        mutated,
        i,
        accepts(Seq::empty(), bs.subrange(0, i))->Some_0,
        ValidationErrorKind::UnexpectedTerminator,
    );
}

/// Validator soundness, perturbed lengths: a data block whose length section
/// is changed to differ from its payload's width is rejected, at its index.
pub proof fn lemma_rejects_perturbed_length(bs: Seq<Block>, i: int, perturbed: Length)
    requires
        0 <= i < bs.len(),
        i <= usize::MAX,
        bs[i] is Data,
        accepts(Seq::empty(), bs.subrange(0, i + 1)) is Some,
        vie_value(perturbed@) != bs[i]->Data_2.width as nat,
    ensures
        validation_result(bs.update(i, Block::Data(bs[i]->Data_0, perturbed, bs[i]->Data_2)))
            == Err::<(), ValidationError>(
            ValidationError { kind: ValidationErrorKind::LengthMismatch, index: i as usize },
        ),
{
    let b = bs[i];
    let mutated = bs.update(i, Block::Data(b->Data_0, perturbed, b->Data_2));
    lemma_accepts_prefix_step(bs, i);
    let scopes = accepts(Seq::empty(), bs.subrange(0, i))->Some_0;
    assert(mutated.subrange(0, i) =~= bs.subrange(0, i));
    lemma_fault_at(mutated, i, scopes, ValidationErrorKind::LengthMismatch);
}

/// Validator soundness, illegal markers: a data block whose marker is
/// changed to one that does not suit its scope (a reserved marker, or the
/// other kind of tag) is rejected, at its index.
pub proof fn lemma_rejects_illegal_marker(bs: Seq<Block>, i: int, marker: Marker)
    requires
        0 <= i < bs.len(),
        i <= usize::MAX,
        bs[i] is Data,
        accepts(Seq::empty(), bs.subrange(0, i + 1)) matches Some(scopes) && !marker_suits(
            scopes.last(),
            marker,
        ),
    ensures
        validation_result(bs.update(i, Block::Data(marker, bs[i]->Data_1, bs[i]->Data_2)))
            == Err::<(), ValidationError>(
            ValidationError { kind: ValidationErrorKind::WrongMarkerType, index: i as usize },
        ),
{
    let b = bs[i];
    let mutated = bs.update(i, Block::Data(marker, b->Data_1, b->Data_2));
    lemma_accepts_prefix_step(bs, i);
    let scopes = accepts(Seq::empty(), bs.subrange(0, i))->Some_0;
    assert(mutated.subrange(0, i) =~= bs.subrange(0, i));
    lemma_fault_at(mutated, i, scopes, ValidationErrorKind::WrongMarkerType);
}

/// Validator soundness, illegal header markers: a nested header whose field
/// marker is changed to one that does not suit the enclosing scope is
/// rejected, at its index.
pub proof fn lemma_rejects_illegal_header_marker(bs: Seq<Block>, i: int, marker: Marker)
    requires
        0 <= i < bs.len(),
        i <= usize::MAX,
        bs[i] is Header,
        accepts(Seq::empty(), bs.subrange(0, i)) matches Some(scopes) && scopes.len() > 0
            && !marker_suits(scopes.last(), marker),
        accepts(Seq::empty(), bs.subrange(0, i + 1)) is Some,
    ensures
        validation_result(bs.update(i, Block::Header(bs[i]->Header_0, marker)))
            == Err::<(), ValidationError>(
            ValidationError { kind: ValidationErrorKind::WrongMarkerType, index: i as usize },
        ),
{
    let b = bs[i];
    let mutated = bs.update(i, Block::Header(b->Header_0, marker));
    lemma_accepts_prefix_step(bs, i);
    let scopes = accepts(Seq::empty(), bs.subrange(0, i))->Some_0;
    assert(mutated.subrange(0, i) =~= bs.subrange(0, i));
    lemma_fault_at(mutated, i, scopes, ValidationErrorKind::WrongMarkerType);
}

/// Accepting a prefix one block longer is accepting the shorter prefix and
/// then stepping over that block.
proof fn lemma_accepts_prefix_step(bs: Seq<Block>, i: int)
    requires
        0 <= i < bs.len(),
        accepts(Seq::empty(), bs.subrange(0, i + 1)) is Some,
    ensures
        accepts(Seq::empty(), bs.subrange(0, i)) is Some,
        step(accepts(Seq::empty(), bs.subrange(0, i))->Some_0, bs[i]) is Ok,
        accepts(Seq::empty(), bs.subrange(0, i + 1)) == Some(
            step(accepts(Seq::empty(), bs.subrange(0, i))->Some_0, bs[i])->Ok_0,
        ),
{
    let pre = bs.subrange(0, i);
    let one = seq![bs[i]];
    assert(bs.subrange(0, i + 1) =~= pre + one);
    lemma_accepts_concat(Seq::empty(), pre, one);
    assert(one[0] == bs[i]);
    assert(one.drop_first() =~= Seq::<Block>::empty());
    if let Some(scopes) = accepts(Seq::empty(), pre) {
        match step(scopes, bs[i]) {
            Ok(next) => {
                assert(accepts(next, Seq::<Block>::empty()) == Some(next));
            },
            Err(_) => {},
        }
    }
}

/// Length coherence: in an object that validates, every data block's length
/// section holds the width of its payload.
pub proof fn lemma_valid_lengths_coherent(bs: Seq<Block>)
    requires
        validation_result(bs) is Ok,
    ensures
        forall|j: int|
            0 <= j < bs.len() && (#[trigger] bs[j]) is Data ==> vie_value(bs[j]->Data_1@)
                == bs[j]->Data_2.width as nat,
{
    assert forall|j: int| 0 <= j < bs.len() && (#[trigger] bs[j]) is Data implies vie_value(
        bs[j]->Data_1@,
    ) == bs[j]->Data_2.width as nat by {
        lemma_run_ok_coherent(Seq::empty(), bs, 0, j);
    }
}

/// A run from index `i` that ends well passed every data block at or after
/// `i` with a matching length section.
proof fn lemma_run_ok_coherent(scopes: Seq<bool>, bs: Seq<Block>, i: int, j: int)
    requires
        0 <= i <= j < bs.len(),
        run_from(scopes, bs, i) is Ok,
        bs[j] is Data,
    ensures
        vie_value(bs[j]->Data_1@) == bs[j]->Data_2.width as nat,
    decreases j - i,
{
    match step(scopes, bs[i]) {
        Ok(next) => {
            if i < j {
                lemma_run_ok_coherent(next, bs, i + 1, j);
            }
        },
        Err(_) => {},
    }
}

/// Every object the machine runs through to the end is valid, whichever
/// scopes are still open.
pub proof fn lemma_accepted_is_valid(bs: Seq<Block>)
    requires
        accepts(Seq::empty(), bs) is Some,
    ensures
        validation_result(bs) == Ok::<(), ValidationError>(()),
{
    assert(bs.subrange(0, bs.len() as int) =~= bs);
    lemma_run_from_accepted(Seq::empty(), bs, 0, bs.len() as int);
}

/// A block that the builder calls of `CompressedObject` append with the
/// markers the encoder uses, given the scopes open before it: a root header
/// (`new_record`, `new_list`) first; then data from `push_data`, or a
/// nested header from `begin_nested_record` / `begin_nested_list`, with a
/// marker that suits the innermost scope; or a terminator from
/// `end_nested_object` while a nested scope is open.
pub open spec fn builder_block(scopes: Seq<bool>, b: Block) -> bool {
    match b {
        Block::Header(t, f) => (t is Record || t is List) && if scopes.len() == 0 {
            f is Null
        } else {
            marker_suits(scopes.last(), f)
        },
        Block::Data(m, l, g) => scopes.len() > 0 && marker_suits(scopes.last(), m) && l@
            == vie_encoding(g.width as nat),
        Block::Terminator => scopes.len() > 1,
    }
}

/// Validator soundness, acceptance: an object built by builder calls as the
/// encoder makes them stays accepted after each call, and so validates,
/// nested scopes still open or not.
pub proof fn lemma_builder_call_valid(bs: Seq<Block>, b: Block)
    requires
        accepts(Seq::empty(), bs) matches Some(scopes) && builder_block(scopes, b),
    ensures
        accepts(Seq::empty(), bs.push(b)) is Some,
        validation_result(bs.push(b)) == Ok::<(), ValidationError>(()),
{
    let scopes = accepts(Seq::empty(), bs)->Some_0;
    if let Block::Data(m, l, g) = b {
        lemma_vie_value_of_encoding(g.width as nat);
    }
    assert(step(scopes, b) is Ok);
    let one = seq![b];
    assert(bs.push(b) =~= bs + one);
    lemma_accepts_concat(Seq::empty(), bs, one);
    assert(one[0] == b);
    assert(one.drop_first() =~= Seq::<Block>::empty());
    assert(accepts(step(scopes, b)->Ok_0, Seq::<Block>::empty()) is Some);
    lemma_accepted_is_valid(bs.push(b));
}

/// The machine, running over the blocks of one object.
pub struct Validator<'a> {
    obj: &'a CompressedObject,
    index: usize,
    scopes: Vec<bool>,
}

impl<'a> Validator<'a> {
    /// Validates `obj`: `Ok` when the machine reaches the end without a
    /// fault, else the first fault.
    pub fn run(obj: &CompressedObject) -> (r: Result<(), ValidationError>)
        ensures
            r == validation_result(obj@),
    {
        let mut validator = Validator::new(obj);
        loop
            invariant
                validator.obj@ == obj@,
                validator.index <= obj@.len(),
                validation_result(obj@) == run_from(
                    validator.scopes@,
                    obj@,
                    validator.index as int,
                ),
            decreases obj@.len() - validator.index,
        {
            match validator.advance_state() {
                Err(e) => {
                    return Err(e);
                },
                Ok(true) => {
                    return Ok(());
                },
                Ok(false) => {},
            }
        }
    }

    /// A machine at the start of `obj`.
    fn new(obj: &'a CompressedObject) -> (r: Self)
        ensures
            r.obj == obj,
            r.index == 0,
            r.scopes@ == Seq::<bool>::empty(),
    {
        Validator { obj, index: 0, scopes: Vec::new() }
    }

    /// Takes the next block, if any is left.
    fn consume_block(&mut self) -> (r: Option<&'a Block>)
        requires
            old(self).index <= old(self).obj@.len(),
        ensures
            final(self).obj == old(self).obj,
            final(self).scopes == old(self).scopes,
            old(self).index == old(self).obj@.len() ==> r is None && final(self).index == old(
                self,
            ).index,
            old(self).index < old(self).obj@.len() ==> r == Some(
                &old(self).obj@[old(self).index as int],
            ) && final(self).index == old(self).index + 1,
    {
        let blocks = self.obj.blocks();
        if self.index == blocks.len() {
            return None;
        }
        let block = &blocks[self.index];
        self.index = self.index + 1;
        Some(block)
    }

    /// Moves the machine over one block. `Ok(true)` once the blocks are
    /// used up.
    fn advance_state(&mut self) -> (r: Result<bool, ValidationError>)
        requires
            old(self).index <= old(self).obj@.len(),
        ensures
            final(self).obj == old(self).obj,
            final(self).index <= final(self).obj@.len(),
            old(self).index == old(self).obj@.len() ==> r == Ok::<bool, ValidationError>(true)
                && final(self).index == old(self).index && final(self).scopes@ == old(
                self,
            ).scopes@,
            old(self).index < old(self).obj@.len() ==> match step(
                old(self).scopes@,
                old(self).obj@[old(self).index as int],
            ) {
                Err(kind) => r == Err::<bool, ValidationError>(
                    ValidationError { kind, index: old(self).index },
                ),
                Ok(next) => r == Ok::<bool, ValidationError>(false) && final(self).scopes@
                    == next && final(self).index == old(self).index + 1,
            },
    {
        let at = self.index;
        let block = match self.consume_block() {
            None => {
                return Ok(true);
            },
            Some(b) => b,
        };
        let n = self.scopes.len();
        if n == 0 {
            match block {
                Block::Header(m1, m2) => {
                    if !m2.is_null() {
                        return Err(
                            ValidationError { kind: ValidationErrorKind::MalformedHeader, index: at },
                        );
                    }
                    if m1.is_record() {
                        self.scopes.push(true);
                    } else if m1.is_list() {
                        self.scopes.push(false);
                    } else {
                        return Err(
                            ValidationError { kind: ValidationErrorKind::MalformedHeader, index: at },
                        );
                    }
                    proof {
                        assert(self.scopes@ =~= seq![m1 is Record]);
                    }
                    Ok(false)
                },
                _ => Err(ValidationError { kind: ValidationErrorKind::UnexpectedBlock, index: at }),
            }
        } else {
            let in_record = self.scopes[n - 1];
            match block {
                Block::Data(m, l, g) => {
                    let suits = if in_record {
                        m.is_valid_field_marker()
                    } else {
                        m.is_element()
                    };
                    if !suits {
                        return Err(
                            ValidationError { kind: ValidationErrorKind::WrongMarkerType, index: at },
                        );
                    }
                    let matches = match l.decode() {
                        Some(v) => v == g.width as u64,
                        None => false,
                    };
                    proof {
                        vstd::arithmetic::power2::lemma2_to64();
                    }
                    if !matches {
                        return Err(
                            ValidationError { kind: ValidationErrorKind::LengthMismatch, index: at },
                        );
                    }
                    Ok(false)
                },
                Block::Header(t, f) => {
                    if !t.is_record() && !t.is_list() {
                        return Err(
                            ValidationError { kind: ValidationErrorKind::MalformedHeader, index: at },
                        );
                    }
                    let suits = if in_record {
                        f.is_valid_field_marker()
                    } else {
                        f.is_element()
                    };
                    if !suits {
                        return Err(
                            ValidationError { kind: ValidationErrorKind::WrongMarkerType, index: at },
                        );
                    }
                    self.scopes.push(t.is_record());
                    Ok(false)
                },
                Block::Terminator => {
                    if n == 1 {
                        return Err(
                            ValidationError {
                                kind: ValidationErrorKind::UnexpectedTerminator,
                                index: at,
                            },
                        );
                    }
                    self.scopes.pop();
                    Ok(false)
                },
            }
        }
    }
}

} // verus!
