//! The MIR of a function as the analysis hands it over: places, operands,
//! statements and terminators, and the control flow between basic blocks.

use crate::models::{FnLocal, Range};
use vstd::prelude::*;

verus! {

/// The index of a basic block within its function.
#[derive(Clone, Copy, PartialEq, Eq, PartialOrd, Ord, Hash, Debug, Structural)]
pub struct BasicBlockId(pub usize);

/// One step of a place's projection.
#[derive(Clone, Copy, PartialEq, Eq, Debug, Structural)]
pub enum MirProjectionElem {
    Deref,
    Field { index: usize },
    Index { local: FnLocal },
    Other,
}

/// A local with the projection applied to it.
#[derive(Clone, Debug)]
pub struct MirPlace {
    pub local: FnLocal,
    pub projection: Vec<MirProjectionElem>,
}

/// An operand: a place copied or moved, or something else.
#[derive(Clone, Debug)]
pub enum MirOperand {
    Copy { place: MirPlace },
    Move { place: MirPlace },
    Other,
}

/// The right-hand side of an assignment.
#[derive(Clone, Debug)]
pub enum MirRval {
    Use { operand: MirOperand },
    Repeat { operand: MirOperand },
    Ref { place: MirPlace, mutable: bool },
    Cast { operand: MirOperand },
    BinaryOp { left: MirOperand, right: MirOperand },
    UnaryOp { operand: MirOperand },
    Aggregate { fields: Vec<MirOperand> },
    Other,
}

/// A statement, with the source range it comes from where it has one.
#[derive(Clone, Debug)]
pub struct MirStatement {
    pub kind: MirStatementKind,
    pub range: Option<Range>,
}

/// What a statement does.
#[derive(Clone, Debug)]
pub enum MirStatementKind {
    Assign { place: MirPlace, rval: MirRval },
    StorageLive { local: FnLocal },
    StorageDead { local: FnLocal },
    Nop,
    Other,
}

/// The terminator of a basic block, with the source range it comes from
/// where it has one.
#[derive(Clone, Debug)]
pub struct MirTerminator {
    pub kind: MirTerminatorKind,
    pub range: Option<Range>,
}

/// How a basic block ends.
#[derive(Clone, Debug)]
pub enum MirTerminatorKind {
    Goto { target: BasicBlockId },
    SwitchInt { discr: MirOperand, targets: Vec<BasicBlockId> },
    Return,
    Unreachable,
    Drop { place: MirPlace, target: BasicBlockId },
    Call {
        func: MirOperand,
        args: Vec<MirOperand>,
        destination: MirPlace,
        target: Option<BasicBlockId>,
        fn_range: Option<Range>,
    },
    TailCall { func: MirOperand, args: Vec<MirOperand>, fn_range: Option<Range> },
    Assert { cond: MirOperand, target: BasicBlockId },
    Other { successors: Vec<BasicBlockId> },
}

/// The blocks that control may pass to after a terminator of kind `k`.
pub open spec fn successors_of(k: MirTerminatorKind) -> Seq<BasicBlockId> {
    match k {
        MirTerminatorKind::Goto { target } => seq![target],
        MirTerminatorKind::SwitchInt { targets, .. } => targets@,
        MirTerminatorKind::Drop { target, .. } => seq![target],
        MirTerminatorKind::Call { target, .. } => match target {
            Some(t) => seq![t],
            None => Seq::empty(),
        },
        MirTerminatorKind::Assert { target, .. } => seq![target],
        MirTerminatorKind::Other { successors } => successors@,
        MirTerminatorKind::TailCall { .. } => Seq::empty(),
        MirTerminatorKind::Return => Seq::empty(),
        MirTerminatorKind::Unreachable => Seq::empty(),
    }
}

/// A copy of the block ids of `v`.
fn copy_ids(v: &Vec<BasicBlockId>) -> (r: Vec<BasicBlockId>)
    ensures
        r@ == v@,
{
    let mut r: Vec<BasicBlockId> = Vec::new();
    let mut i: usize = 0;
    while i < v.len()
        invariant
            i <= v.len(),
            r@ == v@.take(i as int),
        decreases v.len() - i,
    {
        r.push(v[i]);
        i = i + 1;
        proof {
            assert(r@ =~= v@.take(i as int));
        }
    }
    proof {
        assert(v@.take(i as int) =~= v@);
    }
    r
}

impl MirTerminator {
    /// The blocks that control may pass to after this terminator.
    pub fn successors(&self) -> (r: Vec<BasicBlockId>)
        ensures
            r@ == successors_of(self.kind),
    {
        match &self.kind {
            MirTerminatorKind::Goto { target } => vec![*target],
            MirTerminatorKind::SwitchInt { targets, .. } => copy_ids(targets),
            MirTerminatorKind::Drop { target, .. } => vec![*target],
            MirTerminatorKind::Call { target, .. } => match target {
                Some(t) => vec![*t],
                None => Vec::new(),
            },
            MirTerminatorKind::Assert { target, .. } => vec![*target],
            MirTerminatorKind::Other { successors } => copy_ids(successors),
            MirTerminatorKind::TailCall { .. } => Vec::new(),
            MirTerminatorKind::Return => Vec::new(),
            MirTerminatorKind::Unreachable => Vec::new(),
        }
    }
}

} // verus!
