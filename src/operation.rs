use vstd::prelude::*;
use crate::path::{Seg, Spath};
use crate::value::{Json, Value};

verus! {

/// One operation of a patch.
#[derive(Debug, PartialEq)]
pub enum PatchOp {
    Add { path: Spath, value: Value },
    Remove { path: Spath },
    Replace { path: Spath, value: Value },
    Move { from: Spath, path: Spath },
    Copy { from: Spath, path: Spath },
    Test { path: Spath, value: Value },
}

/// The mathematical form of an operation.
pub enum Op {
    Add(Seq<Seg>, Json),
    Remove(Seq<Seg>),
    Replace(Seq<Seg>, Json),
    Move(Seq<Seg>, Seq<Seg>),
    Copy(Seq<Seg>, Seq<Seg>),
    Test(Seq<Seg>, Json),
}

impl View for PatchOp {
    type V = Op;

    open spec fn view(&self) -> Op {
        match self {
            PatchOp::Add { path, value } => Op::Add(path@, value@),
            PatchOp::Remove { path } => Op::Remove(path@),
            PatchOp::Replace { path, value } => Op::Replace(path@, value@),
            PatchOp::Move { from, path } => Op::Move(from@, path@),
            PatchOp::Copy { from, path } => Op::Copy(from@, path@),
            PatchOp::Test { path, value } => Op::Test(path@, value@),
        }
    }
}

pub open spec fn ops_view(ops: Seq<PatchOp>) -> Seq<Op> {
    ops.map_values(|o: PatchOp| o@)
}

impl PatchOp {
    pub fn replace(path: Spath, value: Value) -> (r: Self)
        ensures
            r@ == Op::Replace(path@, value@),
    {
        PatchOp::Replace { path, value }
    }

    pub fn remove(path: Spath) -> (r: Self)
        ensures
            r@ == Op::Remove(path@),
    {
        PatchOp::Remove { path }
    }

    pub fn add(path: Spath, value: Value) -> (r: Self)
        ensures
            r@ == Op::Add(path@, value@),
    {
        PatchOp::Add { path, value }
    }

    pub fn move_op(from: Spath, path: Spath) -> (r: Self)
        ensures
            r@ == Op::Move(from@, path@),
    {
        PatchOp::Move { from, path }
    }

    pub fn copy(from: Spath, path: Spath) -> (r: Self)
        ensures
            r@ == Op::Copy(from@, path@),
    {
        PatchOp::Copy { from, path }
    }

    pub fn test(path: Spath, value: Value) -> (r: Self)
        ensures
            r@ == Op::Test(path@, value@),
    {
        PatchOp::Test { path, value }
    }
}

} // verus!
