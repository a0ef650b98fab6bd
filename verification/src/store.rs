//! The operations the client queues for the server (its outbox).

use vstd::prelude::*;
use crate::model::{PatchView, Want, WantPatch, WantView};

verus! {

/// An operation to send to the server, kept in the outbox until sent.
#[derive(Debug)]
pub enum Op {
    Create { want: Want },
    Patch { id: String, patch: WantPatch },
    Delete { id: String },
}

/// An operation as plain values.
pub enum OpView {
    Create { want: WantView },
    Patch { id: Seq<char>, patch: PatchView },
    Delete { id: Seq<char> },
}

impl View for Op {
    type V = OpView;

    open spec fn view(&self) -> OpView {
        match self {
            Op::Create { want } => OpView::Create { want: want@ },
            Op::Patch { id, patch } => OpView::Patch { id: id@, patch: patch@ },
            Op::Delete { id } => OpView::Delete { id: id@ },
        }
    }
}

/// The id of the want an operation is about, as plain values.
pub open spec fn op_view_id(op: OpView) -> Seq<char> {
    match op {
        OpView::Create { want } => want.id,
        OpView::Patch { id, .. } => id,
        OpView::Delete { id } => id,
    }
}

/// The id of the want an operation is about.
pub open spec fn op_id(op: Op) -> Seq<char> {
    match op {
        Op::Create { want } => want.id@,
        Op::Patch { id, .. } => id@,
        Op::Delete { id } => id@,
    }
}

impl Clone for Op {
    fn clone(&self) -> (r: Self)
        ensures
            r == *self,
    {
        match self {
            Op::Create { want } => Op::Create { want: want.clone() },
            Op::Patch { id, patch } => Op::Patch { id: id.clone(), patch: patch.clone() },
            Op::Delete { id } => Op::Delete { id: id.clone() },
        }
    }
}

impl Op {
    /// The id of the want the operation is about.
    pub fn id(&self) -> (r: &str)
        ensures
            r@ == op_id(*self),
            r@ == op_view_id(self@),
    {
        match self {
            Op::Create { want } => want.id.as_str(),
            Op::Patch { id, .. } => id.as_str(),
            Op::Delete { id } => id.as_str(),
        }
    }
}

} // verus!
