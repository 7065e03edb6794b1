//! The one-byte codes of kinds, by which they are stored.

use super::types::{EventSourceKind, LoopKind, NodeKind, RecordLitKind};
use vstd::prelude::*;

verus! {

impl NodeKind {
    /// The code of the kind.
    pub open spec fn spec_code(self) -> u8 {
        match self {
            NodeKind::Const => 0u8,
            NodeKind::BinOp => 1u8,
            NodeKind::TriOp => 2u8,
            NodeKind::UnOp => 3u8,
            NodeKind::FieldAccess => 4u8,
            NodeKind::Call => 5u8,
            NodeKind::Await => 6u8,
            NodeKind::Gate => 7u8,
            NodeKind::EventSource => 8u8,
        }
    }

    /// The code of the kind.
    pub fn code(self) -> (c: u8)
        ensures
            c == self.spec_code(),
    {
        match self {
            NodeKind::Const => 0,
            NodeKind::BinOp => 1,
            NodeKind::TriOp => 2,
            NodeKind::UnOp => 3,
            NodeKind::FieldAccess => 4,
            NodeKind::Call => 5,
            NodeKind::Await => 6,
            NodeKind::Gate => 7,
            NodeKind::EventSource => 8,
        }
    }

    /// The kind of a code, where it has one.
    pub fn from_code(c: u8) -> (r: Option<Self>)
        ensures
            match r {
                Some(k) => k.spec_code() == c,
                None => forall|k: NodeKind| #[trigger] k.spec_code() != c,
            },
    {
        match c {
            0 => Some(NodeKind::Const),
            1 => Some(NodeKind::BinOp),
            2 => Some(NodeKind::TriOp),
            3 => Some(NodeKind::UnOp),
            4 => Some(NodeKind::FieldAccess),
            5 => Some(NodeKind::Call),
            6 => Some(NodeKind::Await),
            7 => Some(NodeKind::Gate),
            8 => Some(NodeKind::EventSource),
            _ => None,
        }
    }
}

impl RecordLitKind {
    /// The code of the kind.
    pub open spec fn spec_code(self) -> u8 {
        match self {
            RecordLitKind::Record => 0u8,
            RecordLitKind::Adt => 1u8,
            RecordLitKind::Newtype => 2u8,
        }
    }

    /// The code of the kind.
    pub fn code(self) -> (c: u8)
        ensures
            c == self.spec_code(),
    {
        match self {
            RecordLitKind::Record => 0,
            RecordLitKind::Adt => 1,
            RecordLitKind::Newtype => 2,
        }
    }

    /// The kind of a code, where it has one.
    pub fn from_code(c: u8) -> (r: Option<Self>)
        ensures
            match r {
                Some(k) => k.spec_code() == c,
                None => forall|k: RecordLitKind| #[trigger] k.spec_code() != c,
            },
    {
        match c {
            0 => Some(RecordLitKind::Record),
            1 => Some(RecordLitKind::Adt),
            2 => Some(RecordLitKind::Newtype),
            _ => None,
        }
    }
}

impl EventSourceKind {
    /// The code of the kind.
    pub open spec fn spec_code(self) -> u8 {
        match self {
            EventSourceKind::Channel => 0u8,
            EventSourceKind::AsyncJoin => 1u8,
            EventSourceKind::Timer => 2u8,
            EventSourceKind::SubgraphComplete => 3u8,
        }
    }

    /// The code of the kind.
    pub fn code(self) -> (c: u8)
        ensures
            c == self.spec_code(),
    {
        match self {
            EventSourceKind::Channel => 0,
            EventSourceKind::AsyncJoin => 1,
            EventSourceKind::Timer => 2,
            EventSourceKind::SubgraphComplete => 3,
        }
    }

    /// The kind of a code, where it has one.
    pub fn from_code(c: u8) -> (r: Option<Self>)
        ensures
            match r {
                Some(k) => k.spec_code() == c,
                None => forall|k: EventSourceKind| #[trigger] k.spec_code() != c,
            },
    {
        match c {
            0 => Some(EventSourceKind::Channel),
            1 => Some(EventSourceKind::AsyncJoin),
            2 => Some(EventSourceKind::Timer),
            3 => Some(EventSourceKind::SubgraphComplete),
            _ => None,
        }
    }
}

impl LoopKind {
    /// The code of the kind.
    pub open spec fn spec_code(self) -> u8 {
        match self {
            LoopKind::NotLoop => 0u8,
            LoopKind::While => 1u8,
            LoopKind::Loop => 2u8,
            LoopKind::For => 3u8,
            LoopKind::LoopBody => 4u8,
            LoopKind::TailRec => 5u8,
        }
    }

    /// The code of the kind.
    pub fn code(self) -> (c: u8)
        ensures
            c == self.spec_code(),
    {
        match self {
            LoopKind::NotLoop => 0,
            LoopKind::While => 1,
            LoopKind::Loop => 2,
            LoopKind::For => 3,
            LoopKind::LoopBody => 4,
            LoopKind::TailRec => 5,
        }
    }

    /// The kind of a code, where it has one.
    pub fn from_code(c: u8) -> (r: Option<Self>)
        ensures
            match r {
                Some(k) => k.spec_code() == c,
                None => forall|k: LoopKind| #[trigger] k.spec_code() != c,
            },
    {
        match c {
            0 => Some(LoopKind::NotLoop),
            1 => Some(LoopKind::While),
            2 => Some(LoopKind::Loop),
            3 => Some(LoopKind::For),
            4 => Some(LoopKind::LoopBody),
            5 => Some(LoopKind::TailRec),
            _ => None,
        }
    }
}

/// Different kinds have different codes.
pub proof fn law_codes_are_distinct(
    a: (NodeKind, NodeKind),
    b: (RecordLitKind, RecordLitKind),
    c: (EventSourceKind, EventSourceKind),
    d: (LoopKind, LoopKind),
)
    ensures
        a.0.spec_code() == a.1.spec_code() ==> a.0 == a.1,
        b.0.spec_code() == b.1.spec_code() ==> b.0 == b.1,
        c.0.spec_code() == c.1.spec_code() ==> c.0 == c.1,
        d.0.spec_code() == d.1.spec_code() ==> d.0 == d.1,
{
}

} // verus!
