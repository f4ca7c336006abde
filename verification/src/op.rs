//! Operations: timestamped, causally-ordered records of single mutations.
//!
//! A machine's own log is an append-only sequence of operations with
//! strictly increasing logical counters; wall-clock timestamps are carried
//! for reporting but never used to order operations across machines. The
//! merge order of two operations is `(counter, origin)`, a deterministic
//! tiebreak that every machine resolves identically.

use vstd::prelude::*;

use crate::clock::{ClockEntry, VectorClock};
use crate::file::{AttrV, FileAttr, Tag, TagV, clone_opt_string};
use crate::ids::{FileId, MachineId, TagId};

verus! {

/// The scalar fields an operation can write; named in conflict reports.
#[derive(Clone, Copy, PartialEq, Eq, Structural, Debug)]
pub enum FieldName {
    Title,
    Author,
    Path,
}

/// The payload of one operation: exactly one mutation of one file.
#[derive(Debug, PartialEq, Eq)]
pub enum OpKind {
    CreateFile { path: String, attrs: FileAttr },
    MoveFile { new_path: String },
    SetTitle { title: Option<String> },
    SetAuthor { author: Option<String> },
    AddTag { tag: Tag },
    RemoveTag { tag_id: TagId },
    DeleteFile,
}

/// Mathematical value of an `OpKind`.
#[verifier::ext_equal]
pub enum OpKindV {
    CreateFile { path: Seq<char>, attrs: AttrV },
    MoveFile { new_path: Seq<char> },
    SetTitle { title: Option<Seq<char>> },
    SetAuthor { author: Option<Seq<char>> },
    AddTag { tag: TagV },
    RemoveTag { tag_id: TagId },
    DeleteFile,
}

impl DeepView for OpKind {
    type V = OpKindV;

    open spec fn deep_view(&self) -> OpKindV {
        match self {
            OpKind::CreateFile { path, attrs } => OpKindV::CreateFile {
                path: path@,
                attrs: attrs.deep_view(),
            },
            OpKind::MoveFile { new_path } => OpKindV::MoveFile { new_path: new_path@ },
            OpKind::SetTitle { title } => OpKindV::SetTitle { title: title.deep_view() },
            OpKind::SetAuthor { author } => OpKindV::SetAuthor { author: author.deep_view() },
            OpKind::AddTag { tag } => OpKindV::AddTag { tag: tag.deep_view() },
            OpKind::RemoveTag { tag_id } => OpKindV::RemoveTag { tag_id: *tag_id },
            OpKind::DeleteFile => OpKindV::DeleteFile,
        }
    }
}

impl Clone for OpKind {
    fn clone(&self) -> (res: Self)
        ensures
            res.deep_view() == self.deep_view(),
    {
        match self {
            OpKind::CreateFile { path, attrs } => OpKind::CreateFile {
                path: path.clone(),
                attrs: attrs.clone(),
            },
            OpKind::MoveFile { new_path } => OpKind::MoveFile { new_path: new_path.clone() },
            OpKind::SetTitle { title } => OpKind::SetTitle { title: clone_opt_string(title) },
            OpKind::SetAuthor { author } => OpKind::SetAuthor {
                author: clone_opt_string(author),
            },
            OpKind::AddTag { tag } => OpKind::AddTag { tag: tag.clone() },
            OpKind::RemoveTag { tag_id } => OpKind::RemoveTag { tag_id: *tag_id },
            OpKind::DeleteFile => OpKind::DeleteFile,
        }
    }
}

/// One record of a machine's operation log.
#[derive(Debug, PartialEq, Eq)]
pub struct Operation {
    /// The machine that issued the operation.
    pub origin: MachineId,
    /// The issuing machine's logical counter, strictly increasing along its
    /// own log; the merge-order key together with `origin`.
    pub counter: u64,
    /// Wall-clock time at the issuing machine; reporting only.
    pub timestamp: u64,
    /// The file the operation mutates.
    pub file_id: FileId,
    /// What the issuing machine had observed of every other machine's log
    /// when it issued this operation.
    pub clock: VectorClock,
    pub kind: OpKind,
}

/// Mathematical value of an `Operation`.
#[verifier::ext_equal]
pub struct OpV {
    pub origin: MachineId,
    pub counter: u64,
    pub timestamp: u64,
    pub file_id: FileId,
    pub clock: Seq<ClockEntry>,
    pub kind: OpKindV,
}

impl DeepView for Operation {
    type V = OpV;

    open spec fn deep_view(&self) -> OpV {
        OpV {
            origin: self.origin,
            counter: self.counter,
            timestamp: self.timestamp,
            file_id: self.file_id,
            clock: self.clock@,
            kind: self.kind.deep_view(),
        }
    }
}

impl Clone for Operation {
    fn clone(&self) -> (res: Self)
        ensures
            res.deep_view() == self.deep_view(),
    {
        let res = Operation {
            origin: self.origin,
            counter: self.counter,
            timestamp: self.timestamp,
            file_id: self.file_id,
            clock: self.clock.clone(),
            kind: self.kind.clone(),
        };
        proof {
            assert(res.deep_view() =~= self.deep_view());
        }
        res
    }
}

/// The deterministic merge order: by logical counter, ties broken by the
/// total order on machine ids. Every machine replays operations in this
/// order, so ties resolve identically everywhere.
pub open spec fn op_le(a: OpV, b: OpV) -> bool {
    a.counter < b.counter || (a.counter == b.counter && a.origin.bits <= b.origin.bits)
}

/// No two operations of the sequence share the `(counter, origin)` merge
/// key. Within one log the counters increase strictly, and across logs the
/// origins differ, so every well-formed collection of logs has this.
pub open spec fn distinct_keys(s: Seq<OpV>) -> bool {
    forall|i: int, j: int|
        0 <= i < j < s.len() ==> !(#[trigger] s[i].counter == #[trigger] s[j].counter
            && s[i].origin == s[j].origin)
}

/// A well-formed operation: a `CreateFile` payload carries no two tags with
/// one tag id.
pub open spec fn op_wf(op: OpV) -> bool {
    match op.kind {
        OpKindV::CreateFile { path, attrs } => forall|i: int, j: int|
            0 <= i < j < attrs.tags.len() ==> #[trigger] attrs.tags[i].tag_id
                != #[trigger] attrs.tags[j].tag_id,
        _ => true,
    }
}

impl Operation {
    /// The exec side of the merge order.
    pub fn le(&self, other: &Operation) -> (r: bool)
        ensures
            r == op_le(self.deep_view(), other.deep_view()),
    {
        self.counter < other.counter || (self.counter == other.counter && self.origin.bits
            <= other.origin.bits)
    }
}

} // verus!
