//! The reconciler: folds the operation logs of several machines into one
//! consistent file view plus a conflict report.
//!
//! All known operations are replayed per file id in the deterministic
//! `(counter, origin)` order. Concurrent writes to one scalar field are
//! reported as conflicts and resolved last-writer-wins by that same order;
//! tag edits on distinct tag ids commute; a tombstone, once replayed,
//! suppresses every other mutation of its file id for good.

use vstd::multiset::Multiset;
use vstd::prelude::*;

use crate::clock::{ClockEntry, VectorClock, spec_observes};
use crate::file::{AttrV, File, FileAttr, FileType, FileV, Tag, TagV, clone_opt_string};
use crate::ids::{FileId, MachineId, TagId};
use crate::op::{FieldName, OpKind, OpKindV, OpV, Operation, op_le};

verus! {

/// A conflict found during reconciliation. Conflicts are recorded and
/// reported, never silently resolved away: the merge always produces a
/// deterministic result alongside them.
#[derive(Debug, PartialEq, Eq)]
pub enum ConflictError {
    /// Two machines wrote the named scalar field of the file concurrently.
    SyncExistConflict(FieldName, FileId),
    /// Two machines independently added equally named tags with distinct
    /// ids to the file.
    DuplicateTag(String, FileId),
    /// The merge assigned two distinct files the same relative path.
    PathCollision(String),
}

/// Mathematical value of a `ConflictError`.
#[verifier::ext_equal]
pub enum ConfV {
    SyncExistConflict(FieldName, FileId),
    DuplicateTag(Seq<char>, FileId),
    PathCollision(Seq<char>),
}

impl DeepView for ConflictError {
    type V = ConfV;

    open spec fn deep_view(&self) -> ConfV {
        match self {
            ConflictError::SyncExistConflict(f, id) => ConfV::SyncExistConflict(*f, *id),
            ConflictError::DuplicateTag(name, id) => ConfV::DuplicateTag(name@, *id),
            ConflictError::PathCollision(path) => ConfV::PathCollision(path@),
        }
    }
}

impl Clone for ConflictError {
    fn clone(&self) -> (res: Self)
        ensures
            res.deep_view() == self.deep_view(),
    {
        match self {
            ConflictError::SyncExistConflict(f, id) => ConflictError::SyncExistConflict(*f, *id),
            ConflictError::DuplicateTag(name, id) => ConflictError::DuplicateTag(
                name.clone(),
                *id,
            ),
            ConflictError::PathCollision(path) => ConflictError::PathCollision(path.clone()),
        }
    }
}

/// The operation that last wrote a scalar field: enough to decide whether a
/// later write was causally aware of it.
pub struct Writer {
    pub origin: MachineId,
    pub counter: u64,
    pub clock: VectorClock,
}

/// Mathematical value of a `Writer`.
#[verifier::ext_equal]
pub struct WriterV {
    pub origin: MachineId,
    pub counter: u64,
    pub clock: Seq<ClockEntry>,
}

impl DeepView for Writer {
    type V = WriterV;

    open spec fn deep_view(&self) -> WriterV {
        WriterV { origin: self.origin, counter: self.counter, clock: self.clock@ }
    }
}

impl Clone for Writer {
    fn clone(&self) -> (res: Self)
        ensures
            res.deep_view() == self.deep_view(),
    {
        Writer { origin: self.origin, counter: self.counter, clock: self.clock.clone() }
    }
}

/// One tag of the replay state: the tag itself plus the machine whose
/// operation added it, kept to tell independent duplicates apart.
pub struct TagSlot {
    pub tag_id: TagId,
    pub name: String,
    pub mtime: u64,
    pub adder: MachineId,
}

/// Mathematical value of a `TagSlot`.
#[verifier::ext_equal]
pub struct TagSlotV {
    pub tag_id: TagId,
    pub name: Seq<char>,
    pub mtime: u64,
    pub adder: MachineId,
}

impl DeepView for TagSlot {
    type V = TagSlotV;

    open spec fn deep_view(&self) -> TagSlotV {
        TagSlotV {
            tag_id: self.tag_id,
            name: self.name@,
            mtime: self.mtime,
            adder: self.adder,
        }
    }
}

impl Clone for TagSlot {
    fn clone(&self) -> (res: Self)
        ensures
            res.deep_view() == self.deep_view(),
    {
        TagSlot {
            tag_id: self.tag_id,
            name: self.name.clone(),
            mtime: self.mtime,
            adder: self.adder,
        }
    }
}

/// The replay state of one file id: the folded field values, the last
/// writer of each scalar field, the tag set, and the conflicts recorded so
/// far for this id.
pub struct RepState {
    pub created: bool,
    pub deleted: bool,
    pub path: String,
    pub ftype: FileType,
    pub title: Option<String>,
    pub author: Option<String>,
    pub rendered: Option<String>,
    pub mtime: u64,
    pub title_w: Option<Writer>,
    pub author_w: Option<Writer>,
    pub path_w: Option<Writer>,
    pub tags: Vec<TagSlot>,
    pub conflicts: Vec<ConflictError>,
}

/// Mathematical value of a `RepState`.
#[verifier::ext_equal]
pub struct RepV {
    pub created: bool,
    pub deleted: bool,
    pub path: Seq<char>,
    pub ftype: FileType,
    pub title: Option<Seq<char>>,
    pub author: Option<Seq<char>>,
    pub rendered: Option<Seq<char>>,
    pub mtime: u64,
    pub title_w: Option<WriterV>,
    pub author_w: Option<WriterV>,
    pub path_w: Option<WriterV>,
    pub tags: Seq<TagSlotV>,
    pub conflicts: Seq<ConfV>,
}

impl DeepView for RepState {
    type V = RepV;

    open spec fn deep_view(&self) -> RepV {
        RepV {
            created: self.created,
            deleted: self.deleted,
            path: self.path@,
            ftype: self.ftype,
            title: self.title.deep_view(),
            author: self.author.deep_view(),
            rendered: self.rendered.deep_view(),
            mtime: self.mtime,
            title_w: self.title_w.deep_view(),
            author_w: self.author_w.deep_view(),
            path_w: self.path_w.deep_view(),
            tags: self.tags.deep_view(),
            conflicts: self.conflicts.deep_view(),
        }
    }
}

/// The state every replay starts from: nothing created, nothing known.
pub open spec fn init_rep() -> RepV {
    RepV {
        created: false,
        deleted: false,
        path: Seq::empty(),
        ftype: FileType::HTML,
        title: None,
        author: None,
        rendered: None,
        mtime: 0,
        title_w: None,
        author_w: None,
        path_w: None,
        tags: Seq::empty(),
        conflicts: Seq::empty(),
    }
}

/// The writer record of an operation.
pub open spec fn writer_of(op: OpV) -> WriterV {
    WriterV { origin: op.origin, counter: op.counter, clock: op.clock }
}

/// A scalar write by `op` conflicts with the field's last write `w` iff the
/// two come from different machines and neither causally observed the
/// other: the vector clocks show that each machine issued its write unaware
/// of the other's.
pub open spec fn scalar_conflict(w: Option<WriterV>, op: OpV) -> bool {
    match w {
        None => false,
        Some(w) => w.origin != op.origin && !spec_observes(op.clock, w.origin, w.counter)
            && !spec_observes(w.clock, op.origin, op.counter),
    }
}

/// The tag slots a `CreateFile` payload establishes: its tags, all credited
/// to the creating machine.
pub open spec fn attach_tags(tags: Seq<TagV>, m: MachineId) -> Seq<TagSlotV> {
    tags.map_values(
        |t: TagV| TagSlotV { tag_id: t.tag_id, name: t.name, mtime: t.mtime, adder: m },
    )
}

/// The tag slots with every slot of the given tag id taken out.
pub open spec fn remove_tag_seq(s: Seq<TagSlotV>, id: TagId) -> Seq<TagSlotV>
    decreases s.len(),
{
    if s.len() == 0 {
        s
    } else {
        let rest = remove_tag_seq(s.drop_last(), id);
        if s.last().tag_id == id {
            rest
        } else {
            rest.push(s.last())
        }
    }
}

/// An added tag duplicates an existing one iff some present slot carries
/// the same name under a different id, added by a different machine.
pub open spec fn dup_tag(s: Seq<TagSlotV>, t: TagV, origin: MachineId) -> bool {
    exists|i: int|
        0 <= i < s.len() && (#[trigger] s[i].name) == t.name && s[i].tag_id != t.tag_id
            && s[i].adder != origin
}

/// One step of the replay: the next operation in merge order folded into
/// the state. A tombstoned state absorbs every further operation.
pub open spec fn apply(st: RepV, op: OpV) -> RepV {
    if st.deleted {
        st
    } else {
        match op.kind {
            OpKindV::CreateFile { path, attrs } => RepV {
                created: true,
                path,
                ftype: attrs.file_type,
                title: attrs.title,
                author: attrs.author,
                rendered: attrs.rendered,
                mtime: op.timestamp,
                title_w: Some(writer_of(op)),
                author_w: Some(writer_of(op)),
                path_w: Some(writer_of(op)),
                tags: attach_tags(attrs.tags, op.origin),
                ..st
            },
            OpKindV::MoveFile { new_path } => RepV {
                path: new_path,
                path_w: Some(writer_of(op)),
                mtime: op.timestamp,
                conflicts: if scalar_conflict(st.path_w, op) {
                    st.conflicts.push(ConfV::SyncExistConflict(FieldName::Path, op.file_id))
                } else {
                    st.conflicts
                },
                ..st
            },
            OpKindV::SetTitle { title } => RepV {
                title,
                title_w: Some(writer_of(op)),
                mtime: op.timestamp,
                conflicts: if scalar_conflict(st.title_w, op) {
                    st.conflicts.push(ConfV::SyncExistConflict(FieldName::Title, op.file_id))
                } else {
                    st.conflicts
                },
                ..st
            },
            OpKindV::SetAuthor { author } => RepV {
                author,
                author_w: Some(writer_of(op)),
                mtime: op.timestamp,
                conflicts: if scalar_conflict(st.author_w, op) {
                    st.conflicts.push(ConfV::SyncExistConflict(FieldName::Author, op.file_id))
                } else {
                    st.conflicts
                },
                ..st
            },
            OpKindV::AddTag { tag } => RepV {
                tags: remove_tag_seq(st.tags, tag.tag_id).push(
                    TagSlotV {
                        tag_id: tag.tag_id,
                        name: tag.name,
                        mtime: tag.mtime,
                        adder: op.origin,
                    },
                ),
                conflicts: if dup_tag(st.tags, tag, op.origin) {
                    st.conflicts.push(ConfV::DuplicateTag(tag.name, op.file_id))
                } else {
                    st.conflicts
                },
                ..st
            },
            OpKindV::RemoveTag { tag_id } => RepV {
                tags: remove_tag_seq(st.tags, tag_id),
                ..st
            },
            OpKindV::DeleteFile => RepV { deleted: true, ..st },
        }
    }
}

/// The whole replay: the operations folded into the initial state, in the
/// order of the sequence.
pub open spec fn replay(ops: Seq<OpV>) -> RepV
    decreases ops.len(),
{
    if ops.len() == 0 {
        init_rep()
    } else {
        apply(replay(ops.drop_last()), ops.last())
    }
}

impl RepState {
    /// The fresh replay state.
    pub fn init() -> (r: Self)
        ensures
            r.deep_view() == init_rep(),
    {
        let r = RepState {
            created: false,
            deleted: false,
            path: String::new(),
            ftype: FileType::HTML,
            title: None,
            author: None,
            rendered: None,
            mtime: 0,
            title_w: None,
            author_w: None,
            path_w: None,
            tags: Vec::new(),
            conflicts: Vec::new(),
        };
        proof {
            assert(r.deep_view() =~= init_rep());
        }
        r
    }
}

/// Whether the last write of a scalar field and a new write of it are
/// concurrent, per `scalar_conflict`.
fn check_scalar_conflict(w: &Option<Writer>, op: &Operation) -> (r: bool)
    ensures
        r == scalar_conflict(w.deep_view(), op.deep_view()),
{
    match w {
        None => false,
        Some(w) => {
            w.origin != op.origin && !op.clock.observes(w.origin, w.counter)
                && !w.clock.observes(op.origin, op.counter)
        },
    }
}

/// The writer record of an operation.
fn writer_of_exec(op: &Operation) -> (r: Writer)
    ensures
        r.deep_view() == writer_of(op.deep_view()),
{
    Writer { origin: op.origin, counter: op.counter, clock: op.clock.clone() }
}

/// The tag slots of a `CreateFile` payload.
fn attach_tags_exec(tags: &Vec<Tag>, m: MachineId) -> (r: Vec<TagSlot>)
    ensures
        r.deep_view() == attach_tags(tags.deep_view(), m),
{
    let mut r: Vec<TagSlot> = Vec::new();
    let mut i: usize = 0;
    while i < tags.len()
        invariant
            i <= tags.len(),
            r.len() == i,
            forall|j: int|
                0 <= j < i ==> (#[trigger] r@[j].deep_view()) == attach_tags(
                    tags.deep_view(),
                    m,
                )[j],
        decreases tags.len() - i,
    {
        let t = &tags[i];
        r.push(
            TagSlot { tag_id: t.tag_id, name: t.tag_name.clone(), mtime: t.modify_time, adder: m },
        );
        i = i + 1;
    }
    proof {
        assert(r.deep_view() =~= attach_tags(tags.deep_view(), m));
    }
    r
}

/// The tag slots with every slot of the given id taken out.
fn remove_tag_slots(tags: &Vec<TagSlot>, id: TagId) -> (r: Vec<TagSlot>)
    ensures
        r.deep_view() == remove_tag_seq(tags.deep_view(), id),
{
    let mut r: Vec<TagSlot> = Vec::new();
    let mut i: usize = 0;
    proof {
        assert(tags.deep_view().take(0) =~= Seq::<TagSlotV>::empty());
    }
    while i < tags.len()
        invariant
            i <= tags.len(),
            r.deep_view() == remove_tag_seq(tags.deep_view().take(i as int), id),
        decreases tags.len() - i,
    {
        proof {
            assert(tags.deep_view().take(i + 1).drop_last() =~= tags.deep_view().take(i as int));
            assert(tags.deep_view().take(i + 1).last() == tags.deep_view()[i as int]);
        }
        if tags[i].tag_id != id {
            r.push(tags[i].clone());
            proof {
                assert(r.deep_view() =~= remove_tag_seq(tags.deep_view().take(i + 1), id));
            }
        } else {
            proof {
                assert(r.deep_view() =~= remove_tag_seq(tags.deep_view().take(i + 1), id));
            }
        }
        i = i + 1;
    }
    proof {
        assert(tags.deep_view().take(tags.len() as int) =~= tags.deep_view());
    }
    r
}

/// Whether adding `tag` from `origin` duplicates a present tag by name.
fn check_dup_tag(tags: &Vec<TagSlot>, tag: &Tag, origin: MachineId) -> (r: bool)
    ensures
        r == dup_tag(tags.deep_view(), tag.deep_view(), origin),
{
    let mut i: usize = 0;
    while i < tags.len()
        invariant
            i <= tags.len(),
            forall|j: int|
                0 <= j < i ==> !((#[trigger] tags.deep_view()[j].name) == tag.deep_view().name
                    && tags.deep_view()[j].tag_id != tag.deep_view().tag_id
                    && tags.deep_view()[j].adder != origin),
        decreases tags.len() - i,
    {
        if tags[i].name == tag.tag_name && tags[i].tag_id != tag.tag_id && tags[i].adder != origin
        {
            proof {
                assert(tags.deep_view()[i as int].name == tag.deep_view().name);
            }
            return true;
        }
        i = i + 1;
    }
    false
}

/// One exec step of the replay, mirroring `apply`.
pub fn apply_exec(st: &mut RepState, op: &Operation)
    ensures
        final(st).deep_view() == apply(old(st).deep_view(), op.deep_view()),
{
    if st.deleted {
        proof {
            assert(st.deep_view() =~= apply(old(st).deep_view(), op.deep_view()));
        }
        return ;
    }
    match &op.kind {
        OpKind::CreateFile { path, attrs } => {
            st.created = true;
            st.path = path.clone();
            st.ftype = attrs.file_type;
            st.title = clone_opt_string(&attrs.title);
            st.author = clone_opt_string(&attrs.author);
            st.rendered = clone_opt_string(&attrs.rendered);
            st.mtime = op.timestamp;
            st.title_w = Some(writer_of_exec(op));
            st.author_w = Some(writer_of_exec(op));
            st.path_w = Some(writer_of_exec(op));
            st.tags = attach_tags_exec(&attrs.tags, op.origin);
        },
        OpKind::MoveFile { new_path } => {
            if check_scalar_conflict(&st.path_w, op) {
                st.conflicts.push(ConflictError::SyncExistConflict(FieldName::Path, op.file_id));
            }
            st.path = new_path.clone();
            st.path_w = Some(writer_of_exec(op));
            st.mtime = op.timestamp;
        },
        OpKind::SetTitle { title } => {
            if check_scalar_conflict(&st.title_w, op) {
                st.conflicts.push(ConflictError::SyncExistConflict(FieldName::Title, op.file_id));
            }
            st.title = clone_opt_string(title);
            st.title_w = Some(writer_of_exec(op));
            st.mtime = op.timestamp;
        },
        OpKind::SetAuthor { author } => {
            if check_scalar_conflict(&st.author_w, op) {
                st.conflicts.push(
                    ConflictError::SyncExistConflict(FieldName::Author, op.file_id),
                );
            }
            st.author = clone_opt_string(author);
            st.author_w = Some(writer_of_exec(op));
            st.mtime = op.timestamp;
        },
        OpKind::AddTag { tag } => {
            if check_dup_tag(&st.tags, tag, op.origin) {
                st.conflicts.push(ConflictError::DuplicateTag(tag.tag_name.clone(), op.file_id));
            }
            let mut kept = remove_tag_slots(&st.tags, tag.tag_id);
            kept.push(
                TagSlot {
                    tag_id: tag.tag_id,
                    name: tag.tag_name.clone(),
                    mtime: tag.modify_time,
                    adder: op.origin,
                },
            );
            st.tags = kept;
        },
        OpKind::RemoveTag { tag_id } => {
            st.tags = remove_tag_slots(&st.tags, *tag_id);
        },
        OpKind::DeleteFile => {
            st.deleted = true;
        },
    }
    proof {
        assert(st.deep_view() =~= apply(old(st).deep_view(), op.deep_view()));
    }
}

/// The operations are sorted: merge order never decreases along the
/// sequence.
pub open spec fn sorted_ops(s: Seq<OpV>) -> bool {
    forall|i: int, j: int| 0 <= i < j < s.len() ==> op_le(#[trigger] s[i], #[trigger] s[j])
}

/// One operation put at its place in an already sorted sequence.
pub open spec fn insert_sorted(x: OpV, s: Seq<OpV>) -> Seq<OpV>
    decreases s.len(),
{
    if s.len() == 0 {
        seq![x]
    } else if op_le(x, s[0]) {
        seq![x] + s
    } else {
        seq![s[0]] + insert_sorted(x, s.drop_first())
    }
}

/// The operations brought into merge order by insertion sort. This is the
/// canonical order every machine replays: which machine's log an operation
/// came from, and in which order the logs were supplied, cannot change it.
pub open spec fn sort_ops_spec(s: Seq<OpV>) -> Seq<OpV>
    decreases s.len(),
{
    if s.len() == 0 {
        s
    } else {
        insert_sorted(s[0], sort_ops_spec(s.drop_first()))
    }
}

/// Exec insertion of one operation into a sorted vector.
fn insert_op(x: Operation, sorted: Vec<Operation>) -> (r: Vec<Operation>)
    ensures
        r.deep_view() == insert_sorted(x.deep_view(), sorted.deep_view()),
    decreases sorted.len(),
{
    if sorted.len() == 0 {
        let mut r = sorted;
        r.push(x);
        proof {
            assert(r.deep_view() =~= insert_sorted(x.deep_view(), Seq::<OpV>::empty()));
        }
        r
    } else if x.le(&sorted[0]) {
        let ghost sv = sorted.deep_view();
        let mut r = sorted;
        r.insert(0, x);
        proof {
            assert(r.deep_view() =~= seq![x.deep_view()] + sv);
        }
        r
    } else {
        let ghost sv = sorted.deep_view();
        let mut s = sorted;
        let h = s.remove(0);
        proof {
            assert(s.deep_view() =~= sv.drop_first());
            assert(h.deep_view() == sv[0]);
        }
        let mut r = insert_op(x, s);
        r.insert(0, h);
        proof {
            assert(r.deep_view() =~= seq![sv[0]] + insert_sorted(x.deep_view(), sv.drop_first()));
        }
        r
    }
}

/// Exec insertion sort into merge order.
pub fn sort_all(ops: Vec<Operation>) -> (r: Vec<Operation>)
    ensures
        r.deep_view() == sort_ops_spec(ops.deep_view()),
    decreases ops.len(),
{
    if ops.len() == 0 {
        ops
    } else {
        let ghost ov = ops.deep_view();
        let mut v = ops;
        let h = v.remove(0);
        proof {
            assert(v.deep_view() =~= ov.drop_first());
            assert(h.deep_view() == ov[0]);
        }
        let s = sort_all(v);
        insert_op(h, s)
    }
}

/// One file id put at its place in a sorted sequence of distinct ids; an id
/// already present is not added again.
pub open spec fn insert_id(id: FileId, s: Seq<FileId>) -> Seq<FileId>
    decreases s.len(),
{
    if s.len() == 0 {
        seq![id]
    } else if s[0].bits == id.bits {
        s
    } else if id.bits < s[0].bits {
        seq![id] + s
    } else {
        seq![s[0]] + insert_id(id, s.drop_first())
    }
}

/// The distinct file ids the operations touch, in ascending order: the
/// deterministic order in which per-file histories are replayed.
pub open spec fn ids_of(ops: Seq<OpV>) -> Seq<FileId>
    decreases ops.len(),
{
    if ops.len() == 0 {
        Seq::empty()
    } else {
        insert_id(ops.last().file_id, ids_of(ops.drop_last()))
    }
}

/// Exec insertion of a file id into the sorted distinct ids.
fn insert_id_exec(id: FileId, sorted: Vec<FileId>) -> (r: Vec<FileId>)
    ensures
        r@ == insert_id(id, sorted@),
    decreases sorted.len(),
{
    if sorted.len() == 0 {
        let mut r = sorted;
        r.push(id);
        proof {
            assert(r@ =~= seq![id]);
        }
        r
    } else if sorted[0].bits == id.bits {
        sorted
    } else if id.bits < sorted[0].bits {
        let ghost sv = sorted@;
        let mut r = sorted;
        r.insert(0, id);
        proof {
            assert(r@ =~= seq![id] + sv);
        }
        r
    } else {
        let ghost sv = sorted@;
        let mut s = sorted;
        let h = s.remove(0);
        proof {
            assert(s@ =~= sv.drop_first());
        }
        let mut r = insert_id_exec(id, s);
        r.insert(0, h);
        proof {
            assert(r@ =~= seq![sv[0]] + insert_id(id, sv.drop_first()));
        }
        r
    }
}

/// Exec collection of the distinct file ids, ascending.
pub fn collect_ids(ops: &Vec<Operation>) -> (r: Vec<FileId>)
    ensures
        r@ == ids_of(ops.deep_view()),
{
    let mut r: Vec<FileId> = Vec::new();
    let mut i: usize = 0;
    proof {
        assert(ops.deep_view().take(0) =~= Seq::<OpV>::empty());
    }
    while i < ops.len()
        invariant
            i <= ops.len(),
            r@ == ids_of(ops.deep_view().take(i as int)),
        decreases ops.len() - i,
    {
        proof {
            assert(ops.deep_view().take(i + 1).drop_last() =~= ops.deep_view().take(i as int));
            assert(ops.deep_view().take(i + 1).last() == ops.deep_view()[i as int]);
        }
        r = insert_id_exec(ops[i].file_id, r);
        i = i + 1;
    }
    proof {
        assert(ops.deep_view().take(ops.len() as int) =~= ops.deep_view());
    }
    r
}

/// The operations that touch one file id, in sequence order.
pub open spec fn ops_for(s: Seq<OpV>, id: FileId) -> Seq<OpV>
    decreases s.len(),
{
    if s.len() == 0 {
        s
    } else {
        let rest = ops_for(s.drop_last(), id);
        if s.last().file_id == id {
            rest.push(s.last())
        } else {
            rest
        }
    }
}

/// Exec filter of one file id's operations.
fn ops_for_exec(ops: &Vec<Operation>, id: FileId) -> (r: Vec<Operation>)
    ensures
        r.deep_view() == ops_for(ops.deep_view(), id),
{
    let mut r: Vec<Operation> = Vec::new();
    let mut i: usize = 0;
    proof {
        assert(ops.deep_view().take(0) =~= Seq::<OpV>::empty());
    }
    while i < ops.len()
        invariant
            i <= ops.len(),
            r.deep_view() == ops_for(ops.deep_view().take(i as int), id),
        decreases ops.len() - i,
    {
        proof {
            assert(ops.deep_view().take(i + 1).drop_last() =~= ops.deep_view().take(i as int));
            assert(ops.deep_view().take(i + 1).last() == ops.deep_view()[i as int]);
        }
        if ops[i].file_id.bits == id.bits {
            r.push(ops[i].clone());
            proof {
                assert(r.deep_view() =~= ops_for(ops.deep_view().take(i + 1), id));
            }
        } else {
            proof {
                assert(r.deep_view() =~= ops_for(ops.deep_view().take(i + 1), id));
            }
        }
        i = i + 1;
    }
    proof {
        assert(ops.deep_view().take(ops.len() as int) =~= ops.deep_view());
    }
    r
}

/// The plain tags of the replay state's tag slots.
pub open spec fn slots_tags(s: Seq<TagSlotV>) -> Seq<TagV> {
    s.map_values(|t: TagSlotV| TagV { tag_id: t.tag_id, name: t.name, mtime: t.mtime })
}

/// The merged file record a replay state yields.
pub open spec fn file_of(id: FileId, st: RepV) -> FileV {
    FileV {
        id,
        path: st.path,
        mtime: st.mtime,
        attrs: AttrV {
            file_type: st.ftype,
            title: st.title,
            tags: slots_tags(st.tags),
            author: st.author,
            rendered: st.rendered,
        },
    }
}

/// Exec construction of the merged file record.
fn build_file(id: FileId, st: &RepState) -> (r: File)
    ensures
        r.deep_view() == file_of(id, st.deep_view()),
{
    let mut tags: Vec<Tag> = Vec::new();
    let mut i: usize = 0;
    while i < st.tags.len()
        invariant
            i <= st.tags.len(),
            tags.len() == i,
            forall|j: int|
                0 <= j < i ==> (#[trigger] tags@[j].deep_view()) == slots_tags(
                    st.tags.deep_view(),
                )[j],
        decreases st.tags.len() - i,
    {
        let s = &st.tags[i];
        tags.push(Tag { tag_id: s.tag_id, tag_name: s.name.clone(), modify_time: s.mtime });
        i = i + 1;
    }
    let r = File {
        modify_time: st.mtime,
        uuid: id,
        attrs: FileAttr {
            file_type: st.ftype,
            title: clone_opt_string(&st.title),
            tags,
            author: clone_opt_string(&st.author),
            rendered: clone_opt_string(&st.rendered),
        },
        relative_path: st.path.clone(),
    };
    proof {
        assert(r.attrs.tags.deep_view() =~= slots_tags(st.tags.deep_view()));
        assert(r.deep_view() =~= file_of(id, st.deep_view()));
    }
    r
}

/// A merged file candidate before collision handling, paired with the
/// `(counter, origin)` merge key of the operation that last wrote its
/// path: the collision pass orders candidates by that key, so that the
/// later-ordered file — by the same deterministic tiebreak that orders the
/// replay — is the one that loses its path.
pub struct Cand {
    pub file: File,
    pub key_counter: u64,
    pub key_origin: MachineId,
}

/// Mathematical value of a `Cand`.
#[verifier::ext_equal]
pub struct CandV {
    pub file: FileV,
    pub key_counter: u64,
    pub key_origin: MachineId,
}

impl DeepView for Cand {
    type V = CandV;

    open spec fn deep_view(&self) -> CandV {
        CandV {
            file: self.file.deep_view(),
            key_counter: self.key_counter,
            key_origin: self.key_origin,
        }
    }
}

/// The merge-order key of a replayed file's last path write. A created
/// file always has a path writer; the zero key only covers the never
/// written case, which the merge never outputs.
pub open spec fn path_key_counter(st: RepV) -> u64 {
    match st.path_w {
        Some(w) => w.counter,
        None => 0,
    }
}

/// The origin half of the path-write key.
pub open spec fn path_key_origin(st: RepV) -> MachineId {
    match st.path_w {
        Some(w) => w.origin,
        None => MachineId { bits: 0 },
    }
}

/// The collision-pass candidate of one replayed file.
pub open spec fn cand_of(id: FileId, st: RepV) -> CandV {
    CandV {
        file: file_of(id, st),
        key_counter: path_key_counter(st),
        key_origin: path_key_origin(st),
    }
}

/// The merged file candidates of the replayed ids, tombstoned and never
/// created ids left out, in ascending id order.
pub open spec fn built_cands(ops: Seq<OpV>, ids: Seq<FileId>) -> Seq<CandV>
    decreases ids.len(),
{
    if ids.len() == 0 {
        Seq::empty()
    } else {
        let rest = built_cands(ops, ids.drop_last());
        let st = replay(ops_for(ops, ids.last()));
        if st.created && !st.deleted {
            rest.push(cand_of(ids.last(), st))
        } else {
            rest
        }
    }
}

/// The collision-pass order: by the path-write key's counter, ties broken
/// by the total order on origins — the same tiebreak rule that orders the
/// replay itself.
pub open spec fn cand_le(a: CandV, b: CandV) -> bool {
    a.key_counter < b.key_counter || (a.key_counter == b.key_counter && a.key_origin.bits
        <= b.key_origin.bits)
}

/// One candidate put at its place in an already key-sorted sequence.
pub open spec fn insert_cand(x: CandV, s: Seq<CandV>) -> Seq<CandV>
    decreases s.len(),
{
    if s.len() == 0 {
        seq![x]
    } else if cand_le(x, s[0]) {
        seq![x] + s
    } else {
        seq![s[0]] + insert_cand(x, s.drop_first())
    }
}

/// The candidates brought into path-write key order by insertion sort.
pub open spec fn sort_cands_spec(s: Seq<CandV>) -> Seq<CandV>
    decreases s.len(),
{
    if s.len() == 0 {
        s
    } else {
        insert_cand(s[0], sort_cands_spec(s.drop_first()))
    }
}

impl Cand {
    /// The exec side of the collision-pass order.
    fn le(&self, other: &Cand) -> (r: bool)
        ensures
            r == cand_le(self.deep_view(), other.deep_view()),
    {
        self.key_counter < other.key_counter || (self.key_counter == other.key_counter
            && self.key_origin.bits <= other.key_origin.bits)
    }
}

/// Exec insertion of one candidate into a key-sorted vector.
fn insert_cand_exec(x: Cand, sorted: Vec<Cand>) -> (r: Vec<Cand>)
    ensures
        r.deep_view() == insert_cand(x.deep_view(), sorted.deep_view()),
    decreases sorted.len(),
{
    if sorted.len() == 0 {
        let mut r = sorted;
        r.push(x);
        proof {
            assert(r.deep_view() =~= insert_cand(x.deep_view(), Seq::<CandV>::empty()));
        }
        r
    } else if x.le(&sorted[0]) {
        let ghost sv = sorted.deep_view();
        let mut r = sorted;
        r.insert(0, x);
        proof {
            assert(r.deep_view() =~= seq![x.deep_view()] + sv);
        }
        r
    } else {
        let ghost sv = sorted.deep_view();
        let mut s = sorted;
        let h = s.remove(0);
        proof {
            assert(s.deep_view() =~= sv.drop_first());
            assert(h.deep_view() == sv[0]);
        }
        let mut r = insert_cand_exec(x, s);
        r.insert(0, h);
        proof {
            assert(r.deep_view() =~= seq![sv[0]] + insert_cand(x.deep_view(), sv.drop_first()));
        }
        r
    }
}

/// Exec insertion sort of the candidates into path-write key order.
fn sort_cands(cands: Vec<Cand>) -> (r: Vec<Cand>)
    ensures
        r.deep_view() == sort_cands_spec(cands.deep_view()),
    decreases cands.len(),
{
    if cands.len() == 0 {
        cands
    } else {
        let ghost cv = cands.deep_view();
        let mut v = cands;
        let h = v.remove(0);
        proof {
            assert(v.deep_view() =~= cv.drop_first());
            assert(h.deep_view() == cv[0]);
        }
        let s = sort_cands(v);
        insert_cand_exec(h, s)
    }
}

/// The conflicts the per-id replays record, in ascending id order.
pub open spec fn built_conflicts(ops: Seq<OpV>, ids: Seq<FileId>) -> Seq<ConfV>
    decreases ids.len(),
{
    if ids.len() == 0 {
        Seq::empty()
    } else {
        built_conflicts(ops, ids.drop_last()) + replay(ops_for(ops, ids.last())).conflicts
    }
}

/// Appends clones of the source conflicts to the destination.
fn append_conflicts(dst: &mut Vec<ConflictError>, src: &Vec<ConflictError>)
    ensures
        final(dst).deep_view() == old(dst).deep_view() + src.deep_view(),
{
    let ghost dst0 = dst.deep_view();
    let mut i: usize = 0;
    while i < src.len()
        invariant
            i <= src.len(),
            dst.deep_view() == dst0 + src.deep_view().take(i as int),
        decreases src.len() - i,
    {
        let ghost pre = dst.deep_view();
        let c = src[i].clone();
        proof {
            assert(c.deep_view() == src.deep_view()[i as int]);
        }
        dst.push(c);
        proof {
            assert(dst.deep_view() =~= pre.push(c.deep_view()));
            assert(dst.deep_view() =~= dst0 + src.deep_view().take(i + 1));
        }
        i = i + 1;
    }
    proof {
        assert(src.deep_view().take(src.len() as int) =~= src.deep_view());
        assert(dst.deep_view() =~= old(dst).deep_view() + src.deep_view());
    }
}

/// The decimal digit character of a value below ten.
pub open spec fn digit(n: nat) -> char {
    if n == 0 {
        '0'
    } else if n == 1 {
        '1'
    } else if n == 2 {
        '2'
    } else if n == 3 {
        '3'
    } else if n == 4 {
        '4'
    } else if n == 5 {
        '5'
    } else if n == 6 {
        '6'
    } else if n == 7 {
        '7'
    } else if n == 8 {
        '8'
    } else {
        '9'
    }
}

/// The decimal digits of a natural number, most significant first.
pub open spec fn dec_str(n: nat) -> Seq<char>
    decreases n,
{
    if n < 10 {
        seq![digit(n)]
    } else {
        dec_str(n / 10).push(digit(n % 10))
    }
}

/// The deterministic disambiguation of a colliding path: a tilde and the
/// decimal digits of the losing file id.
pub open spec fn suffixed_path(p: Seq<char>, id: FileId) -> Seq<char> {
    p + seq!['~'] + dec_str(id.bits as nat)
}

/// The decimal digit of a value below ten, as a string slice.
fn digit_str(d: u128) -> (r: &'static str)
    requires
        d < 10,
    ensures
        r@ == seq![digit(d as nat)],
{
    proof {
        reveal_strlit("0");
        reveal_strlit("1");
        reveal_strlit("2");
        reveal_strlit("3");
        reveal_strlit("4");
        reveal_strlit("5");
        reveal_strlit("6");
        reveal_strlit("7");
        reveal_strlit("8");
        reveal_strlit("9");
    }
    if d == 0 {
        "0"
    } else if d == 1 {
        "1"
    } else if d == 2 {
        "2"
    } else if d == 3 {
        "3"
    } else if d == 4 {
        "4"
    } else if d == 5 {
        "5"
    } else if d == 6 {
        "6"
    } else if d == 7 {
        "7"
    } else if d == 8 {
        "8"
    } else {
        "9"
    }
}

/// The decimal digits of a number, as a string.
pub(crate) fn dec_string(n: u128) -> (r: String)
    ensures
        r@ == dec_str(n as nat),
    decreases n,
{
    if n < 10 {
        digit_str(n).to_owned()
    } else {
        let mut s = dec_string(n / 10);
        s.append(digit_str(n % 10));
        proof {
            assert(s@ =~= dec_str(n as nat));
        }
        s
    }
}

/// The suffixed path of a colliding file.
fn suffix_path(p: &String, id: FileId) -> (r: String)
    ensures
        r@ == suffixed_path(p@, id),
{
    proof {
        reveal_strlit("~");
    }
    let mut s = p.clone();
    s.append("~");
    let d = dec_string(id.bits);
    s.append(d.as_str());
    proof {
        assert(s@ =~= suffixed_path(p@, id));
    }
    s
}

/// Some already placed file carries this path.
pub open spec fn path_used(files: Seq<FileV>, p: Seq<char>) -> bool {
    exists|i: int| 0 <= i < files.len() && (#[trigger] files[i].path) == p
}

/// The merged files after collision handling: walking the candidates in
/// ascending path-write key order, a file whose path an earlier-ordered
/// file already holds is the later-ordered one, and is given the
/// deterministic suffixed path — derived from its own, losing, id —
/// instead of overwriting.
pub open spec fn path_pass_files(cands: Seq<CandV>) -> Seq<FileV>
    decreases cands.len(),
{
    if cands.len() == 0 {
        Seq::empty()
    } else {
        let rest = path_pass_files(cands.drop_last());
        let f = cands.last().file;
        if path_used(rest, f.path) {
            rest.push(FileV { path: suffixed_path(f.path, f.id), ..f })
        } else {
            rest.push(f)
        }
    }
}

/// The collision conflicts of the same walk, one per renamed file.
pub open spec fn path_pass_confs(cands: Seq<CandV>) -> Seq<ConfV>
    decreases cands.len(),
{
    if cands.len() == 0 {
        Seq::empty()
    } else {
        let rest = path_pass_confs(cands.drop_last());
        let f = cands.last().file;
        if path_used(path_pass_files(cands.drop_last()), f.path) {
            rest.push(ConfV::PathCollision(f.path))
        } else {
            rest
        }
    }
}

/// Exec check whether a path is already taken among the placed files.
fn path_used_exec(files: &Vec<File>, p: &String) -> (r: bool)
    ensures
        r == path_used(files.deep_view(), p@),
{
    let mut i: usize = 0;
    while i < files.len()
        invariant
            i <= files.len(),
            forall|j: int| 0 <= j < i ==> (#[trigger] files.deep_view()[j].path) != p@,
        decreases files.len() - i,
    {
        if files[i].relative_path == *p {
            proof {
                assert(files.deep_view()[i as int].path == p@);
            }
            return true;
        }
        i = i + 1;
    }
    false
}

/// The result of one reconciliation: the merged file view and the recorded
/// conflicts, both deterministic in the set of operations supplied.
pub open spec fn merged_files(ops: Seq<OpV>) -> Seq<FileV> {
    let sorted = sort_ops_spec(ops);
    path_pass_files(sort_cands_spec(built_cands(sorted, ids_of(sorted))))
}

/// The conflicts of one reconciliation: the per-file replay conflicts in
/// ascending id order, then the path collisions.
pub open spec fn merged_conflicts(ops: Seq<OpV>) -> Seq<ConfV> {
    let sorted = sort_ops_spec(ops);
    built_conflicts(sorted, ids_of(sorted)) + path_pass_confs(
        sort_cands_spec(built_cands(sorted, ids_of(sorted))),
    )
}

/// The whole reconciliation: every known operation replayed per file id in
/// merge order, conflicts recorded, path collisions disambiguated.
pub fn reconcile(all: Vec<Operation>) -> (r: (Vec<File>, Vec<ConflictError>))
    ensures
        r.0.deep_view() == merged_files(all.deep_view()),
        r.1.deep_view() == merged_conflicts(all.deep_view()),
{
    let ghost av = all.deep_view();
    let sorted = sort_all(all);
    let ids = collect_ids(&sorted);
    let ghost sv = sorted.deep_view();

    let mut pre: Vec<Cand> = Vec::new();
    let mut confs: Vec<ConflictError> = Vec::new();
    let mut i: usize = 0;
    proof {
        assert(ids@.take(0) =~= Seq::<FileId>::empty());
        assert(pre.deep_view() =~= built_cands(sv, ids@.take(0)));
        assert(confs.deep_view() =~= built_conflicts(sv, ids@.take(0)));
    }
    while i < ids.len()
        invariant
            i <= ids.len(),
            sorted.deep_view() == sv,
            ids@ == ids_of(sv),
            pre.deep_view() == built_cands(sv, ids@.take(i as int)),
            confs.deep_view() == built_conflicts(sv, ids@.take(i as int)),
        decreases ids.len() - i,
    {
        let id = ids[i];
        let for_id = ops_for_exec(&sorted, id);
        let mut st = RepState::init();
        let mut j: usize = 0;
        proof {
            assert(for_id.deep_view().take(0) =~= Seq::<OpV>::empty());
        }
        while j < for_id.len()
            invariant
                j <= for_id.len(),
                for_id.deep_view() == ops_for(sv, id),
                st.deep_view() == replay(for_id.deep_view().take(j as int)),
            decreases for_id.len() - j,
        {
            proof {
                assert(for_id.deep_view().take(j + 1).drop_last() =~= for_id.deep_view().take(
                    j as int,
                ));
                assert(for_id.deep_view().take(j + 1).last() == for_id.deep_view()[j as int]);
            }
            apply_exec(&mut st, &for_id[j]);
            j = j + 1;
        }
        proof {
            assert(for_id.deep_view().take(for_id.len() as int) =~= for_id.deep_view());
            assert(ids@.take(i + 1).drop_last() =~= ids@.take(i as int));
            assert(ids@.take(i + 1).last() == ids@[i as int]);
        }
        if st.created && !st.deleted {
            let f = build_file(id, &st);
            let c = match &st.path_w {
                Some(w) => Cand { file: f, key_counter: w.counter, key_origin: w.origin },
                None => Cand { file: f, key_counter: 0, key_origin: MachineId { bits: 0 } },
            };
            proof {
                assert(c.deep_view() =~= cand_of(ids@[i as int], st.deep_view()));
            }
            pre.push(c);
            proof {
                assert(pre.deep_view() =~= built_cands(sv, ids@.take(i + 1)));
            }
        } else {
            proof {
                assert(pre.deep_view() =~= built_cands(sv, ids@.take(i + 1)));
            }
        }
        append_conflicts(&mut confs, &st.conflicts);
        proof {
            assert(confs.deep_view() =~= built_conflicts(sv, ids@.take(i + 1)));
        }
        i = i + 1;
    }
    proof {
        assert(ids@.take(ids.len() as int) =~= ids@);
    }

    let ghost bf = built_cands(sv, ids_of(sv));
    let ordered = sort_cands(pre);
    let ghost oc = sort_cands_spec(bf);

    let mut out: Vec<File> = Vec::new();
    let mut k: usize = 0;
    proof {
        assert(oc.take(0) =~= Seq::<CandV>::empty());
        assert(out.deep_view() =~= path_pass_files(oc.take(0)));
        assert(confs.deep_view() =~= built_conflicts(sv, ids_of(sv)) + path_pass_confs(
            oc.take(0),
        ));
    }
    while k < ordered.len()
        invariant
            k <= ordered.len(),
            ordered.deep_view() == oc,
            out.deep_view() == path_pass_files(oc.take(k as int)),
            confs.deep_view() == built_conflicts(sv, ids_of(sv)) + path_pass_confs(
                oc.take(k as int),
            ),
        decreases ordered.len() - k,
    {
        proof {
            assert(oc.take(k + 1).drop_last() =~= oc.take(k as int));
            assert(oc.take(k + 1).last() == oc[k as int]);
        }
        let f = &ordered[k].file;
        proof {
            assert(ordered@[k as int].deep_view() == oc[k as int]);
            assert(f.deep_view() == oc[k as int].file);
        }
        if path_used_exec(&out, &f.relative_path) {
            let ghost confs_pre = confs.deep_view();
            let ghost out_pre = out.deep_view();
            let c = ConflictError::PathCollision(f.relative_path.clone());
            proof {
                assert(c.deep_view() == ConfV::PathCollision(oc[k as int].file.path));
            }
            confs.push(c);
            let new_path = suffix_path(&f.relative_path, f.uuid);
            let moved = File {
                modify_time: f.modify_time,
                uuid: f.uuid,
                attrs: f.attrs.clone(),
                relative_path: new_path,
            };
            proof {
                assert(moved.deep_view() =~= (FileV {
                    path: suffixed_path(oc[k as int].file.path, oc[k as int].file.id),
                    ..oc[k as int].file
                }));
            }
            out.push(moved);
            proof {
                assert(out.deep_view() =~= out_pre.push(moved.deep_view()));
                assert(confs.deep_view() =~= confs_pre.push(c.deep_view()));
                assert(out.deep_view() =~= path_pass_files(oc.take(k + 1)));
                assert(confs.deep_view() =~= built_conflicts(sv, ids_of(sv)) + path_pass_confs(
                    oc.take(k + 1),
                ));
            }
        } else {
            let kept = f.clone();
            out.push(kept);
            proof {
                assert(out.deep_view() =~= path_pass_files(oc.take(k + 1)));
                assert(confs.deep_view() =~= built_conflicts(sv, ids_of(sv)) + path_pass_confs(
                    oc.take(k + 1),
                ));
            }
        }
        k = k + 1;
    }
    proof {
        assert(oc.take(ordered.len() as int) =~= oc);
        assert(out.deep_view() =~= merged_files(av));
        assert(confs.deep_view() =~= merged_conflicts(av));
    }
    (out, confs)
}

/// Inserting into a sorted sequence adds exactly the inserted operation.
proof fn lemma_insert_sorted_multiset(x: OpV, s: Seq<OpV>)
    ensures
        insert_sorted(x, s).to_multiset() == s.to_multiset().insert(x),
    decreases s.len(),
{
    broadcast use vstd::seq_lib::group_to_multiset_ensures;
    broadcast use vstd::multiset::group_multiset_axioms;

    if s.len() == 0 {
        assert(seq![x] =~= Seq::<OpV>::empty().push(x));
        assert(Seq::<OpV>::empty().to_multiset() =~= Multiset::<OpV>::empty());
        assert(insert_sorted(x, s).to_multiset() =~= s.to_multiset().insert(x));
    } else if op_le(x, s[0]) {
        assert(seq![x] + s =~= s.insert(0, x));
        vstd::seq_lib::to_multiset_insert(s, 0, x);
    } else {
        let rest = s.drop_first();
        lemma_insert_sorted_multiset(x, rest);
        assert(seq![s[0]] + insert_sorted(x, rest) =~= insert_sorted(x, rest).insert(0, s[0]));
        vstd::seq_lib::to_multiset_insert(insert_sorted(x, rest), 0, s[0]);
        assert(s =~= rest.insert(0, s[0]));
        vstd::seq_lib::to_multiset_insert(rest, 0, s[0]);
        assert(insert_sorted(x, s).to_multiset() =~= rest.to_multiset().insert(x).insert(s[0]));
        assert(rest.to_multiset().insert(x).insert(s[0]) =~= rest.to_multiset().insert(
            s[0],
        ).insert(x));
    }
}

/// Sorting keeps exactly the operations that were there.
pub proof fn lemma_sort_multiset(s: Seq<OpV>)
    ensures
        sort_ops_spec(s).to_multiset() == s.to_multiset(),
    decreases s.len(),
{
    broadcast use vstd::seq_lib::group_to_multiset_ensures;
    broadcast use vstd::multiset::group_multiset_axioms;

    if s.len() > 0 {
        let rest = s.drop_first();
        lemma_sort_multiset(rest);
        lemma_insert_sorted_multiset(s[0], sort_ops_spec(rest));
        assert(s =~= rest.insert(0, s[0]));
        vstd::seq_lib::to_multiset_insert(rest, 0, s[0]);
    }
}

/// Every element of an insertion result is the inserted operation or one
/// of the sequence's own.
proof fn lemma_insert_sorted_elems(x: OpV, s: Seq<OpV>)
    ensures
        insert_sorted(x, s).len() == s.len() + 1,
        forall|i: int|
            0 <= i < insert_sorted(x, s).len() ==> (#[trigger] insert_sorted(x, s)[i]) == x
                || s.contains(insert_sorted(x, s)[i]),
    decreases s.len(),
{
    if s.len() == 0 {
    } else if op_le(x, s[0]) {
    } else {
        let rest = s.drop_first();
        lemma_insert_sorted_elems(x, rest);
        assert forall|i: int|
            0 <= i < insert_sorted(x, s).len() implies (#[trigger] insert_sorted(x, s)[i]) == x
            || s.contains(insert_sorted(x, s)[i]) by {
            if i == 0 {
                assert(s.contains(s[0]));
            } else {
                let e = insert_sorted(x, rest)[i - 1];
                assert(insert_sorted(x, s)[i] == e);
                if e != x {
                    let j = choose|j: int| 0 <= j < rest.len() && rest[j] == e;
                    assert(s[j + 1] == e);
                    assert(s.contains(e));
                }
            }
        }
    }
}

/// Inserting into a sorted sequence leaves it sorted.
proof fn lemma_insert_sorted_sorted(x: OpV, s: Seq<OpV>)
    requires
        sorted_ops(s),
    ensures
        sorted_ops(insert_sorted(x, s)),
    decreases s.len(),
{
    if s.len() == 0 {
    } else if op_le(x, s[0]) {
        assert forall|i: int, j: int|
            0 <= i < j < insert_sorted(x, s).len() implies op_le(
            #[trigger] insert_sorted(x, s)[i],
            #[trigger] insert_sorted(x, s)[j],
        ) by {
            if i == 0 {
                assert(insert_sorted(x, s)[j] == s[j - 1]);
            }
        }
    } else {
        let rest = s.drop_first();
        assert forall|i: int, j: int| 0 <= i < j < rest.len() implies op_le(
            #[trigger] rest[i],
            #[trigger] rest[j],
        ) by {
            assert(op_le(s[i + 1], s[j + 1]));
        }
        lemma_insert_sorted_sorted(x, rest);
        lemma_insert_sorted_elems(x, rest);
        assert forall|i: int, j: int|
            0 <= i < j < insert_sorted(x, s).len() implies op_le(
            #[trigger] insert_sorted(x, s)[i],
            #[trigger] insert_sorted(x, s)[j],
        ) by {
            if i == 0 {
                let e = insert_sorted(x, rest)[j - 1];
                assert(insert_sorted(x, s)[j] == e);
                if e == x {
                    assert(op_le(s[0], x));
                } else {
                    let k = choose|k: int| 0 <= k < rest.len() && rest[k] == e;
                    assert(op_le(s[0], s[k + 1]));
                }
            } else {
                assert(insert_sorted(x, s)[i] == insert_sorted(x, rest)[i - 1]);
                assert(insert_sorted(x, s)[j] == insert_sorted(x, rest)[j - 1]);
            }
        }
    }
}

/// The sort's result is sorted.
pub proof fn lemma_sort_sorted(s: Seq<OpV>)
    ensures
        sorted_ops(sort_ops_spec(s)),
    decreases s.len(),
{
    if s.len() > 0 {
        lemma_sort_sorted(s.drop_first());
        lemma_insert_sorted_sorted(s[0], sort_ops_spec(s.drop_first()));
    }
}

/// A value at two positions of a sequence counts at least twice in its
/// multiset.
proof fn lemma_two_indices_count(s: Seq<OpV>, i: int, j: int)
    requires
        0 <= i < j < s.len(),
        s[i] == s[j],
    ensures
        s.to_multiset().count(s[i]) >= 2,
{
    broadcast use vstd::seq_lib::group_to_multiset_ensures;
    broadcast use vstd::multiset::group_multiset_axioms;

    vstd::seq_lib::to_multiset_remove(s, i);
    assert(s.remove(i)[j - 1] == s[j]);
    assert(s.remove(i).contains(s[i]));
    assert(s.remove(i).to_multiset().count(s[i]) > 0);
}

/// A value counted at least twice sits at two positions.
proof fn lemma_count_two_indices(s: Seq<OpV>, x: OpV)
    requires
        s.to_multiset().count(x) >= 2,
    ensures
        exists|i: int, j: int| 0 <= i < j < s.len() && (#[trigger] s[i]) == x && (#[trigger] s[j])
            == x,
{
    broadcast use vstd::seq_lib::group_to_multiset_ensures;
    broadcast use vstd::multiset::group_multiset_axioms;

    assert(s.contains(x));
    let i = choose|i: int| 0 <= i < s.len() && s[i] == x;
    vstd::seq_lib::to_multiset_remove(s, i);
    assert(s.remove(i).to_multiset().count(x) >= 1);
    assert(s.remove(i).contains(x));
    let k = choose|k: int| 0 <= k < s.remove(i).len() && s.remove(i)[k] == x;
    if k < i {
        assert(s[k] == x && s[i] == x);
    } else {
        assert(s[k + 1] == x && s[i] == x);
    }
}

/// Key distinctness carries over to any sequence with the same operations.
proof fn lemma_distinct_keys_transfer(s1: Seq<OpV>, s2: Seq<OpV>)
    requires
        crate::op::distinct_keys(s1),
        s1.to_multiset() == s2.to_multiset(),
    ensures
        crate::op::distinct_keys(s2),
{
    broadcast use vstd::seq_lib::group_to_multiset_ensures;
    broadcast use vstd::multiset::group_multiset_axioms;

    assert forall|i: int, j: int|
        0 <= i < j < s2.len() implies !((#[trigger] s2[i].counter) == (#[trigger] s2[j].counter)
        && s2[i].origin == s2[j].origin) by {
        if s2[i].counter == s2[j].counter && s2[i].origin == s2[j].origin {
            if s2[i] == s2[j] {
                lemma_two_indices_count(s2, i, j);
                lemma_count_two_indices(s1, s2[i]);
            } else {
                assert(s2.contains(s2[i]) && s2.contains(s2[j]));
                assert(s1.to_multiset().count(s2[i]) > 0);
                assert(s1.to_multiset().count(s2[j]) > 0);
                assert(s1.contains(s2[i]) && s1.contains(s2[j]));
                let a = choose|a: int| 0 <= a < s1.len() && s1[a] == s2[i];
                let b = choose|b: int| 0 <= b < s1.len() && s1[b] == s2[j];
                assert(a != b);
            }
        }
    }
}

/// Two sorted, key-distinct sequences of the same operations are equal.
proof fn lemma_sorted_unique(s1: Seq<OpV>, s2: Seq<OpV>)
    requires
        sorted_ops(s1),
        sorted_ops(s2),
        crate::op::distinct_keys(s1),
        crate::op::distinct_keys(s2),
        s1.to_multiset() == s2.to_multiset(),
    ensures
        s1 == s2,
    decreases s1.len(),
{
    broadcast use vstd::seq_lib::group_to_multiset_ensures;
    broadcast use vstd::multiset::group_multiset_axioms;

    vstd::seq_lib::to_multiset_len(s1);
    vstd::seq_lib::to_multiset_len(s2);
    if s1.len() == 0 {
        assert(s1 =~= s2);
    } else {
        assert(s1.contains(s1[0]));
        assert(s2.to_multiset().count(s1[0]) > 0);
        assert(s2.contains(s1[0]));
        let j = choose|j: int| 0 <= j < s2.len() && s2[j] == s1[0];
        assert(s1.to_multiset().count(s2[0]) > 0);
        assert(s1.contains(s2[0]));
        let k = choose|k: int| 0 <= k < s1.len() && s1[k] == s2[0];
        if j > 0 {
            assert(op_le(s2[0], s2[j]));
            assert(op_le(s1[0], s1[k]));
            assert(s2[0].counter == s2[j].counter && s2[0].origin == s2[j].origin);
            assert(false);
        }
        assert(s2[0] == s1[0]);
        let t1 = s1.drop_first();
        let t2 = s2.drop_first();
        assert(s1 =~= t1.insert(0, s1[0]));
        assert(s2 =~= t2.insert(0, s2[0]));
        vstd::seq_lib::to_multiset_insert(t1, 0, s1[0]);
        vstd::seq_lib::to_multiset_insert(t2, 0, s2[0]);
        assert(s1.to_multiset() == t1.to_multiset().insert(s1[0]));
        assert(s2.to_multiset() == t2.to_multiset().insert(s1[0]));
        assert forall|y: OpV| #[trigger] t1.to_multiset().count(y) == t2.to_multiset().count(
            y,
        ) by {
            assert(t1.to_multiset().insert(s1[0]).count(y) == t2.to_multiset().insert(
                s1[0],
            ).count(y));
            if y == s1[0] {
                assert(t1.to_multiset().insert(s1[0]).count(y) == t1.to_multiset().count(y) + 1);
                assert(t2.to_multiset().insert(s1[0]).count(y) == t2.to_multiset().count(y) + 1);
            } else {
                assert(t1.to_multiset().insert(s1[0]).count(y) == t1.to_multiset().count(y));
                assert(t2.to_multiset().insert(s1[0]).count(y) == t2.to_multiset().count(y));
            }
        }
        assert(t1.to_multiset() =~= t2.to_multiset());
        assert forall|i: int, j2: int| 0 <= i < j2 < t1.len() implies op_le(
            #[trigger] t1[i],
            #[trigger] t1[j2],
        ) by {
            assert(op_le(s1[i + 1], s1[j2 + 1]));
        }
        assert forall|i: int, j2: int| 0 <= i < j2 < t2.len() implies op_le(
            #[trigger] t2[i],
            #[trigger] t2[j2],
        ) by {
            assert(op_le(s2[i + 1], s2[j2 + 1]));
        }
        assert forall|i: int, j2: int|
            0 <= i < j2 < t1.len() implies !((#[trigger] t1[i].counter) == (
        #[trigger] t1[j2].counter) && t1[i].origin == t1[j2].origin) by {
            assert(t1[i] == s1[i + 1] && t1[j2] == s1[j2 + 1]);
        }
        assert forall|i: int, j2: int|
            0 <= i < j2 < t2.len() implies !((#[trigger] t2[i].counter) == (
        #[trigger] t2[j2].counter) && t2[i].origin == t2[j2].origin) by {
            assert(t2[i] == s2[i + 1] && t2[j2] == s2[j2 + 1]);
        }
        lemma_sorted_unique(t1, t2);
        assert(s1 =~= s2);
    }
}

/// Determinism of the merge: however the known operations were ordered
/// when they were supplied — whichever machine's log they came from, in
/// whatever order the logs were read — the merged file view and the
/// conflict report are identical. Operations of well-formed logs never
/// share a `(counter, origin)` key, which is all this needs.
pub proof fn lemma_merge_deterministic(ops1: Seq<OpV>, ops2: Seq<OpV>)
    requires
        crate::op::distinct_keys(ops1),
        ops1.to_multiset() == ops2.to_multiset(),
    ensures
        merged_files(ops1) == merged_files(ops2),
        merged_conflicts(ops1) == merged_conflicts(ops2),
{
    lemma_sort_multiset(ops1);
    lemma_sort_multiset(ops2);
    lemma_sort_sorted(ops1);
    lemma_sort_sorted(ops2);
    lemma_distinct_keys_transfer(ops1, sort_ops_spec(ops1));
    lemma_distinct_keys_transfer(ops1, sort_ops_spec(ops2));
    lemma_sorted_unique(sort_ops_spec(ops1), sort_ops_spec(ops2));
}

/// A tombstoned replay state never comes back: replaying further
/// operations keeps it deleted.
proof fn lemma_replay_keeps_deleted(ops: Seq<OpV>, i: int)
    requires
        0 <= i < ops.len(),
        ops[i].kind is DeleteFile,
    ensures
        replay(ops).deleted,
    decreases ops.len(),
{
    if i == ops.len() - 1 {
    } else {
        assert(ops.drop_last()[i] == ops[i]);
        lemma_replay_keeps_deleted(ops.drop_last(), i);
    }
}

/// The filtered history of a file id keeps each of the id's operations.
proof fn lemma_ops_for_contains(s: Seq<OpV>, id: FileId, i: int)
    requires
        0 <= i < s.len(),
        s[i].file_id == id,
    ensures
        ops_for(s, id).contains(s[i]),
    decreases s.len(),
{
    if i == s.len() - 1 {
        assert(ops_for(s, id).last() == s[i]);
    } else {
        assert(s.drop_last()[i] == s[i]);
        lemma_ops_for_contains(s.drop_last(), id, i);
        let rest = ops_for(s.drop_last(), id);
        let k = choose|k: int| 0 <= k < rest.len() && rest[k] == s[i];
        if s.last().file_id == id {
            assert(ops_for(s, id)[k] == s[i]);
        }
    }
}

/// No merged candidate carries an id whose history was replayed to a
/// tombstone.
proof fn lemma_built_cands_excludes(ops: Seq<OpV>, ids: Seq<FileId>, id: FileId)
    requires
        replay(ops_for(ops, id)).deleted,
    ensures
        forall|j: int| 0 <= j < built_cands(ops, ids).len() ==> (#[trigger] built_cands(
            ops,
            ids,
        )[j]).file.id != id,
    decreases ids.len(),
{
    if ids.len() > 0 {
        lemma_built_cands_excludes(ops, ids.drop_last(), id);
    }
}

/// Every element of a candidate insertion is the inserted candidate or one
/// of the sequence's own.
proof fn lemma_insert_cand_elems(x: CandV, s: Seq<CandV>)
    ensures
        insert_cand(x, s).len() == s.len() + 1,
        forall|i: int|
            0 <= i < insert_cand(x, s).len() ==> (#[trigger] insert_cand(x, s)[i]) == x
                || s.contains(insert_cand(x, s)[i]),
    decreases s.len(),
{
    if s.len() == 0 {
    } else if cand_le(x, s[0]) {
    } else {
        let rest = s.drop_first();
        lemma_insert_cand_elems(x, rest);
        assert forall|i: int|
            0 <= i < insert_cand(x, s).len() implies (#[trigger] insert_cand(x, s)[i]) == x
            || s.contains(insert_cand(x, s)[i]) by {
            if i == 0 {
                assert(s.contains(s[0]));
            } else {
                let e = insert_cand(x, rest)[i - 1];
                assert(insert_cand(x, s)[i] == e);
                if e != x {
                    let j = choose|j: int| 0 <= j < rest.len() && rest[j] == e;
                    assert(s[j + 1] == e);
                    assert(s.contains(e));
                }
            }
        }
    }
}

/// Every element of the sorted candidates is one of the input's own.
proof fn lemma_sort_cands_elems(s: Seq<CandV>)
    ensures
        forall|i: int|
            0 <= i < sort_cands_spec(s).len() ==> s.contains(#[trigger] sort_cands_spec(s)[i]),
    decreases s.len(),
{
    if s.len() > 0 {
        let rest = s.drop_first();
        lemma_sort_cands_elems(rest);
        lemma_insert_cand_elems(s[0], sort_cands_spec(rest));
        assert forall|i: int| 0 <= i < sort_cands_spec(s).len() implies s.contains(
            #[trigger] sort_cands_spec(s)[i],
        ) by {
            let e = sort_cands_spec(s)[i];
            if e == s[0] {
                assert(s.contains(s[0]));
            } else if sort_cands_spec(rest).contains(e) {
                let j = choose|j: int|
                    0 <= j < sort_cands_spec(rest).len() && sort_cands_spec(rest)[j] == e;
                let m = choose|m: int| 0 <= m < rest.len() && rest[m] == e;
                assert(s[m + 1] == e);
            }
        }
    }
}

/// Collision handling moves files to fresh paths but never changes which
/// files there are: same length, same ids, in order.
proof fn lemma_path_pass_ids(cands: Seq<CandV>)
    ensures
        path_pass_files(cands).len() == cands.len(),
        forall|j: int| 0 <= j < cands.len() ==> (#[trigger] path_pass_files(cands)[j]).id
            == cands[j].file.id,
    decreases cands.len(),
{
    if cands.len() > 0 {
        lemma_path_pass_ids(cands.drop_last());
        assert forall|j: int| 0 <= j < cands.len() implies (#[trigger] path_pass_files(
            cands,
        )[j]).id == cands[j].file.id by {
            if j < cands.len() - 1 {
                assert(path_pass_files(cands)[j] == path_pass_files(cands.drop_last())[j]);
                assert(cands.drop_last()[j] == cands[j]);
            }
        }
    }
}

/// Tombstones dominate: once any machine's log holds a `DeleteFile` for an
/// id, no merge — whatever operations stand beside it — yields a file with
/// that id again. The file cannot be resurrected by replaying older
/// creations or edits around the tombstone.
pub proof fn lemma_tombstone_dominates(ops: Seq<OpV>, i: int)
    requires
        0 <= i < ops.len(),
        ops[i].kind is DeleteFile,
    ensures
        forall|j: int| 0 <= j < merged_files(ops).len() ==> (#[trigger] merged_files(ops)[j]).id
            != ops[i].file_id,
{
    broadcast use vstd::seq_lib::group_to_multiset_ensures;
    broadcast use vstd::multiset::group_multiset_axioms;

    let id = ops[i].file_id;
    let sorted = sort_ops_spec(ops);
    lemma_sort_multiset(ops);
    assert(ops.contains(ops[i]));
    assert(sorted.to_multiset().count(ops[i]) > 0);
    assert(sorted.contains(ops[i]));
    let k = choose|k: int| 0 <= k < sorted.len() && sorted[k] == ops[i];
    lemma_ops_for_contains(sorted, id, k);
    let hist = ops_for(sorted, id);
    let m = choose|m: int| 0 <= m < hist.len() && hist[m] == ops[i];
    lemma_replay_keeps_deleted(hist, m);
    lemma_built_cands_excludes(sorted, ids_of(sorted), id);
    let cands = built_cands(sorted, ids_of(sorted));
    lemma_sort_cands_elems(cands);
    assert forall|j: int|
        0 <= j < sort_cands_spec(cands).len() implies (#[trigger] sort_cands_spec(
        cands,
    )[j]).file.id != id by {
        let a = choose|a: int| 0 <= a < cands.len() && cands[a] == sort_cands_spec(cands)[j];
    }
    lemma_path_pass_ids(sort_cands_spec(cands));
}

/// The tag slots as a map keyed by tag id; a later slot of an id shadows
/// an earlier one.
pub open spec fn slots_map(s: Seq<TagSlotV>) -> Map<TagId, TagSlotV>
    decreases s.len(),
{
    if s.len() == 0 {
        Map::empty()
    } else {
        slots_map(s.drop_last()).insert(s.last().tag_id, s.last())
    }
}

/// Taking a tag id's slots out of the sequence is taking it out of the map.
proof fn lemma_remove_tag_map(s: Seq<TagSlotV>, id: TagId)
    ensures
        slots_map(remove_tag_seq(s, id)) == slots_map(s).remove(id),
    decreases s.len(),
{
    if s.len() == 0 {
        assert(slots_map(remove_tag_seq(s, id)) =~~= slots_map(s).remove(id));
    } else {
        lemma_remove_tag_map(s.drop_last(), id);
        let rest = remove_tag_seq(s.drop_last(), id);
        if s.last().tag_id == id {
            assert(slots_map(s).remove(id) =~~= slots_map(s.drop_last()).remove(id));
        } else {
            let r = rest.push(s.last());
            assert(r.drop_last() =~= rest);
            assert(slots_map(r) == slots_map(rest).insert(s.last().tag_id, s.last()));
            assert(slots_map(s).remove(id) =~~= slots_map(s.drop_last()).remove(id).insert(
                s.last().tag_id,
                s.last(),
            ));
        }
    }
}

/// Tag additions of distinct tag ids commute: on any replay state, adding
/// tag `ta` (by operation `a`) then tag `tb` (by operation `b`) leaves the
/// same tag set as adding them the other way round. This is why the merge
/// replays tag edits by simple union without recording an order conflict.
pub proof fn lemma_add_tag_commutes(st: RepV, a: OpV, b: OpV, ta: TagV, tb: TagV)
    requires
        a.kind == (OpKindV::AddTag { tag: ta }),
        b.kind == (OpKindV::AddTag { tag: tb }),
        ta.tag_id != tb.tag_id,
    ensures
        slots_map(apply(apply(st, a), b).tags) == slots_map(apply(apply(st, b), a).tags),
{
    if st.deleted {
    } else {
        let sa = TagSlotV { tag_id: ta.tag_id, name: ta.name, mtime: ta.mtime, adder: a.origin };
        let sb = TagSlotV { tag_id: tb.tag_id, name: tb.name, mtime: tb.mtime, adder: b.origin };
        let m = slots_map(st.tags);
        let ra = remove_tag_seq(st.tags, ta.tag_id);
        let tags_a = ra.push(sa);
        lemma_remove_tag_map(st.tags, ta.tag_id);
        assert(tags_a.drop_last() =~= ra);
        assert(slots_map(tags_a) == m.remove(ta.tag_id).insert(ta.tag_id, sa));
        let rab = remove_tag_seq(tags_a, tb.tag_id);
        let tags_ab = rab.push(sb);
        lemma_remove_tag_map(tags_a, tb.tag_id);
        assert(tags_ab.drop_last() =~= rab);
        assert(slots_map(tags_ab) == slots_map(tags_a).remove(tb.tag_id).insert(tb.tag_id, sb));
        let rb = remove_tag_seq(st.tags, tb.tag_id);
        let tags_b = rb.push(sb);
        lemma_remove_tag_map(st.tags, tb.tag_id);
        assert(tags_b.drop_last() =~= rb);
        assert(slots_map(tags_b) == m.remove(tb.tag_id).insert(tb.tag_id, sb));
        let rba = remove_tag_seq(tags_b, ta.tag_id);
        let tags_ba = rba.push(sa);
        lemma_remove_tag_map(tags_b, ta.tag_id);
        assert(tags_ba.drop_last() =~= rba);
        assert(slots_map(tags_ba) == slots_map(tags_b).remove(ta.tag_id).insert(ta.tag_id, sa));
        assert(apply(apply(st, a), b).tags == tags_ab);
        assert(apply(apply(st, b), a).tags == tags_ba);
        assert(slots_map(tags_ab) =~~= slots_map(tags_ba));
    }
}

} // verus!
