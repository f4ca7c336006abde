use offliner::clock::{ClockEntry, VectorClock};
use offliner::env::{Env, EnvStatus, Machine};
use offliner::file::{FileAttr, FileType};
use offliner::ids::{FileId, MachineId, TagId};
use offliner::merge::ConflictError;
use offliner::op::{FieldName, OpKind, Operation};
use offliner::file::Tag;

fn mid(b: u64) -> MachineId {
    MachineId { bits: b }
}

fn fid(b: u128) -> FileId {
    FileId { bits: b }
}

fn tid(b: u128) -> TagId {
    TagId { bits: b }
}

fn clock_of(entries: &[(u64, u64)]) -> VectorClock {
    let mut v = Vec::new();
    for (m, c) in entries {
        v.push(ClockEntry { machine: mid(*m), count: *c });
    }
    VectorClock { entries: v }
}

fn op(origin: u64, counter: u64, file: u128, clk: &[(u64, u64)], kind: OpKind) -> Operation {
    Operation {
        origin: mid(origin),
        counter,
        timestamp: counter * 10,
        file_id: fid(file),
        clock: clock_of(clk),
        kind: kind,
    }
}

fn machine(mac: u64, logs: Vec<Operation>) -> Machine {
    Machine {
        rendered: None,
        mac: mid(mac),
        db: String::new(),
        logs,
    }
}

fn env_of(local: Machine, peers: Vec<Machine>) -> Env {
    Env {
        local_machine: local,
        sync_machines: peers,
        files: Vec::new(),
        root: String::from("."),
        status: EnvStatus::Ready,
    }
}

fn tag(id: u128, name: &str, mtime: u64) -> Tag {
    Tag {
        tag_id: tid(id),
        tag_name: String::from(name),
        modify_time: mtime,
    }
}

fn create(path: &str, attrs: FileAttr) -> OpKind {
    OpKind::CreateFile {
        path: String::from(path),
        attrs,
    }
}

#[test]
fn path_collision_is_reported_and_renamed() {
    // Two machines independently create distinct files at the same path.
    let m1 = machine(1, vec![op(1, 1, 10, &[], create("a.pdf", FileAttr::new_pdf()))]);
    let m2 = machine(2, vec![op(2, 1, 20, &[], create("a.pdf", FileAttr::new_pdf()))]);
    let mut e = env_of(m1, vec![m2]);
    e.do_sync();
    assert_eq!(e.files.len(), 2);
    assert_eq!(e.files[0].uuid, fid(10));
    assert_eq!(e.files[0].relative_path, "a.pdf");
    assert_eq!(e.files[1].uuid, fid(20));
    assert_eq!(e.files[1].relative_path, "a.pdf~20");
    match &e.status {
        EnvStatus::RunWithErr(errs) => {
            assert_eq!(errs.len(), 1);
            assert_eq!(errs[0], ConflictError::PathCollision(String::from("a.pdf")));
        }
        other => panic!("expected RunWithErr, got {:?}", other),
    }
}

#[test]
fn collision_loser_is_the_later_ordered_operation() {
    // F1 (id bits 20) is created first in merge order, F2 (id bits 10)
    // later: the later-ordered F2 loses the path and is suffixed with its
    // own id, whatever the order of the ids themselves.
    let m1 = machine(1, vec![op(1, 1, 20, &[], create("a.pdf", FileAttr::new_pdf()))]);
    let m2 = machine(2, vec![op(2, 1, 10, &[], create("a.pdf", FileAttr::new_pdf()))]);
    let mut e = env_of(m1, vec![m2]);
    e.do_sync();
    assert_eq!(e.files.len(), 2);
    assert_eq!(e.files[0].uuid, fid(20));
    assert_eq!(e.files[0].relative_path, "a.pdf");
    assert_eq!(e.files[1].uuid, fid(10));
    assert_eq!(e.files[1].relative_path, "a.pdf~10");
    match &e.status {
        EnvStatus::RunWithErr(errs) => {
            assert_eq!(errs.len(), 1);
            assert_eq!(errs[0], ConflictError::PathCollision(String::from("a.pdf")));
        }
        other => panic!("expected RunWithErr, got {:?}", other),
    }
}

#[test]
fn suffix_uses_decimal_digits_of_losing_id() {
    let m1 = machine(1, vec![op(1, 1, 7, &[], create("a.pdf", FileAttr::new_pdf()))]);
    let m2 = machine(2, vec![op(2, 1, 12345, &[], create("a.pdf", FileAttr::new_pdf()))]);
    let mut e = env_of(m1, vec![m2]);
    e.do_sync();
    assert_eq!(e.files.len(), 2);
    assert_eq!(e.files[1].relative_path, "a.pdf~12345");
}

#[test]
fn concurrent_titles_conflict_and_converge() {
    // M1 creates and sets title "A"; M2, having seen only the creation,
    // sets title "B". Both mergers converge to the same resolved title and
    // both report the conflict.
    let create_op = op(1, 1, 10, &[], create("f1.html", FileAttr::new_html()));
    let title_a = op(
        1,
        2,
        10,
        &[(1, 1)],
        OpKind::SetTitle {
            title: Some(String::from("A")),
        },
    );
    let title_b = op(
        2,
        1,
        10,
        &[(1, 1)],
        OpKind::SetTitle {
            title: Some(String::from("B")),
        },
    );
    let m1 = machine(1, vec![create_op.clone(), title_a.clone()]);
    let m2 = machine(2, vec![title_b.clone()]);
    let mut e1 = env_of(m1, vec![m2]);
    e1.do_sync();

    let m1b = machine(1, vec![create_op, title_a]);
    let m2b = machine(2, vec![title_b]);
    let mut e2 = env_of(m2b, vec![m1b]);
    e2.do_sync();

    assert_eq!(e1.files.len(), 1);
    assert_eq!(e1.files[0].attrs.title, Some(String::from("A")));
    assert_eq!(e1.files, e2.files);
    let expected = ConflictError::SyncExistConflict(FieldName::Title, fid(10));
    match (&e1.status, &e2.status) {
        (EnvStatus::RunWithErr(a), EnvStatus::RunWithErr(b)) => {
            assert_eq!(a, b);
            assert_eq!(a.len(), 1);
            assert_eq!(a[0], expected);
        }
        other => panic!("expected RunWithErr on both, got {:?}", other),
    }
}

#[test]
fn independent_equal_names_yield_both_tags_and_a_report() {
    // M1 tags F1 "work" under T1; M2, unaware, tags it "work" under T2.
    let create_op = op(1, 1, 10, &[], create("f1.html", FileAttr::new_html()));
    let add_t1 = op(
        1,
        2,
        10,
        &[(1, 1)],
        OpKind::AddTag {
            tag: tag(100, "work", 5),
        },
    );
    let add_t2 = op(
        2,
        1,
        10,
        &[(1, 1)],
        OpKind::AddTag {
            tag: tag(200, "work", 6),
        },
    );
    let m1 = machine(1, vec![create_op, add_t1]);
    let m2 = machine(2, vec![add_t2]);
    let mut e = env_of(m1, vec![m2]);
    e.do_sync();
    assert_eq!(e.files.len(), 1);
    let tags = &e.files[0].attrs.tags;
    assert_eq!(tags.len(), 2);
    assert!(tags.iter().any(|t| t.tag_id == tid(100) && t.tag_name == "work"));
    assert!(tags.iter().any(|t| t.tag_id == tid(200) && t.tag_name == "work"));
    match &e.status {
        EnvStatus::RunWithErr(errs) => {
            assert_eq!(errs.len(), 1);
            assert_eq!(
                errs[0],
                ConflictError::DuplicateTag(String::from("work"), fid(10))
            );
        }
        other => panic!("expected RunWithErr, got {:?}", other),
    }
}

#[test]
fn tombstone_suppresses_resurrection_in_any_order() {
    // M1 creates then deletes F; M2 edits it concurrently. Whichever way
    // the logs are combined, the file stays gone.
    let create_op = op(1, 1, 10, &[], create("f.pdf", FileAttr::new_pdf()));
    let delete_op = op(1, 2, 10, &[(1, 1)], OpKind::DeleteFile);
    let edit_op = op(
        2,
        1,
        10,
        &[(1, 1)],
        OpKind::SetTitle {
            title: Some(String::from("X")),
        },
    );
    let m1 = machine(1, vec![create_op.clone(), delete_op.clone()]);
    let m2 = machine(2, vec![edit_op.clone()]);
    let mut e1 = env_of(m1, vec![m2]);
    e1.do_sync();
    assert_eq!(e1.files.len(), 0);

    let m1b = machine(1, vec![create_op, delete_op]);
    let m2b = machine(2, vec![edit_op]);
    let mut e2 = env_of(m2b, vec![m1b]);
    e2.do_sync();
    assert_eq!(e2.files.len(), 0);
    assert_eq!(e1.files, e2.files);
}

#[test]
fn tag_edits_on_distinct_ids_commute() {
    let create_op = op(1, 1, 10, &[], create("f1.html", FileAttr::new_html()));
    let add_a = op(
        1,
        2,
        10,
        &[(1, 1)],
        OpKind::AddTag {
            tag: tag(100, "alpha", 5),
        },
    );
    let add_b = op(
        2,
        1,
        10,
        &[(1, 1)],
        OpKind::AddTag {
            tag: tag(200, "beta", 6),
        },
    );
    let m1 = machine(1, vec![create_op.clone(), add_a.clone()]);
    let m2 = machine(2, vec![add_b.clone()]);
    let mut e1 = env_of(m1, vec![m2]);
    e1.do_sync();

    let m1b = machine(1, vec![create_op, add_a]);
    let m2b = machine(2, vec![add_b]);
    let mut e2 = env_of(m2b, vec![m1b]);
    e2.do_sync();

    assert_eq!(e1.files, e2.files);
    assert_eq!(e1.files[0].attrs.tags.len(), 2);
    assert_eq!(e1.status, EnvStatus::Ready);
    assert_eq!(e2.status, EnvStatus::Ready);
}

#[test]
fn merge_is_deterministic_in_log_order() {
    // The same three histories supplied in different peer orders.
    let c1 = op(1, 1, 10, &[], create("a.html", FileAttr::new_html()));
    let c2 = op(2, 1, 20, &[], create("b.html", FileAttr::new_html()));
    let c3 = op(3, 1, 30, &[], create("c.html", FileAttr::new_html()));
    let m1 = || machine(1, vec![c1.clone()]);
    let m2 = || machine(2, vec![c2.clone()]);
    let m3 = || machine(3, vec![c3.clone()]);

    let mut e1 = env_of(m1(), vec![m2(), m3()]);
    e1.do_sync();
    let mut e2 = env_of(m1(), vec![m3(), m2()]);
    e2.do_sync();

    assert_eq!(e1.files, e2.files);
    assert_eq!(e1.status, e2.status);
    assert_eq!(e1.files.len(), 3);
}

#[test]
fn second_sync_changes_nothing() {
    let create_op = op(1, 1, 10, &[], create("f1.html", FileAttr::new_html()));
    let add_a = op(
        2,
        1,
        10,
        &[(1, 1)],
        OpKind::AddTag {
            tag: tag(100, "alpha", 5),
        },
    );
    let m1 = machine(1, vec![create_op.clone()]);
    let m2 = machine(2, vec![add_a.clone()]);
    let mut e = env_of(m1, vec![m2]);
    e.do_sync();
    // The first run persists the merge: the local log keeps its own
    // operation as a prefix and absorbs the peer's as evidence.
    assert_eq!(e.local_machine.logs.len(), 2);
    assert_eq!(e.local_machine.logs[0], create_op);
    assert_eq!(e.local_machine.logs[1], add_a);
    let files_first = e.files.clone();
    e.do_sync();
    assert_eq!(e.files, files_first);
    assert_eq!(e.status, EnvStatus::Ready);
    // The second run finds nothing new: no log growth, no new conflicts.
    assert_eq!(e.local_machine.logs.len(), 2);
}

#[test]
fn moves_removals_and_authors_replay() {
    let c = op(1, 1, 10, &[], create("x.pdf", FileAttr::new_pdf()));
    let a = op(
        1,
        2,
        10,
        &[(1, 1)],
        OpKind::AddTag {
            tag: tag(100, "keep", 5),
        },
    );
    let mv = op(
        1,
        3,
        10,
        &[(1, 2)],
        OpKind::MoveFile {
            new_path: String::from("y.pdf"),
        },
    );
    let rm = op(1, 4, 10, &[(1, 3)], OpKind::RemoveTag { tag_id: tid(100) });
    let au = op(
        1,
        5,
        10,
        &[(1, 4)],
        OpKind::SetAuthor {
            author: Some(String::from("me")),
        },
    );
    let m1 = machine(1, vec![c, a, mv, rm, au]);
    let mut e = env_of(m1, vec![]);
    e.do_sync();
    assert_eq!(e.files.len(), 1);
    assert_eq!(e.files[0].relative_path, "y.pdf");
    assert_eq!(e.files[0].attrs.tags.len(), 0);
    assert_eq!(e.files[0].attrs.author, Some(String::from("me")));
    assert_eq!(e.files[0].attrs.file_type, FileType::PDF);
    assert_eq!(e.status, EnvStatus::Ready);
}

#[test]
fn concurrent_moves_and_authors_conflict() {
    let c = op(1, 1, 10, &[], create("x.pdf", FileAttr::new_pdf()));
    let mv1 = op(
        1,
        2,
        10,
        &[(1, 1)],
        OpKind::MoveFile {
            new_path: String::from("m1.pdf"),
        },
    );
    let mv2 = op(
        2,
        2,
        10,
        &[(1, 1)],
        OpKind::MoveFile {
            new_path: String::from("m2.pdf"),
        },
    );
    let au1 = op(
        1,
        3,
        10,
        &[(1, 2)],
        OpKind::SetAuthor {
            author: Some(String::from("one")),
        },
    );
    let au2 = op(
        2,
        3,
        10,
        &[(1, 1), (2, 2)],
        OpKind::SetAuthor {
            author: Some(String::from("two")),
        },
    );
    let m1 = machine(1, vec![c, mv1, au1]);
    let m2 = machine(2, vec![mv2, au2]);
    let mut e = env_of(m1, vec![m2]);
    e.do_sync();
    assert_eq!(e.files.len(), 1);
    // Last writer by the (counter, origin) tiebreak.
    assert_eq!(e.files[0].relative_path, "m2.pdf");
    assert_eq!(e.files[0].attrs.author, Some(String::from("two")));
    match &e.status {
        EnvStatus::RunWithErr(errs) => {
            assert!(errs.contains(&ConflictError::SyncExistConflict(FieldName::Path, fid(10))));
            assert!(errs.contains(&ConflictError::SyncExistConflict(
                FieldName::Author,
                fid(10)
            )));
        }
        other => panic!("expected RunWithErr, got {:?}", other),
    }
}
