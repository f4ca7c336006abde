use offliner::clock::{ClockEntry, VectorClock};
use offliner::env::{Env, EnvStatus, Machine};
use offliner::file::{File, FileAttr, FileType};
use offliner::ids::{FileId, MachineId};

fn mid(b: u64) -> MachineId {
    MachineId { bits: b }
}

fn machine(mac: u64) -> Machine {
    Machine {
        rendered: None,
        mac: mid(mac),
        db: String::new(),
        logs: Vec::new(),
    }
}

#[test]
fn test_scan_files() {
    let names = vec![
        String::from("a.html"),
        String::from("b.pdf"),
        String::from("notes.txt"),
        String::from("c.htm"),
    ];
    let files = Env::scan_files(&names, 42);
    assert_eq!(files.len(), 3);
    assert_eq!(files[0].relative_path, "a.html");
    assert_eq!(files[0].attrs.file_type, FileType::HTML);
    assert_eq!(files[1].relative_path, "b.pdf");
    assert_eq!(files[1].attrs.file_type, FileType::PDF);
    assert_eq!(files[2].relative_path, "c.htm");
    assert_eq!(files[2].attrs.file_type, FileType::HTML);
    for f in &files {
        assert_eq!(f.modify_time, 42);
        assert_eq!(f.attrs.title, None);
        assert_eq!(f.attrs.author, None);
        assert_eq!(f.attrs.tags.len(), 0);
    }
}

#[test]
fn fresh_attrs_are_empty() {
    let h = FileAttr::new_html();
    assert_eq!(h.file_type, FileType::HTML);
    assert_eq!(h.title, None);
    assert_eq!(h.author, None);
    assert_eq!(h.rendered, None);
    assert_eq!(h.tags.len(), 0);
    let p = FileAttr::new_pdf();
    assert_eq!(p.file_type, FileType::PDF);
    let n = FileAttr::new(FileType::PDF);
    assert_eq!(n.file_type, FileType::PDF);
}

#[test]
fn file_with_id_keeps_every_field() {
    let f = File::with_id(
        FileId { bits: 77 },
        FileAttr::new_pdf(),
        String::from("d/e.pdf"),
        9,
    );
    assert_eq!(f.uuid, FileId { bits: 77 });
    assert_eq!(f.relative_path, "d/e.pdf");
    assert_eq!(f.modify_time, 9);
    assert_eq!(f.attrs.file_type, FileType::PDF);
}

#[test]
fn file_new_draws_an_identity() {
    let f = File::new(FileAttr::new_html(), String::from("a.html"), 3);
    let g = File::new(FileAttr::new_html(), String::from("a.html"), 3);
    assert_eq!(f.relative_path, "a.html");
    assert_eq!(f.modify_time, 3);
    // Two draws of a 128-bit random identity never coincide in practice.
    assert_ne!(f.uuid, g.uuid);
}

#[test]
fn machine_new_starts_empty() {
    let m = Machine::new(mid(5), String::from("store.db"));
    assert_eq!(m.mac, mid(5));
    assert_eq!(m.db, "store.db");
    assert_eq!(m.logs.len(), 0);
    assert_eq!(m.rendered, None);
}

#[test]
fn vector_clock_lookup() {
    let c = VectorClock {
        entries: vec![
            ClockEntry { machine: mid(1), count: 3 },
            ClockEntry { machine: mid(2), count: 5 },
        ],
    };
    assert_eq!(c.get(mid(1)), 3);
    assert_eq!(c.get(mid(2)), 5);
    assert_eq!(c.get(mid(9)), 0);
    assert!(c.observes(mid(1), 3));
    assert!(!c.observes(mid(1), 4));
    assert!(c.observes(mid(9), 0));
    let empty = VectorClock::empty();
    assert_eq!(empty.get(mid(1)), 0);
    assert!(!empty.observes(mid(1), 1));
}

#[test]
fn find_local_machine_splits_by_id() {
    let ms = vec![machine(1), machine(2), machine(3)];
    let (local, peers) = Env::find_local_machine(mid(2), ms);
    assert_eq!(local.as_ref().map(|m| m.mac), Some(mid(2)));
    let macs: Vec<u64> = peers.iter().map(|m| m.mac.bits).collect();
    assert_eq!(macs, vec![1, 3]);
}

#[test]
fn find_local_machine_absent() {
    let ms = vec![machine(1), machine(3)];
    let (local, peers) = Env::find_local_machine(mid(2), ms);
    assert!(local.is_none());
    assert_eq!(peers.len(), 2);
}

#[test]
fn with_identity_builds_a_ready_env() {
    let ms = vec![machine(1), machine(2), machine(3)];
    let names = vec![String::from("a.html"), String::from("skip.bin")];
    let e = Env::with_identity(mid(2), String::from("/lib"), ms, &names, 7);
    assert_eq!(e.local_machine.mac, mid(2));
    assert_eq!(e.root, "/lib");
    let macs: Vec<u64> = e.sync_machines.iter().map(|m| m.mac.bits).collect();
    assert_eq!(macs, vec![1, 3]);
    assert_eq!(e.files.len(), 1);
    assert_eq!(e.files[0].relative_path, "a.html");
    assert_eq!(e.status, EnvStatus::Ready);
}

#[test]
fn with_identity_registers_a_fresh_machine_on_first_run() {
    let ms = vec![machine(1)];
    let names: Vec<String> = Vec::new();
    let e = Env::with_identity(mid(9), String::from("/lib"), ms, &names, 7);
    assert_eq!(e.local_machine.mac, mid(9));
    assert_eq!(e.local_machine.logs.len(), 0);
    assert_eq!(e.local_machine.db, "/lib/.machines/9");
    assert_eq!(e.sync_machines.len(), 1);
    assert_eq!(e.sync_machines[0].mac, mid(1));
}

#[test]
fn fresh_machine_store_location_is_under_dot_machines() {
    let m = Env::create_local_machine(mid(4080), &String::from("/r"));
    assert_eq!(m.mac, mid(4080));
    assert_eq!(m.db, "/r/.machines/4080");
    assert_eq!(m.logs.len(), 0);
}
