//! The environment: the local machine, the known peer machines, and the
//! merged file view, together with the reconciliation entry point.
//!
//! Discovery of peer machines under the reserved `.machines` subdirectory
//! and every other filesystem concern stay outside: the environment is
//! handed already loaded machines and scanned file names as plain values.

use vstd::prelude::*;

use crate::file::{File, FileAttr, FileType, fresh_attr};
use crate::ids::{MachineId, host_machine_id};
use crate::merge::{ConfV, ConflictError, merged_conflicts, merged_files, reconcile};
use crate::op::{OpV, Operation};

verus! {

/// One participant: its identity, the location of its metadata store, and
/// its append-only operation log. The local machine's log is mutated only
/// by local actions; a peer's log, once imported, is read-only evidence.
#[derive(Debug)]
pub struct Machine {
    /// Rendered short url of the machine record, when one was produced.
    pub rendered: Option<String>,
    pub mac: MachineId,
    pub db: String,
    pub logs: Vec<Operation>,
}

impl Machine {
    /// A machine's own log is well-formed: every operation is its own,
    /// logical counters increase strictly along the log (the log's own
    /// ordering key never decreases, whatever the wall clock did), and
    /// every payload is well-formed.
    pub open spec fn wf(self) -> bool {
        &&& forall|i: int|
            0 <= i < self.logs.deep_view().len() ==> (#[trigger] self.logs.deep_view()[i]).origin
                == self.mac
        &&& forall|i: int, j: int|
            0 <= i < j < self.logs.deep_view().len() ==> (#[trigger] self.logs.deep_view()[
                i
            ]).counter < (#[trigger] self.logs.deep_view()[j]).counter
        &&& forall|i: int|
            0 <= i < self.logs.deep_view().len() ==> crate::op::op_wf(
                #[trigger] self.logs.deep_view()[i],
            )
    }

    /// Creates a new [`Machine`] with an empty log.
    pub fn new(mac: MachineId, db_path: String) -> (r: Self)
        ensures
            r.mac == mac,
            r.db@ == db_path@,
            r.logs@ =~= Seq::<Operation>::empty(),
            r.rendered is None,
            r.wf(),
    {
        Machine { rendered: None, mac, db: db_path, logs: Vec::new() }
    }
}

/// A fatal environment failure: these abort a sync with no state change.
#[derive(Clone, Copy, PartialEq, Eq, Structural, Debug)]
pub enum EnvError {
    /// The library root could not be read.
    RootUnavailable,
    /// A registered machine record could not be parsed. Discovery of the
    /// other machines goes on; the record's machine is skipped.
    CorruptMachineRecord(MachineId),
    /// No stable hardware identity could be determined for this host.
    IdentityUnavailable,
}

/// Tracks reconciliation progress, so that human-readable reports can
/// be generated from the environment.
#[derive(Debug, PartialEq, Eq)]
pub enum EnvStatus {
    Ready,
    Syncing,
    RunWithErr(Vec<ConflictError>),
}

/// Mathematical value of an `EnvStatus`.
#[verifier::ext_equal]
pub enum StatusV {
    Ready,
    Syncing,
    RunWithErr(Seq<ConfV>),
}

impl DeepView for EnvStatus {
    type V = StatusV;

    open spec fn deep_view(&self) -> StatusV {
        match self {
            EnvStatus::Ready => StatusV::Ready,
            EnvStatus::Syncing => StatusV::Syncing,
            EnvStatus::RunWithErr(errs) => StatusV::RunWithErr(errs.deep_view()),
        }
    }
}

/// Offliner env contains a local machine and several remote machines.
/// All operation logs are managed by local_machine through this env.
#[derive(Debug)]
pub struct Env {
    pub local_machine: Machine,
    pub sync_machines: Vec<Machine>,
    pub files: Vec<File>,
    pub root: String,
    pub status: EnvStatus,
}

/// The operations of the peer machines, in list order.
pub open spec fn peer_ops(ms: Seq<Machine>) -> Seq<OpV>
    decreases ms.len(),
{
    if ms.len() == 0 {
        Seq::empty()
    } else {
        peer_ops(ms.drop_last()) + ms.last().logs.deep_view()
    }
}

/// Every operation the environment knows: the local log, then each peer
/// log, in list order. The merge's result does not depend on this order.
pub open spec fn env_ops(e: Env) -> Seq<OpV> {
    e.local_machine.logs.deep_view() + peer_ops(e.sync_machines@)
}

/// Some operation of the sequence carries this operation's merge key.
pub open spec fn known_key(s: Seq<OpV>, op: OpV) -> bool {
    exists|i: int|
        0 <= i < s.len() && (#[trigger] s[i]).counter == op.counter && s[i].origin == op.origin
}

/// The local log grown by the merge's evidence: every peer operation
/// whose merge key the grown log does not yet hold is appended, in peer
/// order, so the local log becomes self-sufficient evidence of the merge.
/// The old log is a prefix of the result.
pub open spec fn grow_log(l: Seq<OpV>, p: Seq<OpV>) -> Seq<OpV>
    decreases p.len(),
{
    if p.len() == 0 {
        l
    } else {
        let g = grow_log(l, p.drop_last());
        if known_key(g, p.last()) {
            g
        } else {
            g.push(p.last())
        }
    }
}

/// The operations with every later duplicate of an earlier merge key
/// dropped: what one reconciliation replays, so that evidence already
/// copied into the local log is not counted twice against the peers' own
/// logs.
pub open spec fn dedup_keys(s: Seq<OpV>) -> Seq<OpV>
    decreases s.len(),
{
    if s.len() == 0 {
        s
    } else {
        let rest = dedup_keys(s.drop_last());
        if known_key(s.drop_last(), s.last()) {
            rest
        } else {
            rest.push(s.last())
        }
    }
}

/// What one reconciliation run leaves behind: the peers and root are
/// untouched; the file view is the merge of every known operation, each
/// merge key counted once; the status reports the recorded conflicts,
/// `Ready` when there are none; and the local log has grown — old log as
/// a prefix — by exactly the peer operations it did not yet hold, the
/// synthesized evidence that makes it self-sufficient.
pub open spec fn sync_post(pre: Env, post: Env) -> bool {
    &&& post.local_machine.mac == pre.local_machine.mac
    &&& post.local_machine.db == pre.local_machine.db
    &&& post.local_machine.rendered == pre.local_machine.rendered
    &&& post.local_machine.logs.deep_view().take(
        pre.local_machine.logs.deep_view().len() as int,
    ) == pre.local_machine.logs.deep_view()
    &&& post.local_machine.logs.deep_view() == grow_log(
        pre.local_machine.logs.deep_view(),
        peer_ops(pre.sync_machines@),
    )
    &&& post.sync_machines == pre.sync_machines
    &&& post.root == pre.root
    &&& post.files.deep_view() == merged_files(dedup_keys(env_ops(pre)))
    &&& post.status.deep_view() == (if merged_conflicts(dedup_keys(env_ops(pre))).len() == 0 {
        StatusV::Ready
    } else {
        StatusV::RunWithErr(merged_conflicts(dedup_keys(env_ops(pre))))
    })
}

/// Appends clones of the source operations to the destination.
fn append_ops(dst: &mut Vec<Operation>, src: &Vec<Operation>)
    ensures
        final(dst).deep_view() == old(dst).deep_view() + src.deep_view(),
{
    let ghost dst0 = dst.deep_view();
    let mut i: usize = 0;
    while i < src.len()
        invariant
            i <= src.len(),
            dst.deep_view() == dst0 + src.deep_view().take(i as int),
        decreases src.len() - i,
    {
        let ghost pre = dst.deep_view();
        let c = src[i].clone();
        proof {
            assert(c.deep_view() == src.deep_view()[i as int]);
        }
        dst.push(c);
        proof {
            assert(dst.deep_view() =~= pre.push(c.deep_view()));
            assert(dst.deep_view() =~= dst0 + src.deep_view().take(i + 1));
        }
        i = i + 1;
    }
    proof {
        assert(src.deep_view().take(src.len() as int) =~= src.deep_view());
        assert(dst.deep_view() =~= old(dst).deep_view() + src.deep_view());
    }
}

/// Whether the first `n` operations hold the given operation's merge key.
fn known_key_prefix(s: &Vec<Operation>, n: usize, op: &Operation) -> (r: bool)
    requires
        n <= s.len(),
    ensures
        r == known_key(s.deep_view().take(n as int), op.deep_view()),
{
    let mut j: usize = 0;
    while j < n
        invariant
            j <= n,
            n <= s.len(),
            forall|k: int|
                0 <= k < j ==> !((#[trigger] s.deep_view()[k]).counter == op.deep_view().counter
                    && s.deep_view()[k].origin == op.deep_view().origin),
        decreases n - j,
    {
        if s[j].counter == op.counter && s[j].origin == op.origin {
            proof {
                assert(s.deep_view().take(n as int)[j as int] == s.deep_view()[j as int]);
            }
            return true;
        }
        j = j + 1;
    }
    proof {
        assert forall|k: int|
            0 <= k < n implies !((#[trigger] s.deep_view().take(n as int)[k]).counter
            == op.deep_view().counter && s.deep_view().take(n as int)[k].origin
            == op.deep_view().origin) by {
            assert(s.deep_view().take(n as int)[k] == s.deep_view()[k]);
        }
    }
    false
}

/// Appends the source operations whose merge key the destination does not
/// yet hold.
fn grow_exec(dst: &mut Vec<Operation>, src: &Vec<Operation>)
    ensures
        final(dst).deep_view() == grow_log(old(dst).deep_view(), src.deep_view()),
{
    let ghost dst0 = dst.deep_view();
    let mut i: usize = 0;
    proof {
        assert(src.deep_view().take(0) =~= Seq::<OpV>::empty());
    }
    while i < src.len()
        invariant
            i <= src.len(),
            dst.deep_view() == grow_log(dst0, src.deep_view().take(i as int)),
        decreases src.len() - i,
    {
        proof {
            assert(src.deep_view().take(i + 1).drop_last() =~= src.deep_view().take(i as int));
            assert(src.deep_view().take(i + 1).last() == src.deep_view()[i as int]);
        }
        let n = dst.len();
        proof {
            assert(dst.deep_view().take(n as int) =~= dst.deep_view());
        }
        if !known_key_prefix(dst, n, &src[i]) {
            let ghost pre = dst.deep_view();
            let c = src[i].clone();
            proof {
                assert(c.deep_view() == src.deep_view()[i as int]);
            }
            dst.push(c);
            proof {
                assert(dst.deep_view() =~= pre.push(c.deep_view()));
                assert(dst.deep_view() =~= grow_log(dst0, src.deep_view().take(i + 1)));
            }
        } else {
            proof {
                assert(dst.deep_view() =~= grow_log(dst0, src.deep_view().take(i + 1)));
            }
        }
        i = i + 1;
    }
    proof {
        assert(src.deep_view().take(src.len() as int) =~= src.deep_view());
    }
}

/// The operations with later key duplicates dropped, for one replay.
fn dedup_exec(src: &Vec<Operation>) -> (r: Vec<Operation>)
    ensures
        r.deep_view() == dedup_keys(src.deep_view()),
{
    let mut r: Vec<Operation> = Vec::new();
    let mut i: usize = 0;
    proof {
        assert(src.deep_view().take(0) =~= Seq::<OpV>::empty());
    }
    while i < src.len()
        invariant
            i <= src.len(),
            r.deep_view() == dedup_keys(src.deep_view().take(i as int)),
        decreases src.len() - i,
    {
        proof {
            assert(src.deep_view().take(i + 1).drop_last() =~= src.deep_view().take(i as int));
            assert(src.deep_view().take(i + 1).last() == src.deep_view()[i as int]);
        }
        if !known_key_prefix(src, i, &src[i]) {
            let ghost pre = r.deep_view();
            let c = src[i].clone();
            proof {
                assert(c.deep_view() == src.deep_view()[i as int]);
            }
            r.push(c);
            proof {
                assert(r.deep_view() =~= pre.push(c.deep_view()));
                assert(r.deep_view() =~= dedup_keys(src.deep_view().take(i + 1)));
            }
        } else {
            proof {
                assert(r.deep_view() =~= dedup_keys(src.deep_view().take(i + 1)));
            }
        }
        i = i + 1;
    }
    proof {
        assert(src.deep_view().take(src.len() as int) =~= src.deep_view());
    }
    r
}

/// The machine of `ms` with the given id that stands last in the list, if
/// any: later registrations shadow earlier ones.
pub open spec fn find_last(ms: Seq<Machine>, mac: MachineId) -> Option<Machine>
    decreases ms.len(),
{
    if ms.len() == 0 {
        None
    } else if ms.last().mac == mac {
        Some(ms.last())
    } else {
        find_last(ms.drop_last(), mac)
    }
}

/// The machines of `ms` whose id differs from `mac`, in list order.
pub open spec fn non_local(ms: Seq<Machine>, mac: MachineId) -> Seq<Machine>
    decreases ms.len(),
{
    if ms.len() == 0 {
        ms
    } else {
        let rest = non_local(ms.drop_last(), mac);
        if ms.last().mac == mac {
            rest
        } else {
            rest.push(ms.last())
        }
    }
}

/// What a freshly built environment looks like, given the values that were
/// handed in; its local identity is `e.local_machine.mac`.
pub open spec fn env_built(
    e: Env,
    root: Seq<char>,
    machines: Seq<Machine>,
    names: Seq<Seq<char>>,
    scan_time: u64,
) -> bool {
    &&& e.root@ == root
    &&& e.status.deep_view() == StatusV::Ready
    &&& e.sync_machines@ == non_local(machines, e.local_machine.mac)
    &&& match find_last(machines, e.local_machine.mac) {
        Some(m) => e.local_machine == m,
        None => {
            &&& e.local_machine.logs.deep_view() =~= Seq::<OpV>::empty()
            &&& e.local_machine.db@ == store_path(root, e.local_machine.mac)
            &&& e.local_machine.rendered is None
        },
    }
    &&& scan_result(e.files, names, scan_time)
}

/// The freshly chosen metadata store location of a first-run machine: its
/// own entry under the reserved `.machines` subdirectory of the root,
/// named by the decimal digits of its id.
pub open spec fn store_path(root: Seq<char>, mac: MachineId) -> Seq<char> {
    root + "/.machines/"@ + crate::merge::dec_str(mac.bits as nat)
}

/// The discovered machine records are themselves sound: every log is
/// well-formed and no two records share an identity.
pub open spec fn machines_wf(ms: Seq<Machine>) -> bool {
    &&& forall|k: int| 0 <= k < ms.len() ==> (#[trigger] ms[k]).wf()
    &&& forall|k: int, l: int|
        0 <= k < l < ms.len() ==> (#[trigger] ms[k]).mac != (#[trigger] ms[l]).mac
}

/// The peers `non_local` keeps are discovered machines, none of them
/// carries the filtered id, and records with pairwise distinct ids stay
/// pairwise distinct.
proof fn lemma_non_local_props(ms: Seq<Machine>, mac: MachineId)
    ensures
        forall|i: int|
            0 <= i < non_local(ms, mac).len() ==> (#[trigger] non_local(ms, mac)[i]).mac != mac,
        forall|i: int|
            0 <= i < non_local(ms, mac).len() ==> ms.contains(#[trigger] non_local(ms, mac)[i]),
        (forall|k: int, l: int|
            0 <= k < l < ms.len() ==> (#[trigger] ms[k]).mac != (#[trigger] ms[l]).mac)
            ==> (forall|k: int, l: int|
            0 <= k < l < non_local(ms, mac).len() ==> non_local(ms, mac)[k].mac != non_local(
                ms,
                mac,
            )[l].mac),
    decreases ms.len(),
{
    if ms.len() > 0 {
        let pre = ms.drop_last();
        lemma_non_local_props(pre, mac);
        assert(forall|k: int| 0 <= k < pre.len() ==> (#[trigger] pre[k]) == ms[k]);
        assert forall|i: int| 0 <= i < non_local(ms, mac).len() implies ms.contains(
            #[trigger] non_local(ms, mac)[i],
        ) by {
            let rest = non_local(pre, mac);
            if i < rest.len() {
                let a = choose|a: int| 0 <= a < pre.len() && pre[a] == rest[i];
                assert(ms[a] == rest[i]);
            } else {
                assert(non_local(ms, mac)[i] == ms[ms.len() - 1]);
            }
        }
        if forall|k: int, l: int|
            0 <= k < l < ms.len() ==> (#[trigger] ms[k]).mac != (#[trigger] ms[l]).mac {
            let rest = non_local(pre, mac);
            assert forall|k: int, l: int|
                0 <= k < l < non_local(ms, mac).len() implies non_local(ms, mac)[k].mac
                != non_local(ms, mac)[l].mac by {
                if l < rest.len() {
                } else if ms.last().mac != mac {
                    let a = choose|a: int| 0 <= a < pre.len() && pre[a] == rest[k];
                    assert(ms[a].mac != ms[ms.len() - 1].mac);
                }
            }
        }
    }
}

/// The extension-classified entries of the scanned names, in scan order:
/// the name and the file type, names of unrecognized extensions excluded.
pub open spec fn scanned(names: Seq<Seq<char>>) -> Seq<(Seq<char>, FileType)>
    decreases names.len(),
{
    if names.len() == 0 {
        Seq::empty()
    } else {
        let rest = scanned(names.drop_last());
        match classify(names.last()) {
            Some(t) => rest.push((names.last(), t)),
            None => rest,
        }
    }
}

/// The characters of `suf` are the final characters of `s`.
pub open spec fn has_suffix(s: Seq<char>, suf: Seq<char>) -> bool {
    s.len() >= suf.len() && s.subrange(s.len() - suf.len(), s.len() as int) == suf
}

/// The file type a scanned name is classified as, by its extension; a name
/// with an unrecognized extension is excluded from the library, never
/// defaulted to a type.
pub open spec fn classify(name: Seq<char>) -> Option<FileType> {
    if has_suffix(name, ".htm"@) || has_suffix(name, ".html"@) {
        Some(FileType::HTML)
    } else if has_suffix(name, ".pdf"@) {
        Some(FileType::PDF)
    } else {
        None
    }
}

/// The scanned files match the classified names pointwise: same paths in
/// the same order, fresh attributes of the classified type, the scan time
/// as modification time. The file ids are freshly drawn and unconstrained.
pub open spec fn scan_result(files: Vec<File>, names: Seq<Seq<char>>, scan_time: u64) -> bool {
    &&& files.deep_view().len() == scanned(names).len()
    &&& forall|i: int|
        0 <= i < scanned(names).len() ==> {
            &&& (#[trigger] files.deep_view()[i]).path == scanned(names)[i].0
            &&& files.deep_view()[i].attrs == fresh_attr(scanned(names)[i].1)
            &&& files.deep_view()[i].mtime == scan_time
        }
}

/// Relies on str::ends_with: true iff the characters of `suffix` are the
/// final characters of `s`.
#[verifier::external_body]
fn str_ends_with(s: &str, suffix: &str) -> (r: bool)
    ensures
        r == has_suffix(s@, suffix@),
{
    s.ends_with(suffix)
}

/// The exec side of `classify`.
fn classify_name(name: &str) -> (r: Option<FileType>)
    ensures
        r == classify(name@),
{
    if str_ends_with(name, ".htm") || str_ends_with(name, ".html") {
        Some(FileType::HTML)
    } else if str_ends_with(name, ".pdf") {
        Some(FileType::PDF)
    } else {
        None
    }
}

impl Env {
    /// Builds the file records of one scan: each recognized name becomes a
    /// fresh file of the classified type; unrecognized names are excluded.
    pub fn scan_files(names: &Vec<String>, scan_time: u64) -> (r: Vec<File>)
        ensures
            scan_result(r, names.deep_view(), scan_time),
    {
        let mut r: Vec<File> = Vec::new();
        let mut i: usize = 0;
        proof {
            assert(names.deep_view().take(0) =~= Seq::<Seq<char>>::empty());
        }
        while i < names.len()
            invariant
                i <= names.len(),
                r.deep_view().len() == scanned(names.deep_view().take(i as int)).len(),
                forall|j: int|
                    0 <= j < scanned(names.deep_view().take(i as int)).len() ==> {
                        &&& (#[trigger] r.deep_view()[j]).path == scanned(
                            names.deep_view().take(i as int),
                        )[j].0
                        &&& r.deep_view()[j].attrs == fresh_attr(
                            scanned(names.deep_view().take(i as int))[j].1,
                        )
                        &&& r.deep_view()[j].mtime == scan_time
                    },
            decreases names.len() - i,
        {
            proof {
                assert(names.deep_view().take(i + 1).drop_last() =~= names.deep_view().take(
                    i as int,
                ));
                assert(names.deep_view().take(i + 1).last() == names.deep_view()[i as int]);
            }
            match classify_name(names[i].as_str()) {
                Some(t) => {
                    let ghost pre = r.deep_view();
                    let f = File::new(FileAttr::new(t), names[i].clone(), scan_time);
                    r.push(f);
                    proof {
                        assert(r.deep_view() =~= pre.push(f.deep_view()));
                        assert(f.deep_view().path == names.deep_view()[i as int]);
                        assert(f.deep_view().attrs =~= fresh_attr(t));
                    }
                },
                None => {},
            }
            i = i + 1;
        }
        proof {
            assert(names.deep_view().take(names.len() as int) =~= names.deep_view());
        }
        r
    }

    /// Filter the local machine out of the discovered machines by its
    /// [`MachineId`]; the last registration with the local id wins, and
    /// every machine with another id is kept, in order, as a peer.
    pub fn find_local_machine(local_mac: MachineId, machines: Vec<Machine>) -> (r: (
        Option<Machine>,
        Vec<Machine>,
    ))
        ensures
            r.0 == find_last(machines@, local_mac),
            r.1@ == non_local(machines@, local_mac),
    {
        let ghost mv = machines@;
        let mut v = machines;
        let mut local: Option<Machine> = None;
        let mut rest: Vec<Machine> = Vec::new();
        let ghost mut i: int = 0;
        proof {
            assert(mv.take(0) =~= Seq::<Machine>::empty());
            assert(v@ =~= mv.skip(0));
        }
        while v.len() > 0
            invariant
                0 <= i,
                i + v.len() == mv.len(),
                v@ == mv.skip(i),
                local == find_last(mv.take(i), local_mac),
                rest@ == non_local(mv.take(i), local_mac),
            decreases v.len(),
        {
            let m = v.remove(0);
            proof {
                assert(m == mv[i]);
                assert(v@ =~= mv.skip(i + 1));
                assert(mv.take(i + 1).drop_last() =~= mv.take(i));
                assert(mv.take(i + 1).last() == mv[i]);
            }
            if m.mac == local_mac {
                local = Some(m);
            } else {
                rest.push(m);
            }
            proof {
                i = i + 1;
            }
        }
        proof {
            assert(mv.take(i) =~= mv);
        }
        (local, rest)
    }

    /// The fresh local machine of a first run: empty log, and a freshly
    /// chosen metadata store location — the machine's own entry under the
    /// root's reserved `.machines` subdirectory.
    pub fn create_local_machine(local_mac: MachineId, root: &String) -> (r: Machine)
        ensures
            r.mac == local_mac,
            r.logs@ =~= Seq::<Operation>::empty(),
            r.db@ == store_path(root@, local_mac),
            r.rendered is None,
            r.wf(),
    {
        proof {
            reveal_strlit("/.machines/");
        }
        let mut db = root.clone();
        db.append("/.machines/");
        let digits = crate::merge::dec_string(local_mac.bits as u128);
        db.append(digits.as_str());
        proof {
            assert(db@ =~= store_path(root@, local_mac));
        }
        Machine::new(local_mac, db)
    }

    /// Builds the environment from already discovered machines and scanned
    /// file names, for a given local identity: the local machine is picked
    /// out of the discovered ones, or freshly registered on a first run.
    pub fn with_identity(
        mac: MachineId,
        root: String,
        machines: Vec<Machine>,
        file_names: &Vec<String>,
        scan_time: u64,
    ) -> (e: Env)
        ensures
            env_built(e, root@, machines@, file_names.deep_view(), scan_time),
            e.local_machine.mac == mac,
            machines_wf(machines@) ==> e.wf(),
    {
        let ghost mv = machines@;
        let (found, rest) = Self::find_local_machine(mac, machines);
        let local_machine = match found {
            Some(m) => m,
            None => Self::create_local_machine(mac, &root),
        };
        proof {
            lemma_find_last_mac(mv, mac);
            if machines_wf(mv) {
                lemma_non_local_props(mv, mac);
                if let Some(m) = find_last(mv, mac) {
                    let a = choose|a: int| 0 <= a < mv.len() && mv[a] == m;
                    assert(mv[a].wf());
                }
                assert forall|k: int| 0 <= k < rest@.len() implies (#[trigger] rest@[k]).wf() by {
                    let a = choose|a: int| 0 <= a < mv.len() && mv[a] == rest@[k];
                    assert(mv[a].wf());
                }
            }
        }
        let files = Self::scan_files(file_names, scan_time);
        Env { local_machine, sync_machines: rest, files, root, status: EnvStatus::Ready }
    }

    /// Builds the environment for this host. The local identity comes from
    /// the host's hardware address; when none can be determined, that is
    /// fatal and nothing is built.
    pub fn new(root: String, machines: Vec<Machine>, file_names: &Vec<String>, scan_time: u64)
        -> (r: Result<Env, EnvError>)
        ensures
            match r {
                Ok(e) => env_built(e, root@, machines@, file_names.deep_view(), scan_time)
                    && (machines_wf(machines@) ==> e.wf()),
                Err(err) => err == EnvError::IdentityUnavailable,
            },
    {
        match host_machine_id() {
            Some(mac) => Ok(Self::with_identity(mac, root, machines, file_names, scan_time)),
            None => Err(EnvError::IdentityUnavailable),
        }
    }

    /// Reconciles every known operation log into a fresh merged file view.
    /// The merge never blocks: it always completes with a deterministic
    /// view, and ends `Ready` when no conflict was recorded, or
    /// `RunWithErr` carrying the recorded conflicts for review. The peer
    /// operations the local log did not yet hold are appended to it, so
    /// that the local log alone remains evidence of the merge.
    pub fn do_sync(&mut self)
        ensures
            sync_post(*old(self), *final(self)),
    {
        self.status = EnvStatus::Syncing;
        let mut pvec: Vec<Operation> = Vec::new();
        let mut i: usize = 0;
        proof {
            assert(self.sync_machines@.take(0) =~= Seq::<Machine>::empty());
            assert(pvec.deep_view() =~= peer_ops(self.sync_machines@.take(0)));
        }
        while i < self.sync_machines.len()
            invariant
                i <= self.sync_machines.len(),
                self.local_machine == old(self).local_machine,
                self.sync_machines == old(self).sync_machines,
                self.files == old(self).files,
                self.root == old(self).root,
                pvec.deep_view() == peer_ops(self.sync_machines@.take(i as int)),
            decreases self.sync_machines.len() - i,
        {
            proof {
                assert(self.sync_machines@.take(i + 1).drop_last() =~= self.sync_machines@.take(
                    i as int,
                ));
                assert(self.sync_machines@.take(i + 1).last() == self.sync_machines@[i as int]);
            }
            append_ops(&mut pvec, &self.sync_machines[i].logs);
            i = i + 1;
        }
        proof {
            assert(self.sync_machines@.take(self.sync_machines.len() as int)
                =~= self.sync_machines@);
            assert(pvec.deep_view() =~= peer_ops(old(self).sync_machines@));
        }
        let mut all: Vec<Operation> = Vec::new();
        append_ops(&mut all, &self.local_machine.logs);
        append_ops(&mut all, &pvec);
        proof {
            assert(all.deep_view() =~= env_ops(*old(self)));
        }
        let deduped = dedup_exec(&all);
        let (files, confs) = reconcile(deduped);
        grow_exec(&mut self.local_machine.logs, &pvec);
        proof {
            lemma_grow_prefix(
                old(self).local_machine.logs.deep_view(),
                peer_ops(old(self).sync_machines@),
            );
        }
        self.files = files;
        if confs.len() == 0 {
            self.status = EnvStatus::Ready;
        } else {
            self.status = EnvStatus::RunWithErr(confs);
        }
    }
}

/// The machine `find_last` returns carries the id it was looked up by.
pub proof fn lemma_find_last_mac(ms: Seq<Machine>, mac: MachineId)
    ensures
        match find_last(ms, mac) {
            Some(m) => m.mac == mac && ms.contains(m),
            None => true,
        },
    decreases ms.len(),
{
    if ms.len() > 0 {
        if ms.last().mac == mac {
            assert(ms[ms.len() - 1] == ms.last());
        } else {
            lemma_find_last_mac(ms.drop_last(), mac);
            if let Some(m) = find_last(ms.drop_last(), mac) {
                let a = choose|a: int| 0 <= a < ms.drop_last().len() && ms.drop_last()[a] == m;
                assert(ms[a] == m);
            }
        }
    }
}

impl Env {
    /// A well-formed environment: every machine's log is well-formed, and
    /// no two machines — the local one included — share an identity.
    pub open spec fn wf(self) -> bool {
        &&& self.local_machine.wf()
        &&& forall|k: int|
            0 <= k < self.sync_machines@.len() ==> (#[trigger] self.sync_machines@[k]).wf()
        &&& forall|k: int|
            0 <= k < self.sync_machines@.len() ==> (#[trigger] self.sync_machines@[k]).mac
                != self.local_machine.mac
        &&& forall|k: int, l: int|
            0 <= k < l < self.sync_machines@.len() ==> (#[trigger] self.sync_machines@[k]).mac
                != (#[trigger] self.sync_machines@[l]).mac
    }
}

/// The peer logs concatenated: no two operations share a merge key, and
/// every operation's origin is one of the machines' identities.
proof fn lemma_peer_ops_wf(ms: Seq<Machine>)
    requires
        forall|k: int| 0 <= k < ms.len() ==> (#[trigger] ms[k]).wf(),
        forall|k: int, l: int|
            0 <= k < l < ms.len() ==> (#[trigger] ms[k]).mac != (#[trigger] ms[l]).mac,
    ensures
        crate::op::distinct_keys(peer_ops(ms)),
        forall|i: int|
            0 <= i < peer_ops(ms).len() ==> exists|k: int|
                0 <= k < ms.len() && (#[trigger] peer_ops(ms)[i]).origin == ms[k].mac,
    decreases ms.len(),
{
    if ms.len() > 0 {
        let pre = ms.drop_last();
        assert(forall|k: int| 0 <= k < pre.len() ==> (#[trigger] pre[k]) == ms[k]);
        lemma_peer_ops_wf(pre);
        let a = peer_ops(pre);
        let b = ms.last().logs.deep_view();
        let whole = peer_ops(ms);
        assert(whole == a + b);
        assert(ms.last().wf());
        assert forall|i: int, j: int|
            0 <= i < j < whole.len() implies !((#[trigger] whole[i].counter) == (
        #[trigger] whole[j].counter) && whole[i].origin == whole[j].origin) by {
            if j < a.len() {
                assert(whole[i] == a[i] && whole[j] == a[j]);
            } else if i >= a.len() {
                assert(whole[i] == b[i - a.len()] && whole[j] == b[j - a.len()]);
            } else {
                assert(whole[i] == a[i] && whole[j] == b[j - a.len()]);
                let k = choose|k: int| 0 <= k < pre.len() && a[i].origin == pre[k].mac;
                assert(whole[j].origin == ms.last().mac);
                assert(ms[k].mac != ms[ms.len() - 1].mac);
            }
        }
        assert forall|i: int| 0 <= i < whole.len() implies exists|k: int|
            0 <= k < ms.len() && (#[trigger] whole[i]).origin == ms[k].mac by {
            if i < a.len() {
                assert(whole[i] == a[i]);
                let k = choose|k: int| 0 <= k < pre.len() && a[i].origin == pre[k].mac;
                assert(whole[i].origin == ms[k].mac);
            } else {
                assert(whole[i] == b[i - a.len()]);
                assert(whole[i].origin == ms[ms.len() - 1].mac);
            }
        }
    }
}

/// In a well-formed environment no two known operations share a merge key:
/// one machine's counters increase strictly, and two machines' operations
/// differ in origin.
pub proof fn lemma_env_ops_distinct(e: Env)
    requires
        e.wf(),
    ensures
        crate::op::distinct_keys(env_ops(e)),
{
    lemma_peer_ops_wf(e.sync_machines@);
    let a = e.local_machine.logs.deep_view();
    let b = peer_ops(e.sync_machines@);
    let whole = env_ops(e);
    assert forall|i: int, j: int|
        0 <= i < j < whole.len() implies !((#[trigger] whole[i].counter) == (
    #[trigger] whole[j].counter) && whole[i].origin == whole[j].origin) by {
        if j < a.len() {
            assert(whole[i] == a[i] && whole[j] == a[j]);
        } else if i >= a.len() {
            assert(whole[i] == b[i - a.len()] && whole[j] == b[j - a.len()]);
        } else {
            assert(whole[i] == a[i] && whole[j] == b[j - a.len()]);
            let k = choose|k: int|
                0 <= k < e.sync_machines@.len() && b[j - a.len()].origin
                    == e.sync_machines@[k].mac;
            assert(whole[i].origin == e.local_machine.mac);
        }
    }
}

/// Determinism of one sync: two well-formed environments that know the
/// same operations — however their peer logs were ordered or combined —
/// merge to the same file view and the same conflict report.
pub proof fn lemma_sync_order_independent(e1: Env, e2: Env)
    requires
        e1.wf(),
        e2.wf(),
        env_ops(e1).to_multiset() == env_ops(e2).to_multiset(),
    ensures
        merged_files(dedup_keys(env_ops(e1))) == merged_files(dedup_keys(env_ops(e2))),
        merged_conflicts(dedup_keys(env_ops(e1))) == merged_conflicts(dedup_keys(env_ops(e2))),
{
    lemma_env_ops_distinct(e1);
    lemma_env_ops_distinct(e2);
    lemma_dedup_distinct(env_ops(e1));
    lemma_dedup_distinct(env_ops(e2));
    crate::merge::lemma_merge_deterministic(env_ops(e1), env_ops(e2));
}

/// The old log stays a prefix of the grown one.
proof fn lemma_grow_prefix(l: Seq<OpV>, p: Seq<OpV>)
    ensures
        grow_log(l, p).len() >= l.len(),
        grow_log(l, p).take(l.len() as int) == l,
    decreases p.len(),
{
    if p.len() == 0 {
        assert(grow_log(l, p).take(l.len() as int) =~= l);
    } else {
        lemma_grow_prefix(l, p.drop_last());
        let g = grow_log(l, p.drop_last());
        if !known_key(g, p.last()) {
            assert(g.push(p.last()).take(l.len() as int) =~= g.take(l.len() as int));
        }
    }
}

/// When no two known operations share a key, the local log absorbs every
/// peer operation: the grown log is local log then peer operations.
pub proof fn lemma_grow_all(l: Seq<OpV>, p: Seq<OpV>)
    requires
        crate::op::distinct_keys(l + p),
    ensures
        grow_log(l, p) == l + p,
    decreases p.len(),
{
    if p.len() == 0 {
        assert(grow_log(l, p) =~= l + p);
    } else {
        let p0 = p.drop_last();
        let whole = l + p;
        assert forall|i: int, j: int|
            0 <= i < j < (l + p0).len() implies !((#[trigger] (l + p0)[i].counter) == (
        #[trigger] (l + p0)[j].counter) && (l + p0)[i].origin == (l + p0)[j].origin) by {
            assert((l + p0)[i] == whole[i] && (l + p0)[j] == whole[j]);
        }
        lemma_grow_all(l, p0);
        if known_key(l + p0, p.last()) {
            let i = choose|i: int|
                0 <= i < (l + p0).len() && (#[trigger] (l + p0)[i]).counter == p.last().counter
                    && (l + p0)[i].origin == p.last().origin;
            assert((l + p0)[i] == whole[i]);
            assert(whole[whole.len() - 1] == p.last());
            assert(false);
        }
        assert(grow_log(l, p) =~= l + p);
    }
}

/// Deduplication changes nothing when the keys are already distinct.
pub proof fn lemma_dedup_distinct(s: Seq<OpV>)
    requires
        crate::op::distinct_keys(s),
    ensures
        dedup_keys(s) == s,
    decreases s.len(),
{
    if s.len() == 0 {
        assert(dedup_keys(s) =~= s);
    } else {
        let pre = s.drop_last();
        assert forall|i: int, j: int|
            0 <= i < j < pre.len() implies !((#[trigger] pre[i].counter) == (
        #[trigger] pre[j].counter) && pre[i].origin == pre[j].origin) by {
            assert(pre[i] == s[i] && pre[j] == s[j]);
        }
        lemma_dedup_distinct(pre);
        if known_key(pre, s.last()) {
            let i = choose|i: int|
                0 <= i < pre.len() && (#[trigger] pre[i]).counter == s.last().counter
                    && pre[i].origin == s.last().origin;
            assert(s[i] == pre[i]);
            assert(s[s.len() - 1] == s.last());
            assert(false);
        }
        assert(dedup_keys(s) =~= s);
    }
}

/// Appending operations whose keys are all already present changes
/// nothing under deduplication.
proof fn lemma_dedup_drop_known(s: Seq<OpV>, t: Seq<OpV>)
    requires
        forall|j: int| 0 <= j < t.len() ==> known_key(s, #[trigger] t[j]),
    ensures
        dedup_keys(s + t) == dedup_keys(s),
    decreases t.len(),
{
    if t.len() == 0 {
        assert(s + t =~= s);
    } else {
        let t0 = t.drop_last();
        assert(forall|j: int| 0 <= j < t0.len() ==> (#[trigger] t0[j]) == t[j]);
        lemma_dedup_drop_known(s, t0);
        assert((s + t).drop_last() =~= s + t0);
        assert((s + t).last() == t[t.len() - 1]);
        assert(known_key(s, t[t.len() - 1]));
        let i = choose|i: int|
            0 <= i < s.len() && (#[trigger] s[i]).counter == t[t.len() - 1].counter && s[i].origin
                == t[t.len() - 1].origin;
        assert((s + t0)[i] == s[i]);
        assert(known_key(s + t0, t[t.len() - 1]));
    }
}

/// Running `do_sync` twice with no new operations is idempotent: the
/// second run leaves the very same file view and reports the very same
/// conflicts — no additional conflict arises from syncing again, although
/// the first run grew the local log by the merge's evidence.
pub proof fn lemma_do_sync_idempotent(e0: Env, e1: Env, e2: Env)
    requires
        e0.wf(),
        sync_post(e0, e1),
        sync_post(e1, e2),
    ensures
        e2.files.deep_view() == e1.files.deep_view(),
        e2.status.deep_view() == e1.status.deep_view(),
{
    let l = e0.local_machine.logs.deep_view();
    let p = peer_ops(e0.sync_machines@);
    lemma_env_ops_distinct(e0);
    assert(env_ops(e0) == l + p);
    lemma_grow_all(l, p);
    assert(e1.local_machine.logs.deep_view() == l + p);
    assert(peer_ops(e1.sync_machines@) == p);
    assert(env_ops(e1) == (l + p) + p);
    assert forall|j: int| 0 <= j < p.len() implies known_key(l + p, #[trigger] p[j]) by {
        assert((l + p)[l.len() + j] == p[j]);
    }
    lemma_dedup_drop_known(l + p, p);
    lemma_dedup_distinct(l + p);
    assert(dedup_keys(env_ops(e1)) == dedup_keys(env_ops(e0)));
}

} // verus!
