//! The decisions of the background project indexer: options, phases and the
//! events it reports, the database file name of a project, how file-watcher
//! changes are applied, and the scheduling of directory scans. Threads,
//! channels, the file system and the index database stay with the caller,
//! which performs the actions decided here.

use vstd::prelude::*;
use ignore::gitignore::GitignoreBuilder;
use ignore::Match;
use crate::models::{NodeKind, ScanIssue};
use crate::scanner::{
    kept_entries, listing_errors, prepare_children, sorted_by_key, spec_kind, EntryMetadata, FsEntry, IgnoreRules,
};
use crate::storage::{PendingDirectory, StoredNode};
use crate::text::{
    chars_of, has_prefix, lower_hex_string, normalize_path, push_str, spec_lower_hex, spec_normalize_path,
    starts_with_chars, string_from_chars, zero_pad, zero_padded,
};

verus! {

/// The FNV-1a 64-bit offset basis.
pub open spec fn fnv_offset() -> u64 {
    0xcbf29ce484222325
}

/// The FNV-1a 64-bit prime.
pub open spec fn fnv_prime() -> u64 {
    0x100000001b3
}

/// FNV-1a over `bytes`: start from the offset basis, and for each byte
/// xor it in and multiply by the prime, modulo 2^64.
pub open spec fn spec_fnv1a64(bytes: Seq<u8>) -> u64
    decreases bytes.len(),
{
    if bytes.len() == 0 {
        fnv_offset()
    } else {
        (spec_fnv1a64(bytes.drop_last()) ^ (bytes.last() as u64)).wrapping_mul(fnv_prime())
    }
}

/// The 64-bit FNV-1a hash of `bytes`.
pub fn fnv1a64(bytes: &[u8]) -> (h: u64)
    ensures
        h == spec_fnv1a64(bytes@),
{
    let mut hash: u64 = 0xcbf29ce484222325;
    let mut i: usize = 0;
    while i < bytes.len()
        invariant
            i <= bytes@.len(),
            hash == spec_fnv1a64(bytes@.subrange(0, i as int)),
        decreases bytes@.len() - i,
    {
        proof {
            let next = bytes@.subrange(0, (i + 1) as int);
            assert(next.drop_last() =~= bytes@.subrange(0, i as int));
            assert(next.last() == bytes@[i as int]);
        }
        hash = (hash ^ (bytes[i] as u64)).wrapping_mul(0x100000001b3);
        i = i + 1;
    }
    proof {
        assert(bytes@.subrange(0, bytes@.len() as int) =~= bytes@);
    }
    hash
}

/// The file name of a project's index database: the FNV-1a hash of the
/// project root's path key as sixteen lower-case hex digits, then `.sqlite3`.
pub open spec fn spec_database_file_name(root_key: Seq<u8>) -> Seq<char> {
    zero_pad(spec_lower_hex(spec_fnv1a64(root_key) as nat), 16) + ".sqlite3"@
}

/// The file name of a project's index database; see `spec_database_file_name`.
pub fn database_file_name(root_key: &[u8]) -> (name: String)
    ensures
        name@ == spec_database_file_name(root_key@),
{
    let hash = fnv1a64(root_key);
    let mut name = zero_padded(lower_hex_string(hash as u128), 16);
    push_str(&mut name, ".sqlite3");
    name
}

} // verus!

verus! {

/// How the indexer runs.
#[derive(Debug, Clone)]
pub struct IndexOptions {
    pub worker_count: usize,
    pub queue_capacity: usize,
    pub visible_node_limit: usize,
    pub watch: bool,
}

impl IndexOptions {
    /// The default options for a machine that reports `available` threads
    /// of parallelism (`None` where it cannot tell): that many workers,
    /// assumed four when unknown and kept between two and sixteen, a queue of
    /// four tasks per worker, ten thousand visible nodes, and watching on.
    pub fn from_parallelism(available: Option<usize>) -> (o: Self)
        ensures
            o.worker_count == clamp_workers(match available {
                Some(n) => n as int,
                None => 4,
            }),
            o.queue_capacity == o.worker_count * 4,
            o.visible_node_limit == 10_000,
            o.watch,
    {
        let reported = match available {
            Some(n) => n,
            None => 4,
        };
        let workers = if reported < 2 {
            2
        } else if reported > 16 {
            16
        } else {
            reported
        };
        IndexOptions { worker_count: workers, queue_capacity: workers * 4, visible_node_limit: 10_000, watch: true }
    }
}

/// `n` kept between two and sixteen.
pub open spec fn clamp_workers(n: int) -> int {
    if n < 2 { 2 } else if n > 16 { 16 } else { n }
}

/// Where an indexing run stands.
#[derive(Debug, Clone, Copy, PartialEq, Eq, Structural)]
pub enum IndexPhase {
    Starting,
    Scanning,
    Paused,
    ReplayingChanges,
    Watching,
    Complete,
    CompleteWithWarnings,
    Cancelled,
    Failed,
}

/// A progress report of an indexing run.
#[derive(Debug, Clone, PartialEq, Eq, Structural)]
pub struct IndexProgress {
    pub phase: IndexPhase,
    pub generation: i64,
    pub indexed_nodes: usize,
    pub pending_directories: usize,
    pub issue_count: usize,
    pub resumed: bool,
}

/// The counts a progress report is made of: indexed nodes, issues, and
/// pending directories, as the index database gives them.
pub open spec fn spec_progress(
    phase: IndexPhase,
    generation: i64,
    counts: Option<(usize, usize, usize)>,
    resumed: bool,
) -> IndexProgress {
    let (indexed, issues, pending) = match counts {
        Some(c) => c,
        None => (0usize, 0usize, 0usize),
    };
    IndexProgress {
        phase,
        generation,
        indexed_nodes: indexed,
        pending_directories: pending,
        issue_count: issues,
        resumed,
    }
}

/// The progress report for `phase`; counts that could not be read are zero.
pub fn progress_report(
    phase: IndexPhase,
    generation: i64,
    counts: Option<(usize, usize, usize)>,
    resumed: bool,
) -> (p: IndexProgress)
    ensures
        p == spec_progress(phase, generation, counts, resumed),
{
    let (indexed, issues, pending) = match counts {
        Some(c) => c,
        None => (0, 0, 0),
    };
    IndexProgress {
        phase,
        generation,
        indexed_nodes: indexed,
        pending_directories: pending,
        issue_count: issues,
        resumed,
    }
}

/// The phase reported once a scan has been committed: complete, or
/// complete with warnings where issues were recorded.
pub fn completion_phase(issue_count: usize) -> (phase: IndexPhase)
    ensures
        phase == (if issue_count == 0 { IndexPhase::Complete } else { IndexPhase::CompleteWithWarnings }),
{
    if issue_count == 0 {
        IndexPhase::Complete
    } else {
        IndexPhase::CompleteWithWarnings
    }
}

/// A path as the indexer handles it: its display form and its components,
/// each as the bytes the platform encodes it with.
#[derive(Debug, Clone)]
pub struct IndexPath {
    pub display: String,
    pub components: Vec<Vec<u8>>,
}

/// The components of a path as byte sequences.
pub open spec fn component_seqs(components: Seq<Vec<u8>>) -> Seq<Seq<u8>> {
    components.map_values(|c: Vec<u8>| c@)
}

impl IndexPath {
    /// The components of this path as byte sequences.
    pub open spec fn parts(self) -> Seq<Seq<u8>> {
        component_seqs(self.components@)
    }
}

/// `base` is a leading run of whole components of `path`.
pub open spec fn starts_with_components(path: Seq<Seq<u8>>, base: Seq<Seq<u8>>) -> bool {
    base.len() <= path.len() && path.subrange(0, base.len() as int) == base
}

/// Whether two byte strings are equal.
pub fn bytes_equal(a: &Vec<u8>, b: &Vec<u8>) -> (r: bool)
    ensures
        r == (a@ == b@),
{
    if a.len() != b.len() {
        return false;
    }
    let mut i: usize = 0;
    while i < a.len()
        invariant
            a@.len() == b@.len(),
            i <= a@.len(),
            forall|j: int| 0 <= j < i ==> a@[j] == b@[j],
        decreases a@.len() - i,
    {
        if a[i] != b[i] {
            return false;
        }
        i = i + 1;
    }
    proof {
        assert(a@ =~= b@);
    }
    true
}

/// Whether `path` starts with the whole components of `base`.
pub fn path_starts_with(path: &IndexPath, base: &IndexPath) -> (r: bool)
    ensures
        r == starts_with_components(path.parts(), base.parts()),
{
    let n = base.components.len();
    if n > path.components.len() {
        return false;
    }
    let mut i: usize = 0;
    while i < n
        invariant
            n == base.components@.len(),
            n <= path.components@.len(),
            i <= n,
            forall|j: int| 0 <= j < i ==> path.parts()[j] == base.parts()[j],
        decreases n - i,
    {
        if !bytes_equal(&path.components[i], &base.components[i]) {
            proof {
                assert(path.parts().subrange(0, n as int)[i as int] != base.parts()[i as int]);
            }
            return false;
        }
        i = i + 1;
    }
    proof {
        assert(path.parts().subrange(0, n as int) =~= base.parts());
    }
    true
}

/// A copy of a byte string.
pub fn copy_bytes(v: &Vec<u8>) -> (r: Vec<u8>)
    ensures
        r@ == v@,
{
    let r = v.clone();
    proof {
        assert(r@ =~= v@);
    }
    r
}

} // verus!

verus! {

impl IndexPath {
    /// The path whose lossy text is `text` and whose components are
    /// `components`; its display form is `text` normalized.
    pub fn from_parts(text: &str, components: Vec<Vec<u8>>) -> (p: IndexPath)
        ensures
            p.display@ == spec_normalize_path(text@),
            p.components == components,
    {
        IndexPath { display: normalize_path(text), components }
    }
}

/// A directory waiting to be scanned.
#[derive(Debug)]
pub struct DirectoryTask {
    pub path: IndexPath,
    pub path_key: Vec<u8>,
    pub depth: usize,
    pub priority: i64,
}

/// `task` with its priority set to `priority`.
pub open spec fn with_priority(task: DirectoryTask, priority: i64) -> DirectoryTask {
    DirectoryTask { priority: priority, ..task }
}

/// The persisted form of a queued directory: its key, display path, depth
/// and priority.
pub open spec fn pending_matches(p: PendingDirectory, task: DirectoryTask) -> bool {
    &&& p.path_key@ == task.path_key@
    &&& p.display_path@ == task.path.display@
    &&& p.depth == task.depth
    &&& p.priority == task.priority
}

/// The persisted form of a queued directory.
pub fn pending_from_task(task: &DirectoryTask) -> (p: PendingDirectory)
    ensures
        pending_matches(p, *task),
{
    PendingDirectory {
        path_key: copy_bytes(&task.path_key),
        display_path: task.path.display.clone(),
        depth: task.depth,
        priority: task.priority,
    }
}

/// A queued directory is related to a prioritized path when either lies
/// inside the other (whole components).
pub open spec fn related(path: IndexPath, task: DirectoryTask) -> bool {
    starts_with_components(path.parts(), task.path.parts())
        || starts_with_components(task.path.parts(), path.parts())
}

/// The queued directories related to `path`, in order, raised to priority
/// one hundred.
pub open spec fn promoted(path: IndexPath, queue: Seq<DirectoryTask>) -> Seq<DirectoryTask>
    decreases queue.len(),
{
    if queue.len() == 0 {
        Seq::empty()
    } else if related(path, queue.last()) {
        promoted(path, queue.drop_last()).push(with_priority(queue.last(), 100))
    } else {
        promoted(path, queue.drop_last())
    }
}

/// The queued directories not related to `path`, in order.
pub open spec fn retained(path: IndexPath, queue: Seq<DirectoryTask>) -> Seq<DirectoryTask>
    decreases queue.len(),
{
    if queue.len() == 0 {
        Seq::empty()
    } else if related(path, queue.last()) {
        retained(path, queue.drop_last())
    } else {
        retained(path, queue.drop_last()).push(queue.last())
    }
}

/// Moves every normal-priority directory related to `path` to the end of
/// the high-priority queue, with priority one hundred; the others keep
/// their order.
pub fn promote_in_memory(path: &IndexPath, high: &mut Vec<DirectoryTask>, normal: &mut Vec<DirectoryTask>)
    ensures
        final(high)@ == old(high)@ + promoted(*path, old(normal)@),
        final(normal)@ == retained(*path, old(normal)@),
{
    let ghost orig = normal@;
    let ghost high0 = high@;
    let mut kept: Vec<DirectoryTask> = Vec::new();
    let mut taken: usize = 0;
    let total: usize = normal.len();
    while normal.len() > 0
        invariant
            taken + normal@.len() == orig.len(),
            orig.len() == total,
            normal@ == orig.subrange(taken as int, orig.len() as int),
            kept@ == retained(*path, orig.subrange(0, taken as int)),
            high@ == high0 + promoted(*path, orig.subrange(0, taken as int)),
        decreases normal@.len(),
    {
        let ghost seen = orig.subrange(0, taken as int);
        let mut task = normal.remove(0);
        proof {
            let next = orig.subrange(0, (taken + 1) as int);
            assert(next.drop_last() =~= seen);
            assert(next.last() == task);
            assert(normal@ =~= orig.subrange((taken + 1) as int, orig.len() as int));
        }
        if path_starts_with(path, &task.path) || path_starts_with(&task.path, path) {
            let ghost before = task;
            task.priority = 100;
            proof {
                assert(task == with_priority(before, 100));
            }
            high.push(task);
            proof {
                assert(high@ =~= high0 + promoted(*path, orig.subrange(0, (taken + 1) as int)));
            }
        } else {
            kept.push(task);
        }
        taken = taken + 1;
    }
    proof {
        assert(orig.subrange(0, taken as int) =~= orig);
    }
    *normal = kept;
}

} // verus!

verus! {

/// A request from the user of a running index.
#[derive(Debug)]
pub enum IndexCommand {
    Pause,
    Resume,
    Cancel,
    Prioritize(IndexPath),
    Shutdown,
}

/// How a scan ended.
#[derive(Debug, Clone, Copy, PartialEq, Eq, Structural)]
pub enum ScanOutcome {
    Complete,
    Cancelled,
    Shutdown,
}

/// What the caller does after a command reached the scan.
#[derive(Debug)]
pub enum ScanAction {
    /// Persist the pause and report the paused phase.
    Paused,
    /// Report the scanning phase again.
    Resumed,
    /// Stop the workers; the scan ended this way.
    Finish(ScanOutcome),
    /// Raise the persisted priority of directories at and around this
    /// display path.
    Prioritized(String),
}

/// The key is one of `keys`.
pub open spec fn has_key(keys: Seq<Vec<u8>>, k: Seq<u8>) -> bool {
    exists|i: int| 0 <= i < keys.len() && #[trigger] keys[i]@ == k
}

/// The set of keys held in `keys`.
pub open spec fn key_set(keys: Seq<Vec<u8>>) -> Set<Seq<u8>> {
    Set::new(|k: Seq<u8>| has_key(keys, k))
}

/// The set of path keys of `tasks`.
pub open spec fn task_keys(tasks: Seq<DirectoryTask>) -> Set<Seq<u8>> {
    Set::new(|k: Seq<u8>| exists|i: int| 0 <= i < tasks.len() && #[trigger] tasks[i].path_key@ == k)
}

/// The directories of a finished scan batch that are queued anew, in
/// order, at priority zero: those whose key is neither in `seen` nor taken
/// by an earlier directory of the batch.
pub open spec fn fresh(dirs: Seq<DirectoryTask>, seen: Set<Seq<u8>>) -> Seq<DirectoryTask>
    decreases dirs.len(),
{
    if dirs.len() == 0 {
        Seq::empty()
    } else if seen.contains(dirs.last().path_key@) || task_keys(dirs.drop_last()).contains(dirs.last().path_key@) {
        fresh(dirs.drop_last(), seen)
    } else {
        fresh(dirs.drop_last(), seen).push(with_priority(dirs.last(), 0))
    }
}

/// The persisted directories that resume at high priority.
pub open spec fn resumed_high(tasks: Seq<DirectoryTask>) -> Seq<DirectoryTask>
    decreases tasks.len(),
{
    if tasks.len() == 0 {
        Seq::empty()
    } else if tasks.last().priority > 0 {
        resumed_high(tasks.drop_last()).push(tasks.last())
    } else {
        resumed_high(tasks.drop_last())
    }
}

/// The persisted directories that resume at normal priority.
pub open spec fn resumed_normal(tasks: Seq<DirectoryTask>) -> Seq<DirectoryTask>
    decreases tasks.len(),
{
    if tasks.len() == 0 {
        Seq::empty()
    } else if tasks.last().priority > 0 {
        resumed_normal(tasks.drop_last())
    } else {
        resumed_normal(tasks.drop_last()).push(tasks.last())
    }
}

/// Whether `k` is one of `keys`.
fn contains_key(keys: &Vec<Vec<u8>>, k: &Vec<u8>) -> (r: bool)
    ensures
        r == has_key(keys@, k@),
{
    let mut i: usize = 0;
    while i < keys.len()
        invariant
            i <= keys@.len(),
            forall|j: int| 0 <= j < i ==> keys@[j]@ != k@,
        decreases keys@.len() - i,
    {
        if bytes_equal(&keys[i], k) {
            return true;
        }
        i = i + 1;
    }
    false
}

/// Takes every copy of `k` out of `keys`.
fn remove_key(keys: &mut Vec<Vec<u8>>, k: &Vec<u8>)
    ensures
        key_set(final(keys)@) == key_set(old(keys)@).remove(k@),
{
    let ghost orig = keys@;
    let mut kept: Vec<Vec<u8>> = Vec::new();
    let mut i: usize = 0;
    while i < keys.len()
        invariant
            keys@ == orig,
            i <= orig.len(),
            forall|j: int| 0 <= j < kept@.len() ==> #[trigger] kept@[j]@ != k@,
            forall|j: int| 0 <= j < kept@.len() ==> has_key(orig.subrange(0, i as int), #[trigger] kept@[j]@),
            forall|j: int| 0 <= j < i && orig[j]@ != k@ ==> has_key(kept@, #[trigger] orig[j]@),
        decreases orig.len() - i,
    {
        let ghost kept0 = kept@;
        if !bytes_equal(&keys[i], k) {
            let copy = copy_bytes(&keys[i]);
            kept.push(copy);
            proof {
                assert(kept@[kept@.len() - 1]@ == orig[i as int]@);
            }
        }
        proof {
            assert forall|j: int| 0 <= j < kept@.len() implies has_key(orig.subrange(0, i + 1), #[trigger] kept@[j]@) by {
                if j < kept0.len() {
                    assert(kept@[j] == kept0[j]);
                    let w = choose|w: int| 0 <= w < i && #[trigger] orig.subrange(0, i as int)[w]@ == kept@[j]@;
                    assert(orig.subrange(0, i + 1)[w] == orig.subrange(0, i as int)[w]);
                } else {
                    assert(orig.subrange(0, i + 1)[i as int] == orig[i as int]);
                }
            }
            assert forall|j: int| 0 <= j < i + 1 && orig[j]@ != k@ implies has_key(kept@, #[trigger] orig[j]@) by {
                if j == i {
                    assert(kept@[kept@.len() - 1]@ == orig[i as int]@);
                } else {
                    let w = choose|w: int| 0 <= w < kept0.len() && #[trigger] kept0[w]@ == orig[j]@;
                    assert(kept@[w] == kept0[w]);
                }
            }
        }
        i = i + 1;
    }
    proof {
        assert(orig.subrange(0, orig.len() as int) =~= orig);
        assert forall|x: Seq<u8>| key_set(kept@).contains(x) == key_set(orig).remove(k@).contains(x) by {
            if key_set(kept@).contains(x) {
                let w = choose|w: int| 0 <= w < kept@.len() && #[trigger] kept@[w]@ == x;
                assert(kept@[w]@ == x);
            }
            if key_set(orig).remove(k@).contains(x) {
                let w = choose|w: int| 0 <= w < orig.len() && #[trigger] orig[w]@ == x;
                assert(orig[w]@ == x);
            }
        }
        assert(key_set(kept@) =~= key_set(orig).remove(k@));
    }
    *keys = kept;
}

/// The order in which directories are handed to the scan workers, and
/// which directories are queued: the decisions of a running scan.
pub struct ScanScheduler {
    high: Vec<DirectoryTask>,
    normal: Vec<DirectoryTask>,
    queued: Vec<Vec<u8>>,
    active: usize,
    paused: bool,
    worker_limit: usize,
}

impl ScanScheduler {
    /// Directories waiting at high priority, next first.
    pub closed spec fn high_queue(&self) -> Seq<DirectoryTask> {
        self.high@
    }

    /// Directories waiting at normal priority, next first.
    pub closed spec fn normal_queue(&self) -> Seq<DirectoryTask> {
        self.normal@
    }

    /// Keys of the directories that are queued or being scanned.
    pub closed spec fn queued_keys(&self) -> Set<Seq<u8>> {
        key_set(self.queued@)
    }

    /// Directories handed to workers and not yet reported back.
    pub closed spec fn active_count(&self) -> nat {
        self.active as nat
    }

    /// Whether handing out work is paused.
    pub closed spec fn is_paused(&self) -> bool {
        self.paused
    }

    /// How many directories may be scanned at once.
    pub closed spec fn limit(&self) -> nat {
        self.worker_limit as nat
    }

    /// A scheduler for `worker_count` workers (at least one). With nothing
    /// persisted it starts from `root`, and hands back the row to persist
    /// for it; otherwise it resumes the persisted directories, those with a
    /// positive priority first.
    pub fn new(worker_count: usize, persisted: Vec<DirectoryTask>, root: DirectoryTask) -> (r: (ScanScheduler, Vec<PendingDirectory>))
        ensures
            r.0.limit() == (if worker_count == 0 { 1 } else { worker_count as nat }),
            r.0.active_count() == 0,
            !r.0.is_paused(),
            persisted@.len() == 0 ==> {
                &&& r.0.high_queue() == Seq::<DirectoryTask>::empty()
                &&& r.0.normal_queue() == seq![root]
                &&& r.0.queued_keys() == Set::<Seq<u8>>::empty().insert(root.path_key@)
                &&& r.1@.len() == 1
                &&& pending_matches(r.1@[0], root)
            },
            persisted@.len() > 0 ==> {
                &&& r.0.high_queue() == resumed_high(persisted@)
                &&& r.0.normal_queue() == resumed_normal(persisted@)
                &&& r.0.queued_keys() == task_keys(persisted@)
                &&& r.1@.len() == 0
            },
    {
        let limit = if worker_count == 0 { 1 } else { worker_count };
        let mut pending: Vec<PendingDirectory> = Vec::new();
        let mut high: Vec<DirectoryTask> = Vec::new();
        let mut normal: Vec<DirectoryTask> = Vec::new();
        let mut queued: Vec<Vec<u8>> = Vec::new();
        if persisted.len() == 0 {
            pending.push(pending_from_task(&root));
            queued.push(copy_bytes(&root.path_key));
            normal.push(root);
            proof {
                assert(normal@ =~= seq![root]);
                assert forall|x: Seq<u8>| key_set(queued@).contains(x) == Set::<Seq<u8>>::empty().insert(root.path_key@).contains(x) by {
                    if x == root.path_key@ {
                        assert(queued@[0]@ == x);
                    }
                }
                assert(key_set(queued@) =~= Set::<Seq<u8>>::empty().insert(root.path_key@));
            }
        } else {
            let ghost orig = persisted@;
            let mut rest = persisted;
            let mut taken: usize = 0;
            let total: usize = rest.len();
            while rest.len() > 0
                invariant
                    taken + rest@.len() == orig.len(),
                    orig.len() == total,
                    rest@ == orig.subrange(taken as int, orig.len() as int),
                    high@ == resumed_high(orig.subrange(0, taken as int)),
                    normal@ == resumed_normal(orig.subrange(0, taken as int)),
                    key_set(queued@) == task_keys(orig.subrange(0, taken as int)),
                decreases rest@.len(),
            {
                let ghost seen = orig.subrange(0, taken as int);
                let ghost before = queued@;
                let task = rest.remove(0);
                proof {
                    let next = orig.subrange(0, (taken + 1) as int);
                    assert(next.drop_last() =~= seen);
                    assert(next.last() == task);
                    assert(rest@ =~= orig.subrange((taken + 1) as int, orig.len() as int));
                }
                queued.push(copy_bytes(&task.path_key));
                proof {
                    let next = orig.subrange(0, (taken + 1) as int);
                    assert forall|x: Seq<u8>| key_set(queued@).contains(x) == task_keys(next).contains(x) by {
                        if key_set(queued@).contains(x) {
                            let w = choose|w: int| 0 <= w < queued@.len() && #[trigger] queued@[w]@ == x;
                            if w < before.len() {
                                assert(before[w]@ == x);
                                assert(key_set(before).contains(x));
                                let v = choose|v: int| 0 <= v < seen.len() && #[trigger] seen[v].path_key@ == x;
                                assert(next[v] == seen[v]);
                            } else {
                                assert(next[taken as int].path_key@ == x);
                            }
                        }
                        if task_keys(next).contains(x) {
                            let v = choose|v: int| 0 <= v < next.len() && #[trigger] next[v].path_key@ == x;
                            if v < taken {
                                assert(seen[v] == next[v]);
                                assert(task_keys(seen).contains(x));
                                let w = choose|w: int| 0 <= w < before.len() && #[trigger] before[w]@ == x;
                                assert(queued@[w] == before[w]);
                            } else {
                                assert(queued@[before.len() as int]@ == x);
                            }
                        }
                    }
                    assert(key_set(queued@) =~= task_keys(next));
                }
                if task.priority > 0 {
                    high.push(task);
                } else {
                    normal.push(task);
                }
                taken = taken + 1;
            }
            proof {
                assert(orig.subrange(0, taken as int) =~= orig);
            }
        }
        (ScanScheduler { high, normal, queued, active: 0, paused: false, worker_limit: limit }, pending)
    }
}

} // verus!

verus! {

/// Whether handing out work is paused after `commands`, from `paused`: a
/// pause stops it, a resume restarts it, and no other command touches it.
pub open spec fn paused_after(paused: bool, commands: Seq<IndexCommand>) -> bool
    decreases commands.len(),
{
    if commands.len() == 0 {
        paused
    } else {
        match commands.last() {
            IndexCommand::Pause => true,
            IndexCommand::Resume => false,
            _ => paused_after(paused, commands.drop_last()),
        }
    }
}

/// A pause holds until a resume: a paused scheduler stays paused through any
/// run of commands without a resume (and while paused, `next_task` hands out
/// nothing); a resume at the end of a run always restarts it.
pub proof fn law_pause_holds_until_resume(paused: bool, commands: Seq<IndexCommand>)
    ensures
        paused && (forall|i: int| 0 <= i < commands.len() ==> !(#[trigger] commands[i] is Resume))
            ==> paused_after(paused, commands),
        commands.len() > 0 && commands.last() is Resume ==> !paused_after(paused, commands),
    decreases commands.len(),
{
    if commands.len() > 0 {
        let rest = commands.drop_last();
        law_pause_holds_until_resume(paused, rest);
        if paused && (forall|i: int| 0 <= i < commands.len() ==> !(#[trigger] commands[i] is Resume)) {
            assert forall|i: int| 0 <= i < rest.len() implies !(#[trigger] rest[i] is Resume) by {
                assert(rest[i] == commands[i]);
            }
        }
    }
}

impl ScanScheduler {
    /// The next directory to hand to a worker: none while paused or while
    /// every worker is busy; else the first high-priority one, else the
    /// first normal one. It counts as active only once `task_sent` is
    /// called.
    pub fn next_task(&mut self) -> (t: Option<DirectoryTask>)
        ensures
            final(self).active_count() == old(self).active_count(),
            final(self).is_paused() == old(self).is_paused(),
            final(self).limit() == old(self).limit(),
            final(self).queued_keys() == old(self).queued_keys(),
            old(self).is_paused() || old(self).active_count() >= old(self).limit() ==> {
                &&& t is None
                &&& final(self).high_queue() == old(self).high_queue()
                &&& final(self).normal_queue() == old(self).normal_queue()
            },
            !old(self).is_paused() && old(self).active_count() < old(self).limit() ==> {
                if old(self).high_queue().len() > 0 {
                    &&& t == Some(old(self).high_queue()[0])
                    &&& final(self).high_queue() == old(self).high_queue().drop_first()
                    &&& final(self).normal_queue() == old(self).normal_queue()
                } else if old(self).normal_queue().len() > 0 {
                    &&& t == Some(old(self).normal_queue()[0])
                    &&& final(self).high_queue() == old(self).high_queue()
                    &&& final(self).normal_queue() == old(self).normal_queue().drop_first()
                } else {
                    &&& t is None
                    &&& final(self).high_queue() == old(self).high_queue()
                    &&& final(self).normal_queue() == old(self).normal_queue()
                }
            },
    {
        if self.paused || self.active >= self.worker_limit {
            return None;
        }
        if self.high.len() > 0 {
            let t = self.high.remove(0);
            proof {
                assert(self.high@ =~= old(self).high@.drop_first());
            }
            Some(t)
        } else if self.normal.len() > 0 {
            let t = self.normal.remove(0);
            proof {
                assert(self.normal@ =~= old(self).normal@.drop_first());
            }
            Some(t)
        } else {
            None
        }
    }

    /// Counts a directory handed out by `next_task` as being scanned.
    pub fn task_sent(&mut self)
        requires
            old(self).active_count() < old(self).limit(),
        ensures
            final(self).active_count() == old(self).active_count() + 1,
            final(self).high_queue() == old(self).high_queue(),
            final(self).normal_queue() == old(self).normal_queue(),
            final(self).queued_keys() == old(self).queued_keys(),
            final(self).is_paused() == old(self).is_paused(),
            final(self).limit() == old(self).limit(),
    {
        self.active = self.active + 1;
    }

    /// Whether the scan is over: nothing being scanned and nothing waiting.
    pub fn is_finished(&self) -> (done: bool)
        ensures
            done == (self.active_count() == 0 && self.high_queue().len() == 0 && self.normal_queue().len() == 0),
    {
        self.active == 0 && self.high.len() == 0 && self.normal.len() == 0
    }

    /// Applies a command that arrived while scanning. Pause and resume
    /// switch handing out work; cancel and shutdown end the scan; a
    /// prioritized path raises the waiting directories at and around it.
    pub fn on_command(&mut self, command: IndexCommand) -> (a: ScanAction)
        ensures
            final(self).is_paused() == paused_after(old(self).is_paused(), seq![command]),
            final(self).active_count() == old(self).active_count(),
            final(self).limit() == old(self).limit(),
            final(self).queued_keys() == old(self).queued_keys(),
            match command {
                IndexCommand::Pause => a is Paused && final(self).is_paused()
                    && final(self).high_queue() == old(self).high_queue()
                    && final(self).normal_queue() == old(self).normal_queue(),
                IndexCommand::Resume => a is Resumed && !final(self).is_paused()
                    && final(self).high_queue() == old(self).high_queue()
                    && final(self).normal_queue() == old(self).normal_queue(),
                IndexCommand::Cancel => a == ScanAction::Finish(ScanOutcome::Cancelled)
                    && final(self).is_paused() == old(self).is_paused()
                    && final(self).high_queue() == old(self).high_queue()
                    && final(self).normal_queue() == old(self).normal_queue(),
                IndexCommand::Shutdown => a == ScanAction::Finish(ScanOutcome::Shutdown)
                    && final(self).is_paused() == old(self).is_paused()
                    && final(self).high_queue() == old(self).high_queue()
                    && final(self).normal_queue() == old(self).normal_queue(),
                IndexCommand::Prioritize(path) => (a matches ScanAction::Prioritized(d) && d@ == path.display@)
                    && final(self).is_paused() == old(self).is_paused()
                    && final(self).high_queue() == old(self).high_queue() + promoted(path, old(self).normal_queue())
                    && final(self).normal_queue() == retained(path, old(self).normal_queue()),
            },
    {
        proof {
            let cmds = seq![command];
            assert(cmds.len() == 1 && cmds.last() == command);
            assert(cmds.drop_last() =~= Seq::<IndexCommand>::empty());
            assert(paused_after(self.paused, Seq::<IndexCommand>::empty()) == self.paused);
            assert(paused_after(self.paused, cmds) == match command {
                IndexCommand::Pause => true,
                IndexCommand::Resume => false,
                _ => self.paused,
            });
        }
        match command {
            IndexCommand::Pause => {
                self.paused = true;
                ScanAction::Paused
            },
            IndexCommand::Resume => {
                self.paused = false;
                ScanAction::Resumed
            },
            IndexCommand::Cancel => ScanAction::Finish(ScanOutcome::Cancelled),
            IndexCommand::Shutdown => ScanAction::Finish(ScanOutcome::Shutdown),
            IndexCommand::Prioritize(path) => {
                promote_in_memory(&path, &mut self.high, &mut self.normal);
                ScanAction::Prioritized(path.display)
            },
        }
    }

    /// Takes in the directories found by a finished scan of the directory
    /// keyed `finished`: it leaves the active set, and every found
    /// directory not queued yet is queued at normal priority. Returns the
    /// rows to persist for the newly queued directories, in order.
    pub fn on_result(&mut self, finished: &Vec<u8>, directories: Vec<DirectoryTask>) -> (pending: Vec<PendingDirectory>)
        ensures
            final(self).active_count() == (if old(self).active_count() > 0 { old(self).active_count() - 1 } else { 0 }),
            final(self).is_paused() == old(self).is_paused(),
            final(self).limit() == old(self).limit(),
            final(self).high_queue() == old(self).high_queue(),
            final(self).normal_queue() == old(self).normal_queue()
                + fresh(directories@, old(self).queued_keys().remove(finished@)),
            final(self).queued_keys() == old(self).queued_keys().remove(finished@).union(task_keys(directories@)),
            pending@.len() == fresh(directories@, old(self).queued_keys().remove(finished@)).len(),
            forall|i: int| 0 <= i < pending@.len() ==> pending_matches(#[trigger] pending@[i],
                fresh(directories@, old(self).queued_keys().remove(finished@))[i]),
            task_keys(final(self).normal_queue().skip(old(self).normal_queue().len() as int))
                == task_keys(directories@).difference(old(self).queued_keys().remove(finished@)),
            forall|k: Seq<u8>| #[trigger] task_keys(directories@).contains(k) && !old(self).queued_keys().remove(finished@).contains(k)
                ==> exists|i: int| 0 <= i < pending@.len() && #[trigger] pending@[i].path_key@ == k,
            pending@.len() == task_keys(directories@).difference(old(self).queued_keys().remove(finished@)).len(),
    {
        self.active = if self.active > 0 { self.active - 1 } else { 0 };
        remove_key(&mut self.queued, finished);
        let ghost base = key_set(self.queued@);
        let ghost normal0 = self.normal@;
        let ghost orig = directories@;
        let mut rest = directories;
        let mut pending: Vec<PendingDirectory> = Vec::new();
        let mut taken: usize = 0;
        let total: usize = rest.len();
        while rest.len() > 0
            invariant
                taken + rest@.len() == orig.len(),
                orig.len() == total,
                rest@ == orig.subrange(taken as int, orig.len() as int),
                key_set(self.queued@) == base.union(task_keys(orig.subrange(0, taken as int))),
                self.normal@ == normal0 + fresh(orig.subrange(0, taken as int), base),
                pending@.len() == fresh(orig.subrange(0, taken as int), base).len(),
                forall|i: int| 0 <= i < pending@.len() ==> pending_matches(#[trigger] pending@[i],
                    fresh(orig.subrange(0, taken as int), base)[i]),
                self.active == old(self).active - (if old(self).active > 0 { 1int } else { 0 }),
                self.paused == old(self).paused,
                self.worker_limit == old(self).worker_limit,
                self.high == old(self).high,
            decreases rest@.len(),
        {
            let ghost seen = orig.subrange(0, taken as int);
            let ghost before = self.queued@;
            let ghost pending0 = pending@;
            let mut dir = rest.remove(0);
            let ghost next = orig.subrange(0, (taken + 1) as int);
            proof {
                assert(next.drop_last() =~= seen);
                assert(next.last() == dir);
                assert(rest@ =~= orig.subrange((taken + 1) as int, orig.len() as int));
                assert(task_keys(next) =~= task_keys(seen).insert(dir.path_key@)) by {
                    assert forall|x: Seq<u8>| task_keys(next).contains(x) implies task_keys(seen).insert(dir.path_key@).contains(x) by {
                        let v = choose|v: int| 0 <= v < next.len() && #[trigger] next[v].path_key@ == x;
                        if v < taken {
                            assert(seen[v] == next[v]);
                        }
                    }
                    assert forall|x: Seq<u8>| task_keys(seen).insert(dir.path_key@).contains(x) implies task_keys(next).contains(x) by {
                        if x == dir.path_key@ {
                            assert(next[taken as int].path_key@ == x);
                        } else {
                            let v = choose|v: int| 0 <= v < seen.len() && #[trigger] seen[v].path_key@ == x;
                            assert(next[v] == seen[v]);
                        }
                    }
                }
            }
            if !contains_key(&self.queued, &dir.path_key) {
                proof {
                    assert(!key_set(self.queued@).contains(dir.path_key@));
                    assert(!base.union(task_keys(seen)).contains(dir.path_key@));
                    assert(!base.contains(dir.path_key@));
                    assert(!task_keys(seen).contains(dir.path_key@));
                }
                self.queued.push(copy_bytes(&dir.path_key));
                let ghost old_dir = dir;
                dir.priority = 0;
                proof {
                    assert(dir == with_priority(old_dir, 0));
                    assert forall|x: Seq<u8>| key_set(self.queued@).contains(x) == key_set(before).insert(dir.path_key@).contains(x) by {
                        if key_set(self.queued@).contains(x) {
                            let w = choose|w: int| 0 <= w < self.queued@.len() && #[trigger] self.queued@[w]@ == x;
                            if w < before.len() {
                                assert(before[w]@ == x);
                            }
                        }
                        if key_set(before).contains(x) {
                            let w = choose|w: int| 0 <= w < before.len() && #[trigger] before[w]@ == x;
                            assert(self.queued@[w] == before[w]);
                        }
                        if x == dir.path_key@ {
                            assert(self.queued@[before.len() as int]@ == x);
                        }
                    }
                    assert(key_set(self.queued@) =~= key_set(before).insert(dir.path_key@));
                }
                pending.push(pending_from_task(&dir));
                self.normal.push(dir);
                proof {
                    assert(fresh(next, base) == fresh(seen, base).push(dir));
                    assert(self.normal@ =~= normal0 + fresh(next, base));
                    assert forall|i: int| 0 <= i < pending@.len() implies pending_matches(#[trigger] pending@[i], fresh(next, base)[i]) by {
                        if i < pending0.len() {
                            assert(pending@[i] == pending0[i]);
                        }
                    }
                }
            } else {
                proof {
                    assert(key_set(self.queued@).contains(dir.path_key@));
                    assert(base.union(task_keys(seen)).contains(dir.path_key@));
                    assert(base.contains(dir.path_key@) || task_keys(seen).contains(dir.path_key@));
                    assert(fresh(next, base) == fresh(seen, base));
                }
            }
            proof {
                assert(key_set(self.queued@) =~= base.union(task_keys(next)));
            }
            taken = taken + 1;
        }
        proof {
            assert(orig.subrange(0, taken as int) =~= orig);
            law_fresh_directories_are_all_queued(orig, base);
            assert(self.normal@.skip(normal0.len() as int) =~= fresh(orig, base));
            assert forall|k: Seq<u8>| #[trigger] task_keys(orig).contains(k) && !base.contains(k)
                implies exists|i: int| 0 <= i < pending@.len() && #[trigger] pending@[i].path_key@ == k by {
                assert(task_keys(fresh(orig, base)).contains(k));
                let i = choose|i: int| 0 <= i < fresh(orig, base).len() && #[trigger] fresh(orig, base)[i].path_key@ == k;
                assert(pending_matches(pending@[i], fresh(orig, base)[i]));
            }
        }
        pending
    }
}

} // verus!

verus! {

/// One indexed path, as it is written to the index database.
#[derive(Debug, Clone)]
pub struct IndexRecord {
    pub path_key: Vec<u8>,
    pub parent_path_key: Option<Vec<u8>>,
    pub display_path: String,
    pub display_name: String,
    pub kind: NodeKind,
    pub depth: usize,
    pub size_bytes: u64,
    pub modified_ns: Option<u128>,
    pub stable_id: Option<Vec<u8>>,
}

/// What the file system reported of a path, without following links.
#[derive(Debug, Clone)]
pub struct PathFacts {
    pub is_symlink: bool,
    pub is_dir: bool,
    pub is_file: bool,
    pub len: u64,
    pub modified_ns: Option<u128>,
    pub stable_id: Option<Vec<u8>>,
}

/// The kind of node that `facts` describe; a link is a link whatever it
/// points to.
pub open spec fn facts_kind(facts: PathFacts) -> NodeKind {
    spec_kind(EntryMetadata {
        is_symlink: facts.is_symlink,
        is_dir: facts.is_dir,
        is_file: facts.is_file,
        len: facts.len,
        modified_unix_ms: None,
    })
}

/// The bytes of an optional byte string.
pub open spec fn opt_bytes(v: Option<Vec<u8>>) -> Option<Seq<u8>> {
    match v {
        Some(b) => Some(b@),
        None => None,
    }
}

/// `r` is the record of the path keyed `key` (its parent keyed `parent`),
/// whose text is `text` and file name `name`, at `depth`, with `facts`: its
/// display path is the normalized text, its name the file name unless that
/// is missing or empty, its size the length of a regular file and zero
/// otherwise.
pub open spec fn record_is(
    r: IndexRecord,
    key: Seq<u8>,
    parent: Option<Seq<u8>>,
    text: Seq<char>,
    name: Option<Seq<char>>,
    depth: usize,
    facts: PathFacts,
) -> bool {
    &&& r.path_key@ == key
    &&& opt_bytes(r.parent_path_key) == parent
    &&& r.display_path@ == spec_normalize_path(text)
    &&& r.display_name@ == (match name {
        Some(n) => if n.len() > 0 { n } else { spec_normalize_path(text) },
        None => spec_normalize_path(text),
    })
    &&& r.kind == facts_kind(facts)
    &&& r.depth == depth
    &&& r.size_bytes == (if facts.is_file { facts.len } else { 0 })
    &&& r.modified_ns == facts.modified_ns
    &&& opt_bytes(r.stable_id) == opt_bytes(facts.stable_id)
}

/// A copy of an optional byte string.
fn copy_opt_bytes(v: &Option<Vec<u8>>) -> (r: Option<Vec<u8>>)
    ensures
        opt_bytes(r) == opt_bytes(*v),
{
    match v {
        Some(b) => Some(copy_bytes(b)),
        None => None,
    }
}

/// The record of a path; see `record_is`.
pub fn record_for_path(
    path_key: Vec<u8>,
    parent_path_key: Option<Vec<u8>>,
    text: &str,
    file_name: Option<&str>,
    depth: usize,
    facts: &PathFacts,
) -> (r: IndexRecord)
    ensures
        record_is(
            r,
            path_key@,
            opt_bytes(parent_path_key),
            text@,
            match file_name {
                Some(n) => Some(n@),
                None => None,
            },
            depth,
            *facts,
        ),
{
    let display_path = normalize_path(text);
    let display_name = match file_name {
        Some(n) => if n.unicode_len() > 0 { String::from_str(n) } else { display_path.clone() },
        None => display_path.clone(),
    };
    let kind = if facts.is_symlink {
        NodeKind::Symlink
    } else if facts.is_dir {
        NodeKind::Directory
    } else if facts.is_file {
        NodeKind::File
    } else {
        NodeKind::Other
    };
    IndexRecord {
        path_key,
        parent_path_key,
        display_path,
        display_name,
        kind,
        depth,
        size_bytes: if facts.is_file { facts.len } else { 0 },
        modified_ns: facts.modified_ns,
        stable_id: copy_opt_bytes(&facts.stable_id),
    }
}

/// `i` reports that `operation` failed on the path whose text is `text`.
pub open spec fn issue_about(i: ScanIssue, text: Seq<char>, operation: Seq<char>, message: Seq<char>) -> bool {
    i.path@ == spec_normalize_path(text) && i.operation@ == operation && i.message@ == message
}

/// The issue that `operation` failed on the path whose text is `text`.
pub fn issue(text: &str, operation: &str, message: &str) -> (i: ScanIssue)
    ensures
        issue_about(i, text@, operation@, message@),
{
    ScanIssue { path: normalize_path(text), operation: String::from_str(operation), message: String::from_str(message) }
}

/// The entries of a listing that were read, in listing order.
pub open spec fn read_entries(listing: Seq<Result<FsEntry, String>>) -> Seq<FsEntry>
    decreases listing.len(),
{
    if listing.len() == 0 {
        Seq::empty()
    } else {
        match listing.last() {
            Ok(e) => read_entries(listing.drop_last()).push(e),
            Err(_) => read_entries(listing.drop_last()),
        }
    }
}

proof fn lemma_nothing_skipped(rules: IgnoreRules, listing: Seq<Result<FsEntry, String>>)
    requires
        rules.names@.len() == 0,
        rules.suffixes@.len() == 0,
    ensures
        kept_entries(rules, listing) == read_entries(listing),
    decreases listing.len(),
{
    if listing.len() > 0 {
        lemma_nothing_skipped(rules, listing.drop_last());
    }
}

/// The entries of a directory in the order the indexer looks at them: those
/// that were read, stably ordered by their file names with ASCII letters in
/// lower case.
pub fn order_entries(listing: &Vec<Result<FsEntry, String>>) -> (r: Vec<FsEntry>)
    ensures
        r@ == sorted_by_key(read_entries(listing@)),
{
    let rules = IgnoreRules { names: Vec::new(), suffixes: Vec::new() };
    proof {
        lemma_nothing_skipped(rules, listing@);
    }
    prepare_children(&rules, listing)
}

/// What the scan of one directory found: records of the directory and of
/// its entries, the directories among them, and what could not be read.
#[derive(Debug)]
pub struct DirectoryResult {
    pub records: Vec<IndexRecord>,
    pub directories: Vec<DirectoryTask>,
    pub issues: Vec<ScanIssue>,
}

impl DirectoryResult {
    /// Nothing found yet.
    pub fn new() -> (r: DirectoryResult)
        ensures
            r.records@.len() == 0,
            r.directories@.len() == 0,
            r.issues@.len() == 0,
    {
        DirectoryResult { records: Vec::new(), directories: Vec::new(), issues: Vec::new() }
    }

    /// Records that `operation` failed on the path whose text is `text`.
    pub fn note_issue(&mut self, text: &str, operation: &str, message: &str)
        ensures
            final(self).records == old(self).records,
            final(self).directories == old(self).directories,
            final(self).issues@.len() == old(self).issues@.len() + 1,
            final(self).issues@.drop_last() == old(self).issues@,
            issue_about(final(self).issues@.last(), text@, operation@, message@),
    {
        let i = issue(text, operation, message);
        self.issues.push(i);
        proof {
            assert(self.issues@.drop_last() =~= old(self).issues@);
        }
    }

    /// Records, for the directory whose text is `text`, each entry of its
    /// listing that could not be read, in listing order.
    pub fn note_listing_errors(&mut self, text: &str, listing: &Vec<Result<FsEntry, String>>)
        ensures
            final(self).records == old(self).records,
            final(self).directories == old(self).directories,
            final(self).issues@.len() == old(self).issues@.len() + listing_errors(listing@).len(),
            forall|i: int| 0 <= i < old(self).issues@.len() ==> final(self).issues@[i] == old(self).issues@[i],
            forall|i: int| 0 <= i < listing_errors(listing@).len() ==> issue_about(
                #[trigger] final(self).issues@[old(self).issues@.len() + i],
                text@,
                "read_entry"@,
                listing_errors(listing@)[i],
            ),
    {
        let ghost start = self.issues@;
        let mut k: usize = 0;
        while k < listing.len()
            invariant
                k <= listing@.len(),
                self.records == old(self).records,
                self.directories == old(self).directories,
                self.issues@.len() == start.len() + listing_errors(listing@.subrange(0, k as int)).len(),
                forall|i: int| 0 <= i < start.len() ==> self.issues@[i] == start[i],
                forall|i: int| 0 <= i < listing_errors(listing@.subrange(0, k as int)).len() ==> issue_about(
                    #[trigger] self.issues@[start.len() + i],
                    text@,
                    "read_entry"@,
                    listing_errors(listing@.subrange(0, k as int))[i],
                ),
            decreases listing@.len() - k,
        {
            let ghost prev = listing@.subrange(0, k as int);
            let ghost issues0 = self.issues@;
            proof {
                let next = listing@.subrange(0, (k + 1) as int);
                assert(next.drop_last() =~= prev);
                assert(next.last() == listing@[k as int]);
            }
            match &listing[k] {
                Ok(_) => {},
                Err(message) => {
                    let i = issue(text, "read_entry", message.as_str());
                    self.issues.push(i);
                    proof {
                        assert forall|j: int| 0 <= j < start.len() implies self.issues@[j] == start[j] by {
                            assert(self.issues@[j] == issues0[j]);
                        }
                        let next = listing@.subrange(0, (k + 1) as int);
                        assert forall|j: int| 0 <= j < listing_errors(next).len() implies issue_about(
                            #[trigger] self.issues@[start.len() + j],
                            text@,
                            "read_entry"@,
                            listing_errors(next)[j],
                        ) by {
                            if j < listing_errors(prev).len() {
                                assert(self.issues@[start.len() + j] == issues0[start.len() + j]);
                            }
                        }
                    }
                },
            }
            k = k + 1;
        }
        proof {
            assert(listing@.subrange(0, listing@.len() as int) =~= listing@);
        }
    }

    /// Takes in the record of a directory entry at `path`: an ignored entry
    /// is left out; a directory among the others is also queued for
    /// scanning, at priority zero.
    pub fn add_entry(&mut self, record: IndexRecord, path: IndexPath, ignored: bool)
        ensures
            final(self).issues == old(self).issues,
            ignored ==> final(self).records == old(self).records
                && final(self).directories == old(self).directories,
            !ignored ==> final(self).records@ == old(self).records@.push(record),
            !ignored && record.kind == NodeKind::Directory ==> {
                &&& final(self).directories@.len() == old(self).directories@.len() + 1
                &&& final(self).directories@.drop_last() == old(self).directories@
                &&& final(self).directories@.last().path == path
                &&& final(self).directories@.last().path_key@ == record.path_key@
                &&& final(self).directories@.last().depth == record.depth
                &&& final(self).directories@.last().priority == 0
            },
            !ignored && record.kind != NodeKind::Directory ==> final(self).directories == old(self).directories,
    {
        if ignored {
            return;
        }
        if record.kind == NodeKind::Directory {
            let task = DirectoryTask { path, path_key: copy_bytes(&record.path_key), depth: record.depth, priority: 0 };
            self.directories.push(task);
            proof {
                assert(self.directories@.drop_last() =~= old(self).directories@);
            }
        }
        self.records.push(record);
    }
}

/// How one ignore file judged a path: not at all, ignored, or explicitly
/// kept.
#[derive(Debug, Clone, Copy, PartialEq, Eq, Structural)]
pub enum IgnoreMatch {
    Unmatched,
    Ignore,
    Whitelist,
}

/// The verdict of a run of ignore files, later ones overriding earlier ones.
pub open spec fn folded_verdict(matches: Seq<IgnoreMatch>) -> bool
    decreases matches.len(),
{
    if matches.len() == 0 {
        false
    } else {
        match matches.last() {
            IgnoreMatch::Ignore => true,
            IgnoreMatch::Whitelist => false,
            IgnoreMatch::Unmatched => folded_verdict(matches.drop_last()),
        }
    }
}

/// Whether the indexer leaves a path out: any path but the project root
/// named `.git` or `.shitview`; otherwise what the ignore files say, from
/// the project root down to the path's directory and then the project's own
/// ignore file, the last one that judges the path deciding.
pub open spec fn spec_ignored(is_project_root: bool, file_name: Option<Seq<char>>, matches: Seq<IgnoreMatch>) -> bool {
    if !is_project_root && (file_name == Some(".git"@) || file_name == Some(".shitview"@)) {
        true
    } else {
        folded_verdict(matches)
    }
}

/// Whether the indexer leaves a path out; see `spec_ignored`.
pub fn ignored(is_project_root: bool, file_name: Option<&str>, matches: &Vec<IgnoreMatch>) -> (r: bool)
    ensures
        r == spec_ignored(
            is_project_root,
            match file_name {
                Some(n) => Some(n@),
                None => None,
            },
            matches@,
        ),
{
    if !is_project_root {
        match file_name {
            Some(n) => {
                let git = String::from_str(".git");
                let own = String::from_str(".shitview");
                let name = String::from_str(n);
                if name == git || name == own {
                    return true;
                }
            },
            None => {},
        }
    }
    let mut verdict = false;
    let mut i: usize = 0;
    while i < matches.len()
        invariant
            i <= matches@.len(),
            verdict == folded_verdict(matches@.subrange(0, i as int)),
        decreases matches@.len() - i,
    {
        proof {
            let next = matches@.subrange(0, (i + 1) as int);
            assert(next.drop_last() =~= matches@.subrange(0, i as int));
            assert(next.last() == matches@[i as int]);
        }
        match matches[i] {
            IgnoreMatch::Ignore => {
                verdict = true;
            },
            IgnoreMatch::Whitelist => {
                verdict = false;
            },
            IgnoreMatch::Unmatched => {},
        }
        i = i + 1;
    }
    proof {
        assert(matches@.subrange(0, matches@.len() as int) =~= matches@);
    }
    verdict
}

} // verus!

verus! {

/// What the indexer tells its user.
#[derive(Debug, Clone)]
pub enum IndexEvent {
    Progress(IndexProgress),
    Nodes(Vec<StoredNode>),
    Warning(String),
    Failed(String),
}

/// The kind of a change the file watcher reported.
#[derive(Debug, Clone, Copy, PartialEq, Eq, Structural)]
pub enum ChangeKind {
    Create,
    /// A rename reported with both the old and the new path.
    RenameBoth,
    /// Any other rename report.
    Rename,
    Modify,
    Remove,
    Access,
    Any,
    Other,
}

/// The name under which a change is buffered during a scan.
pub open spec fn spec_kind_name(kind: ChangeKind) -> Seq<char> {
    match kind {
        ChangeKind::Create => "create"@,
        ChangeKind::RenameBoth | ChangeKind::Rename => "rename"@,
        ChangeKind::Modify => "modify"@,
        ChangeKind::Remove => "remove"@,
        ChangeKind::Access => "access"@,
        ChangeKind::Any => "any"@,
        ChangeKind::Other => "other"@,
    }
}

/// The name under which a change is buffered during a scan.
pub fn event_kind_name(kind: ChangeKind) -> (name: &'static str)
    ensures
        name@ == spec_kind_name(kind),
{
    match kind {
        ChangeKind::Create => "create",
        ChangeKind::RenameBoth | ChangeKind::Rename => "rename",
        ChangeKind::Modify => "modify",
        ChangeKind::Remove => "remove",
        ChangeKind::Access => "access",
        ChangeKind::Any => "any",
        ChangeKind::Other => "other",
    }
}

/// Each kind of change is buffered under a name of its own, the two kinds
/// of rename under the shared name "rename"; a creation is buffered as
/// "create" and a removal as "remove".
pub proof fn law_kind_names_tell_changes_apart(a: ChangeKind, b: ChangeKind)
    ensures
        (spec_kind_name(a) == spec_kind_name(b)) == (a == b
            || ((a == ChangeKind::Rename || a == ChangeKind::RenameBoth)
                && (b == ChangeKind::Rename || b == ChangeKind::RenameBoth))),
        spec_kind_name(ChangeKind::Create) == "create"@,
        spec_kind_name(ChangeKind::Remove) == "remove"@,
        spec_kind_name(ChangeKind::Rename) == "rename"@,
{
    reveal_strlit("create");
    reveal_strlit("rename");
    reveal_strlit("modify");
    reveal_strlit("remove");
    reveal_strlit("access");
    reveal_strlit("any");
    reveal_strlit("other");
    let x = spec_kind_name(a);
    let y = spec_kind_name(b);
    if x.len() == y.len() && x.len() == 6 {
        assert(x == y <==> (x[0] == y[0] && x[2] == y[2]));
    }
}

/// A change as it is buffered in the index database while a scan runs.
#[derive(Debug)]
pub struct BufferedChange {
    pub kind: &'static str,
    pub primary: String,
    pub secondary: Option<String>,
}

/// The buffered form of a change of `kind` to the paths whose texts are
/// `paths`: its kind name, the display form of the first path (empty
/// without one) and that of the second, if any.
pub fn buffered_change(kind: ChangeKind, paths: &Vec<String>) -> (b: BufferedChange)
    ensures
        b.kind@ == spec_kind_name(kind),
        b.primary@ == (if paths@.len() > 0 { spec_normalize_path(paths@[0]@) } else { Seq::<char>::empty() }),
        match b.secondary {
            Some(s) => paths@.len() > 1 && s@ == spec_normalize_path(paths@[1]@),
            None => paths@.len() <= 1,
        },
{
    let primary = if paths.len() > 0 { normalize_path(paths[0].as_str()) } else { String::new() };
    let secondary = if paths.len() > 1 { Some(normalize_path(paths[1].as_str())) } else { None };
    BufferedChange { kind: event_kind_name(kind), primary, secondary }
}

/// One step of applying a watched change to the index, on the path at the
/// given position of the change's path list.
#[derive(Debug, Clone, Copy, PartialEq, Eq, Structural)]
pub enum WatchStep {
    /// Delete the indexed subtree at the path.
    Delete(usize),
    /// Index the path and, for a directory, everything under it.
    Upsert(usize),
    /// The same, where the path still exists.
    UpsertIfExists(usize),
}

/// `0..n` as steps of one kind.
pub open spec fn each_path(n: nat, step: spec_fn(usize) -> WatchStep) -> Seq<WatchStep> {
    Seq::new(n, |i: int| step(i as usize))
}

/// How a watched change is applied: nothing without paths; a rename with
/// both paths deletes the old one and indexes the new one; a removal
/// deletes every path; an access changes nothing; any other change indexes
/// each path that still exists.
pub open spec fn spec_watch_plan(kind: ChangeKind, path_count: nat) -> Seq<WatchStep> {
    if path_count == 0 {
        Seq::empty()
    } else if kind == ChangeKind::RenameBoth && path_count >= 2 {
        seq![WatchStep::Delete(0), WatchStep::Upsert(1)]
    } else {
        match kind {
            ChangeKind::Remove => each_path(path_count, |i: usize| WatchStep::Delete(i)),
            ChangeKind::Access => Seq::empty(),
            _ => each_path(path_count, |i: usize| WatchStep::UpsertIfExists(i)),
        }
    }
}

/// How a watched change is applied; see `spec_watch_plan`.
pub fn watch_plan(kind: ChangeKind, path_count: usize) -> (steps: Vec<WatchStep>)
    ensures
        steps@ == spec_watch_plan(kind, path_count as nat),
        path_count == 0 || kind == ChangeKind::Access ==> steps@.len() == 0,
        kind == ChangeKind::RenameBoth && path_count >= 2 ==> steps@ == seq![WatchStep::Delete(0), WatchStep::Upsert(1)],
        kind == ChangeKind::Remove ==> steps@.len() == path_count
            && forall|i: int| 0 <= i < path_count ==> #[trigger] steps@[i] == WatchStep::Delete(i as usize),
        kind != ChangeKind::Remove && kind != ChangeKind::Access && !(kind == ChangeKind::RenameBoth && path_count >= 2)
            ==> steps@.len() == path_count
            && forall|i: int| 0 <= i < path_count ==> #[trigger] steps@[i] == WatchStep::UpsertIfExists(i as usize),
{
    proof {
        law_watch_plan_steps(kind, path_count as nat);
    }
    let mut steps: Vec<WatchStep> = Vec::new();
    if path_count == 0 {
        return steps;
    }
    if kind == ChangeKind::RenameBoth && path_count >= 2 {
        steps.push(WatchStep::Delete(0));
        steps.push(WatchStep::Upsert(1));
        proof {
            assert(steps@ =~= seq![WatchStep::Delete(0), WatchStep::Upsert(1)]);
        }
        return steps;
    }
    if kind == ChangeKind::Access {
        return steps;
    }
    let removal = kind == ChangeKind::Remove;
    let mut i: usize = 0;
    while i < path_count
        invariant
            i <= path_count,
            removal == (kind == ChangeKind::Remove),
            removal ==> steps@ =~= each_path(i as nat, |j: usize| WatchStep::Delete(j)),
            !removal ==> steps@ =~= each_path(i as nat, |j: usize| WatchStep::UpsertIfExists(j)),
        decreases path_count - i,
    {
        if removal {
            steps.push(WatchStep::Delete(i));
        } else {
            steps.push(WatchStep::UpsertIfExists(i));
        }
        i = i + 1;
    }
    steps
}

/// What a watched change does to the index, path by path: nothing for an
/// access or an empty path list; a rename reported with both paths deletes
/// the old path and indexes the new one; a removal deletes each path in
/// turn; every other change (a creation, a modification, a rename with one
/// path, an unspecified or other change) indexes each path in turn where it
/// still exists, one step per path.
pub proof fn law_watch_plan_steps(kind: ChangeKind, path_count: nat)
    ensures
        path_count == 0 || kind == ChangeKind::Access ==> spec_watch_plan(kind, path_count).len() == 0,
        kind == ChangeKind::RenameBoth && path_count >= 2
            ==> spec_watch_plan(kind, path_count) == seq![WatchStep::Delete(0), WatchStep::Upsert(1)],
        kind == ChangeKind::Remove ==> spec_watch_plan(kind, path_count).len() == path_count
            && forall|i: int| 0 <= i < path_count ==> #[trigger] spec_watch_plan(kind, path_count)[i] == WatchStep::Delete(i as usize),
        kind != ChangeKind::Remove && kind != ChangeKind::Access && !(kind == ChangeKind::RenameBoth && path_count >= 2)
            ==> spec_watch_plan(kind, path_count).len() == path_count
            && forall|i: int| 0 <= i < path_count
                ==> #[trigger] spec_watch_plan(kind, path_count)[i] == WatchStep::UpsertIfExists(i as usize),
{
}

/// Where a changed path is indexed: nowhere when it is not inside the
/// project root or any of its components is `.git` or `.shitview`;
/// otherwise at the depth of its components below the root.
pub open spec fn spec_change_depth(root: Seq<Seq<u8>>, path: Seq<Seq<u8>>) -> Option<usize> {
    if !starts_with_components(path, root)
        || exists|i: int| 0 <= i < path.len() && (#[trigger] path[i] == ".git"@.map_values(|c: char| c as u8)
            || path[i] == ".shitview"@.map_values(|c: char| c as u8)) {
        None
    } else {
        Some((path.len() - root.len()) as usize)
    }
}

/// A change is indexed at the number of components it lies below the
/// root, unless some component, in the root or below it, is `.git` or
/// `.shitview`; a change outside the root is not indexed.
pub proof fn law_change_depth_counts_components(root: Seq<Seq<u8>>, rest: Seq<Seq<u8>>, path: Seq<Seq<u8>>)
    ensures
        (forall|i: int| 0 <= i < root.len() + rest.len() ==> #[trigger] (root + rest)[i] != seq![46u8, 103, 105, 116]
            && (root + rest)[i] != seq![46u8, 115, 104, 105, 116, 118, 105, 101, 119])
            && rest.len() <= usize::MAX
            ==> spec_change_depth(root, root + rest) == Some(rest.len() as usize),
        (exists|i: int| 0 <= i < path.len() && (#[trigger] path[i] == seq![46u8, 103, 105, 116]
            || path[i] == seq![46u8, 115, 104, 105, 116, 118, 105, 101, 119]))
            ==> spec_change_depth(root, path) is None,
        (path.len() < root.len() || path.subrange(0, root.len() as int) != root) ==> spec_change_depth(root, path) is None,
{
    reveal_strlit(".git");
    reveal_strlit(".shitview");
    assert(".git"@.map_values(|c: char| c as u8) =~= seq![46u8, 103, 105, 116]);
    assert(".shitview"@.map_values(|c: char| c as u8) =~= seq![46u8, 115, 104, 105, 116, 118, 105, 101, 119]);
    assert((root + rest).subrange(0, root.len() as int) =~= root);
}

/// Where a changed path is indexed; see `spec_change_depth`.
pub fn change_depth(root: &IndexPath, path: &IndexPath) -> (d: Option<usize>)
    ensures
        d == spec_change_depth(root.parts(), path.parts()),
{
    if !path_starts_with(path, root) {
        return None;
    }
    let git: Vec<u8> = vec![46, 103, 105, 116];
    let own: Vec<u8> = vec![46, 115, 104, 105, 116, 118, 105, 101, 119];
    proof {
        reveal_strlit(".git");
        reveal_strlit(".shitview");
        assert(git@ =~= ".git"@.map_values(|c: char| c as u8));
        assert(own@ =~= ".shitview"@.map_values(|c: char| c as u8));
    }
    let mut i: usize = 0;
    while i < path.components.len()
        invariant
            i <= path.parts().len(),
            path.parts().len() == path.components@.len(),
            git@ == ".git"@.map_values(|c: char| c as u8),
            own@ == ".shitview"@.map_values(|c: char| c as u8),
            forall|j: int| 0 <= j < i ==> !(#[trigger] path.parts()[j] == ".git"@.map_values(|c: char| c as u8)
                || path.parts()[j] == ".shitview"@.map_values(|c: char| c as u8)),
        decreases path.parts().len() - i,
    {
        if bytes_equal(&path.components[i], &git) || bytes_equal(&path.components[i], &own) {
            proof {
                assert(path.parts()[i as int] == path.components@[i as int]@);
            }
            return None;
        }
        i = i + 1;
    }
    Some(path.components.len() - root.components.len())
}

/// What the caller does with a command while it watches a finished index.
#[derive(Debug, Clone, Copy, PartialEq, Eq, Structural)]
pub enum WatchAction {
    /// Stop watching and end the run.
    Stop,
    /// Drop the watcher and report the paused phase.
    PauseWatcher,
    /// Start a new watcher and report the watching phase.
    ResumeWatcher,
    /// Nothing to do.
    Ignore,
}

/// The answer to a command after the scan: shutdown and cancel end the run,
/// pause drops the watcher, resume starts one again where none runs, and
/// anything else changes nothing.
pub fn watch_command(command: &IndexCommand, watcher_running: bool) -> (a: WatchAction)
    ensures
        a == match command {
            IndexCommand::Shutdown | IndexCommand::Cancel => WatchAction::Stop,
            IndexCommand::Pause => WatchAction::PauseWatcher,
            IndexCommand::Resume => if watcher_running { WatchAction::Ignore } else { WatchAction::ResumeWatcher },
            IndexCommand::Prioritize(_) => WatchAction::Ignore,
        },
{
    match command {
        IndexCommand::Shutdown | IndexCommand::Cancel => WatchAction::Stop,
        IndexCommand::Pause => WatchAction::PauseWatcher,
        IndexCommand::Resume => if watcher_running { WatchAction::Ignore } else { WatchAction::ResumeWatcher },
        IndexCommand::Prioritize(_) => WatchAction::Ignore,
    }
}

} // verus!

verus! {

/// Lower case as `str::to_lowercase` gives it, by the Unicode tables.
pub uninterp spec fn unicode_lowercase(s: Seq<char>) -> Seq<char>;

/// `str::to_lowercase`: the full Unicode lower case of `s`.
#[verifier::external_body]
fn to_lowercase(s: &str) -> (r: String)
    ensures
        r@ == unicode_lowercase(s@),
{
    s.to_lowercase()
}

/// The key of a project in the index database: the display form of its
/// root, in Unicode lower case where paths are compared without case.
pub open spec fn spec_project_key(root_text: Seq<char>, fold_case: bool) -> Seq<char> {
    if fold_case {
        unicode_lowercase(spec_normalize_path(root_text))
    } else {
        spec_normalize_path(root_text)
    }
}

/// The key of a project in the index database; see `spec_project_key`.
pub fn project_key(root_text: &str, fold_case: bool) -> (k: String)
    ensures
        k@ == spec_project_key(root_text@, fold_case),
{
    let display = normalize_path(root_text);
    if fold_case {
        to_lowercase(display.as_str())
    } else {
        display
    }
}

} // verus!

verus! {

/// The directories queued from a scan batch were not queued before, and
/// no two of them share a key: a directory is never queued twice.
pub proof fn law_fresh_directories_are_new(dirs: Seq<DirectoryTask>, seen: Set<Seq<u8>>)
    ensures
        forall|i: int| 0 <= i < fresh(dirs, seen).len() ==> !seen.contains(#[trigger] fresh(dirs, seen)[i].path_key@),
        forall|i: int, j: int| 0 <= i < j < fresh(dirs, seen).len()
            ==> #[trigger] fresh(dirs, seen)[i].path_key@ != #[trigger] fresh(dirs, seen)[j].path_key@,
        forall|i: int| 0 <= i < fresh(dirs, seen).len() ==> task_keys(dirs).contains(#[trigger] fresh(dirs, seen)[i].path_key@),
        forall|i: int| 0 <= i < fresh(dirs, seen).len() ==> (#[trigger] fresh(dirs, seen)[i]).priority == 0,
    decreases dirs.len(),
{
    if dirs.len() > 0 {
        let prev = dirs.drop_last();
        law_fresh_directories_are_new(prev, seen);
        let f = fresh(dirs, seen);
        let fp = fresh(prev, seen);
        assert forall|i: int| 0 <= i < fp.len() implies task_keys(dirs).contains(#[trigger] fp[i].path_key@) by {
            let w = choose|w: int| 0 <= w < prev.len() && #[trigger] prev[w].path_key@ == fp[i].path_key@;
            assert(dirs[w] == prev[w]);
        }
        if !(seen.contains(dirs.last().path_key@) || task_keys(prev).contains(dirs.last().path_key@)) {
            assert(f == fp.push(with_priority(dirs.last(), 0)));
            assert(task_keys(dirs).contains(dirs.last().path_key@)) by {
                assert(dirs[dirs.len() - 1].path_key@ == dirs.last().path_key@);
            }
            assert forall|i: int, j: int| 0 <= i < j < f.len()
                implies #[trigger] f[i].path_key@ != #[trigger] f[j].path_key@ by {
                if j == f.len() - 1 {
                    assert(f[i] == fp[i]);
                    assert(task_keys(prev).contains(fp[i].path_key@));
                } else {
                    assert(f[i] == fp[i]);
                    assert(f[j] == fp[j]);
                }
            }
            assert forall|i: int| 0 <= i < f.len() implies task_keys(dirs).contains(#[trigger] f[i].path_key@) by {
                if i < fp.len() {
                    assert(f[i] == fp[i]);
                }
            }
            assert forall|i: int| 0 <= i < f.len() implies !seen.contains(#[trigger] f[i].path_key@) by {
                if i < fp.len() {
                    assert(f[i] == fp[i]);
                }
            }
            assert forall|i: int| 0 <= i < f.len() implies (#[trigger] f[i]).priority == 0 by {
                if i < fp.len() {
                    assert(f[i] == fp[i]);
                }
            }
        }
    }
}

/// The keys of a batch with one more directory: those of the rest and
/// the new directory's key.
proof fn lemma_task_keys_push(dirs: Seq<DirectoryTask>)
    requires
        dirs.len() > 0,
    ensures
        task_keys(dirs) == task_keys(dirs.drop_last()).insert(dirs.last().path_key@),
{
    let prev = dirs.drop_last();
    assert forall|x: Seq<u8>| task_keys(dirs).contains(x) implies task_keys(prev).insert(dirs.last().path_key@).contains(x) by {
        let v = choose|v: int| 0 <= v < dirs.len() && #[trigger] dirs[v].path_key@ == x;
        if v < prev.len() {
            assert(prev[v] == dirs[v]);
        }
    }
    assert forall|x: Seq<u8>| task_keys(prev).insert(dirs.last().path_key@).contains(x) implies task_keys(dirs).contains(x) by {
        if x == dirs.last().path_key@ {
            assert(dirs[dirs.len() - 1].path_key@ == x);
        } else {
            let v = choose|v: int| 0 <= v < prev.len() && #[trigger] prev[v].path_key@ == x;
            assert(dirs[v] == prev[v]);
        }
    }
    assert(task_keys(dirs) =~= task_keys(prev).insert(dirs.last().path_key@));
}

/// A batch has finitely many keys.
proof fn lemma_task_keys_finite(dirs: Seq<DirectoryTask>)
    ensures
        task_keys(dirs).finite(),
    decreases dirs.len(),
{
    if dirs.len() == 0 {
        assert(task_keys(dirs) =~= Set::<Seq<u8>>::empty());
    } else {
        lemma_task_keys_finite(dirs.drop_last());
        lemma_task_keys_push(dirs);
    }
}

/// No directory of a scan batch is lost: the keys queued anew from it are
/// exactly the batch's keys that were not queued before. With
/// `law_fresh_directories_are_new`, one directory is queued for each such
/// key, so the batch queues as many directories as it has new keys.
pub proof fn law_fresh_directories_are_all_queued(dirs: Seq<DirectoryTask>, seen: Set<Seq<u8>>)
    ensures
        task_keys(fresh(dirs, seen)) == task_keys(dirs).difference(seen),
        fresh(dirs, seen).len() == task_keys(dirs).difference(seen).len(),
    decreases dirs.len(),
{
    let f = fresh(dirs, seen);
    if dirs.len() == 0 {
        assert(task_keys(f) =~= task_keys(dirs).difference(seen));
        assert(task_keys(dirs).difference(seen) =~= Set::<Seq<u8>>::empty());
    } else {
        let prev = dirs.drop_last();
        let fp = fresh(prev, seen);
        let x = dirs.last().path_key@;
        law_fresh_directories_are_all_queued(prev, seen);
        lemma_task_keys_push(dirs);
        if seen.contains(x) || task_keys(prev).contains(x) {
            assert(task_keys(dirs).difference(seen) =~= task_keys(prev).difference(seen));
        } else {
            assert(f == fp.push(with_priority(dirs.last(), 0)));
            assert(f.drop_last() =~= fp);
            lemma_task_keys_push(f);
            assert(task_keys(dirs).difference(seen) =~= task_keys(prev).difference(seen).insert(x));
            lemma_task_keys_finite(prev);
            assert(!task_keys(prev).difference(seen).contains(x));
            assert(task_keys(prev).difference(seen).finite());
            assert(task_keys(prev).difference(seen).insert(x).len() == task_keys(prev).difference(seen).len() + 1);
        }
    }
}

/// Resuming a persisted queue loses and adds no directory: each persisted
/// directory resumes at high priority when its priority is positive and
/// at normal priority otherwise.
pub proof fn law_resume_splits_by_priority(tasks: Seq<DirectoryTask>)
    ensures
        resumed_high(tasks).len() + resumed_normal(tasks).len() == tasks.len(),
        forall|i: int| 0 <= i < resumed_high(tasks).len() ==> (#[trigger] resumed_high(tasks)[i]).priority > 0,
        forall|i: int| 0 <= i < resumed_normal(tasks).len() ==> (#[trigger] resumed_normal(tasks)[i]).priority <= 0,
        forall|i: int| 0 <= i < tasks.len() && (#[trigger] tasks[i]).priority > 0 ==> resumed_high(tasks).contains(tasks[i]),
        forall|i: int| 0 <= i < tasks.len() && (#[trigger] tasks[i]).priority <= 0 ==> resumed_normal(tasks).contains(tasks[i]),
    decreases tasks.len(),
{
    if tasks.len() > 0 {
        let prev = tasks.drop_last();
        law_resume_splits_by_priority(prev);
        let h = resumed_high(tasks);
        let hp = resumed_high(prev);
        let r = resumed_normal(tasks);
        let rp = resumed_normal(prev);
        if tasks.last().priority > 0 {
            assert(h == hp.push(tasks.last()));
            assert(r == rp);
        } else {
            assert(h == hp);
            assert(r == rp.push(tasks.last()));
        }
        assert forall|i: int| 0 <= i < h.len() implies (#[trigger] h[i]).priority > 0 by {
            if i < hp.len() {
                assert(h[i] == hp[i]);
            }
        }
        assert forall|i: int| 0 <= i < r.len() implies (#[trigger] r[i]).priority <= 0 by {
            if i < rp.len() {
                assert(r[i] == rp[i]);
            }
        }
        assert forall|i: int| 0 <= i < tasks.len() && (#[trigger] tasks[i]).priority > 0 implies h.contains(tasks[i]) by {
            if i < prev.len() {
                assert(prev[i] == tasks[i]);
                let w = choose|w: int| 0 <= w < hp.len() && hp[w] == prev[i];
                assert(h[w] == hp[w]);
            } else {
                assert(h[hp.len() as int] == tasks[i]);
            }
        }
        assert forall|i: int| 0 <= i < tasks.len() && (#[trigger] tasks[i]).priority <= 0 implies r.contains(tasks[i]) by {
            if i < prev.len() {
                assert(prev[i] == tasks[i]);
                let w = choose|w: int| 0 <= w < rp.len() && rp[w] == prev[i];
                assert(r[w] == rp[w]);
            } else {
                assert(r[rp.len() as int] == tasks[i]);
            }
        }
    }
}

/// Prioritizing a path raises every waiting directory that lies at, above
/// or below the path, whole components compared, to priority one hundred,
/// and keeps each other waiting directory as it is.
pub proof fn law_promotion_raises_each_related_directory(path: IndexPath, queue: Seq<DirectoryTask>)
    ensures
        forall|i: int| 0 <= i < queue.len() ==> {
            let d = (#[trigger] queue[i]).path.parts();
            let p = path.parts();
            if (d.len() <= p.len() && p.subrange(0, d.len() as int) == d)
                || (p.len() <= d.len() && d.subrange(0, p.len() as int) == p) {
                promoted(path, queue).contains(DirectoryTask { priority: 100, ..queue[i] })
            } else {
                retained(path, queue).contains(queue[i])
            }
        },
    decreases queue.len(),
{
    if queue.len() > 0 {
        let prev = queue.drop_last();
        law_promotion_raises_each_related_directory(path, prev);
        let pr = promoted(path, queue);
        let pp = promoted(path, prev);
        let r = retained(path, queue);
        let rp = retained(path, prev);
        if related(path, queue.last()) {
            assert(pr == pp.push(with_priority(queue.last(), 100)));
            assert(r == rp);
        } else {
            assert(pr == pp);
            assert(r == rp.push(queue.last()));
        }
        assert forall|i: int| 0 <= i < queue.len() implies {
            let d = (#[trigger] queue[i]).path.parts();
            let p = path.parts();
            if (d.len() <= p.len() && p.subrange(0, d.len() as int) == d)
                || (p.len() <= d.len() && d.subrange(0, p.len() as int) == p) {
                pr.contains(DirectoryTask { priority: 100, ..queue[i] })
            } else {
                r.contains(queue[i])
            }
        } by {
            if i < prev.len() {
                assert(prev[i] == queue[i]);
                if related(path, queue[i]) {
                    let w = choose|w: int| 0 <= w < pp.len() && pp[w] == DirectoryTask { priority: 100, ..prev[i] };
                    assert(pr[w] == pp[w]);
                } else {
                    let w = choose|w: int| 0 <= w < rp.len() && rp[w] == prev[i];
                    assert(r[w] == rp[w]);
                }
            } else if related(path, queue[i]) {
                assert(pr[pp.len() as int] == DirectoryTask { priority: 100, ..queue[i] });
            } else {
                assert(r[rp.len() as int] == queue[i]);
            }
        }
    }
}

/// Prioritizing a path loses and adds no directory: each waiting
/// directory ends up either raised or kept, raised exactly when it is
/// related to the path.
pub proof fn law_promotion_keeps_every_directory(path: IndexPath, queue: Seq<DirectoryTask>)
    ensures
        promoted(path, queue).len() + retained(path, queue).len() == queue.len(),
        forall|i: int| 0 <= i < promoted(path, queue).len() ==> related(path, #[trigger] promoted(path, queue)[i])
            && promoted(path, queue)[i].priority == 100,
        forall|i: int| 0 <= i < retained(path, queue).len() ==> !related(path, #[trigger] retained(path, queue)[i]),
    decreases queue.len(),
{
    if queue.len() > 0 {
        let prev = queue.drop_last();
        law_promotion_keeps_every_directory(path, prev);
        let p = promoted(path, queue);
        let pp = promoted(path, prev);
        let r = retained(path, queue);
        let rp = retained(path, prev);
        assert forall|i: int| 0 <= i < p.len() implies related(path, #[trigger] p[i]) && p[i].priority == 100 by {
            if i < pp.len() {
                assert(p[i] == pp[i]);
            }
        }
        assert forall|i: int| 0 <= i < r.len() implies !related(path, #[trigger] r[i]) by {
            if i < rp.len() {
                assert(r[i] == rp[i]);
            }
        }
    }
}

} // verus!

verus! {

/// The phase reported when a scan ends: cancelled; nothing for a shutdown,
/// which only pauses the run; replaying buffered changes after a complete
/// scan.
pub fn scan_end_phase(outcome: ScanOutcome) -> (phase: Option<IndexPhase>)
    ensures
        phase == match outcome {
            ScanOutcome::Cancelled => Some(IndexPhase::Cancelled),
            ScanOutcome::Shutdown => None,
            ScanOutcome::Complete => Some(IndexPhase::ReplayingChanges),
        },
{
    match outcome {
        ScanOutcome::Cancelled => Some(IndexPhase::Cancelled),
        ScanOutcome::Shutdown => None,
        ScanOutcome::Complete => Some(IndexPhase::ReplayingChanges),
    }
}

} // verus!

verus! {

/// A query result as a number: not judged, ignored, explicitly kept.
pub open spec fn match_code(m: IgnoreMatch) -> int {
    match m {
        IgnoreMatch::Unmatched => 0,
        IgnoreMatch::Ignore => 1,
        IgnoreMatch::Whitelist => 2,
    }
}

/// The query result with number `v`; see `match_code`.
pub open spec fn decode_match(v: int) -> IgnoreMatch {
    if v == 1 {
        IgnoreMatch::Ignore
    } else if v == 2 {
        IgnoreMatch::Whitelist
    } else {
        IgnoreMatch::Unmatched
    }
}

/// What the `ignore` crate's gitignore matcher, built for directory `root`
/// from the lines of `rules`, answers for `relative` (a path relative to
/// `root`, a directory when `is_dir`), as a `match_code`.
pub uninterp spec fn gitignore_verdict(root: Seq<char>, rules: Seq<char>, relative: Seq<char>, is_dir: bool) -> int;

/// A path separator: `/`, or `\` on Windows.
pub open spec fn is_separator(c: char) -> bool {
    c == '/' || c == '\\'
}

/// The directory a matcher strips from the paths it is asked about: `root`
/// without a leading `./`.
pub open spec fn stored_root(root: Seq<char>) -> Seq<char> {
    if root.len() >= 2 && root[0] == '.' && root[1] == '/' {
        root.subrange(2, root.len() as int)
    } else {
        root
    }
}

/// `relative` can be put to a matcher rooted at `root` as it stands: it
/// does not start at a root (a separator, or a drive and a separator), nor
/// with `./`, nor with the text of the root itself, which the matcher would
/// strip from it.
pub open spec fn gitignore_query_ok(root: Seq<char>, relative: Seq<char>) -> bool {
    let r = stored_root(root);
    &&& relative.len() == 0 || !is_separator(relative[0])
    &&& !(relative.len() >= 2 && relative[0] == '.' && is_separator(relative[1]))
    &&& !(relative.len() >= 3 && relative[1] == ':' && is_separator(relative[2]))
    &&& r.len() == 0 || r == seq!['.'] || !has_prefix(relative, r)
}

/// `ignore::gitignore::GitignoreBuilder`: a matcher rooted at `root`, given
/// each line of `rules` with `add_line` (lines that do not parse are left
/// out, as `GitignoreBuilder::add` leaves them out), then asked with
/// `Gitignore::matched_path_or_any_parents` about `relative`. A matcher
/// that fails to build judges nothing. The answer is named, not stated:
/// it follows the crate's glob semantics. The query panics when the path,
/// after the crate strips a leading `./` and the root's text, starts at a
/// root; `gitignore_query_ok` leaves out every such path.
#[verifier::external_body]
fn gitignore_match(root: &str, rules: &str, relative: &str, is_dir: bool) -> (m: IgnoreMatch)
    requires
        gitignore_query_ok(root@, relative@),
    ensures
        match_code(m) == gitignore_verdict(root@, rules@, relative@, is_dir),
{
    let mut builder = GitignoreBuilder::new(root);
    for line in rules.lines() {
        let _ = builder.add_line(None, line);
    }
    match builder.build() {
        Ok(matcher) => match matcher.matched_path_or_any_parents(relative, is_dir) {
            Match::Ignore(_) => IgnoreMatch::Ignore,
            Match::Whitelist(_) => IgnoreMatch::Whitelist,
            Match::None => IgnoreMatch::Unmatched,
        },
        Err(_) => IgnoreMatch::Unmatched,
    }
}

/// Where the part of a path below `root` starts: right after `root` when
/// it ends in a separator (as `/` or `C:\` do), else after one more.
pub open spec fn rest_start(root: Seq<char>) -> int {
    if root.len() > 0 && is_separator(root[root.len() - 1]) {
        root.len() as int
    } else {
        root.len() + 1int
    }
}

/// The part of `path` below the directory `root`: `path` is `root`, a
/// separator unless `root` ends in one, and a rest that does not start
/// with another separator and that a matcher rooted at `root` can be asked
/// about as it stands.
pub open spec fn spec_relative_below(root: Seq<char>, path: Seq<char>) -> Option<Seq<char>> {
    let k = rest_start(root);
    if path.len() > k && path.subrange(0, root.len() as int) == root
        && (k == root.len() || is_separator(path[root.len() as int]))
        && gitignore_query_ok(root, path.subrange(k, path.len() as int)) {
        Some(path.subrange(k, path.len() as int))
    } else {
        None
    }
}

/// The part of `path` below the directory `root`; see `spec_relative_below`.
pub fn relative_below(root: &str, path: &str) -> (r: Option<String>)
    ensures
        match r {
            Some(rest) => spec_relative_below(root@, path@) == Some(rest@),
            None => spec_relative_below(root@, path@) is None,
        },
{
    let r = chars_of(root);
    let p = chars_of(path);
    let n = r.len();
    let ends_in_separator = n > 0 && (r[n - 1] == '/' || r[n - 1] == '\\');
    let k: usize = if ends_in_separator { n } else {
        if p.len() <= n {
            return None;
        }
        n + 1
    };
    if p.len() <= k || !crate::text::starts_with_chars(&p, &r) {
        return None;
    }
    if !ends_in_separator && !(p[n] == '/' || p[n] == '\\') {
        return None;
    }
    let next = p[k];
    if next == '/' || next == '\\' {
        return None;
    }
    let mut rest: Vec<char> = Vec::new();
    let mut i: usize = k;
    while i < p.len()
        invariant
            k <= i <= p@.len(),
            rest@ == p@.subrange(k as int, i as int),
        decreases p@.len() - i,
    {
        rest.push(p[i]);
        proof {
            assert(p@.subrange(k as int, (i + 1) as int) =~= p@.subrange(k as int, i as int).push(p@[i as int]));
        }
        i = i + 1;
    }
    let n_rest = rest.len();
    if n_rest >= 2 && rest[0] == '.' && (rest[1] == '/' || rest[1] == '\\') {
        return None;
    }
    if n_rest >= 3 && rest[1] == ':' && (rest[2] == '/' || rest[2] == '\\') {
        return None;
    }
    let mut stripped: Vec<char> = Vec::new();
    let start: usize = if n >= 2 && r[0] == '.' && r[1] == '/' { 2 } else { 0 };
    let mut j: usize = start;
    while j < n
        invariant
            start <= j <= n,
            n == r@.len(),
            stripped@ == r@.subrange(start as int, j as int),
        decreases n - j,
    {
        stripped.push(r[j]);
        proof {
            assert(r@.subrange(start as int, (j + 1) as int) =~= r@.subrange(start as int, j as int).push(r@[j as int]));
        }
        j = j + 1;
    }
    proof {
        assert(stripped@ =~= stored_root(r@));
    }
    let is_dot = stripped.len() == 1 && stripped[0] == '.';
    if stripped.len() > 0 && !is_dot && starts_with_chars(&rest, &stripped) {
        return None;
    }
    proof {
        assert(is_dot ==> stripped@ =~= seq!['.']);
    }
    Some(string_from_chars(&rest))
}

/// The prefixes of `dir` that end just before a separator at a position
/// from `from` up to `to` (not included), the separator not doubled:
/// the directories that path passes through there, shortest first.
pub open spec fn separator_cuts(dir: Seq<char>, from: int, to: int) -> Seq<Seq<char>>
    decreases to - from,
{
    if to <= from {
        Seq::empty()
    } else {
        let earlier = separator_cuts(dir, from, to - 1);
        if is_separator(dir[to - 1]) && !is_separator(dir[to - 2]) {
            earlier.push(dir.subrange(0, to - 1))
        } else {
            earlier
        }
    }
}

/// The directories whose ignore files bear on `directory` in a project at
/// `root`: `root`, each directory between them, and `directory` itself,
/// outermost first; none when `directory` is neither `root` nor below it.
pub open spec fn spec_scope_dirs(root: Seq<char>, directory: Seq<char>) -> Seq<Seq<char>> {
    if directory == root {
        seq![root]
    } else if spec_relative_below(root, directory) is Some {
        seq![root] + separator_cuts(directory, rest_start(root), directory.len() - 1) + seq![directory]
    } else {
        Seq::empty()
    }
}

/// The texts of some strings.
pub open spec fn string_views(v: Seq<String>) -> Seq<Seq<char>> {
    v.map_values(|s: String| s@)
}

/// The directories whose ignore files bear on `directory`; see
/// `spec_scope_dirs`.
pub fn ignore_scope_dirs(root: &str, directory: &str) -> (dirs: Vec<String>)
    ensures
        string_views(dirs@) == spec_scope_dirs(root@, directory@),
{
    let r = chars_of(root);
    let d = chars_of(directory);
    let mut dirs: Vec<String> = Vec::new();
    if crate::text::chars_equal(&d, &r) {
        dirs.push(String::from_str(root));
        proof {
            assert(string_views(dirs@) =~= seq![root@]);
        }
        return dirs;
    }
    let below = relative_below(root, directory);
    if below.is_none() {
        proof {
            assert(string_views(dirs@) =~= Seq::<Seq<char>>::empty());
        }
        return dirs;
    }
    proof {
        assert(spec_relative_below(r@, d@) is Some);
        assert(d@.len() > rest_start(r@));
    }
    dirs.push(String::from_str(root));
    let n = r.len();
    let ends = n > 0 && (r[n - 1] == '/' || r[n - 1] == '\\');
    proof {
        assert(ends == (r@.len() > 0 && is_separator(r@[r@.len() - 1])));
        assert(n + 1 <= rest_start(r@) + 1 <= d@.len());
    }
    let dl = d.len();
    assert(n + 1 <= dl);
    let k: usize = if ends { n } else { n + 1 };
    let mut prefix: Vec<char> = Vec::new();
    let mut i: usize = 0;
    while i < k
        invariant
            i <= k < d@.len(),
            prefix@ == d@.subrange(0, i as int),
        decreases k - i,
    {
        prefix.push(d[i]);
        proof {
            assert(d@.subrange(0, (i + 1) as int) =~= d@.subrange(0, i as int).push(d@[i as int]));
        }
        i = i + 1;
    }
    proof {
        assert(string_views(dirs@) =~= seq![root@] + separator_cuts(d@, k as int, k as int));
    }
    let last = d.len() - 1;
    let mut j: usize = k;
    while j < last
        invariant
            1 <= k <= j <= last,
            last == d@.len() - 1,
            k == rest_start(r@),
            prefix@ == d@.subrange(0, j as int),
            string_views(dirs@) == seq![root@] + separator_cuts(d@, k as int, j as int),
        decreases last - j,
    {
        let ghost before = dirs@;
        if (d[j] == '/' || d[j] == '\\') && !(d[j - 1] == '/' || d[j - 1] == '\\') {
            let cut = string_from_chars(&prefix);
            dirs.push(cut);
            proof {
                assert(string_views(dirs@) =~= string_views(before).push(cut@));
            }
        }
        proof {
            assert(string_views(dirs@) =~= seq![root@] + separator_cuts(d@, k as int, (j + 1) as int));
            assert(d@.subrange(0, (j + 1) as int) =~= d@.subrange(0, j as int).push(d@[j as int]));
        }
        prefix.push(d[j]);
        j = j + 1;
    }
    let ghost before = dirs@;
    dirs.push(String::from_str(directory));
    proof {
        assert(string_views(dirs@) =~= string_views(before).push(directory@));
    }
    dirs
}

/// `text` without the byte-order marks it starts with, as ignore files are
/// read.
pub open spec fn spec_strip_bom(text: Seq<char>) -> Seq<char>
    decreases text.len(),
{
    if text.len() > 0 && text[0] == '\u{feff}' {
        spec_strip_bom(text.drop_first())
    } else {
        text
    }
}

/// `text` without its leading byte-order marks.
pub fn strip_bom(text: &str) -> (s: String)
    ensures
        s@ == spec_strip_bom(text@),
{
    let chars = chars_of(text);
    let mut i: usize = 0;
    proof {
        assert(chars@.skip(0) =~= chars@);
    }
    while i < chars.len() && chars[i] == '\u{feff}'
        invariant
            i <= chars@.len(),
            chars@ == text@,
            spec_strip_bom(text@) == spec_strip_bom(chars@.skip(i as int)),
        decreases chars@.len() - i,
    {
        proof {
            assert(chars@.skip(i as int).drop_first() =~= chars@.skip(i + 1));
        }
        i = i + 1;
    }
    let mut rest: Vec<char> = Vec::new();
    let mut k: usize = i;
    while k < chars.len()
        invariant
            i <= k <= chars@.len(),
            rest@ == chars@.subrange(i as int, k as int),
        decreases chars@.len() - k,
    {
        rest.push(chars[k]);
        proof {
            assert(chars@.subrange(i as int, (k + 1) as int) =~= chars@.subrange(i as int, k as int).push(chars@[k as int]));
        }
        k = k + 1;
    }
    proof {
        assert(rest@ =~= chars@.skip(i as int));
    }
    string_from_chars(&rest)
}

/// What the ignore files say of `path`, in order: each scope's file (a
/// directory and the text of its ignore file, from the project root down),
/// then the project's own ignore file, rooted at the project root.
pub open spec fn scope_verdicts(
    project_root: Seq<char>,
    scopes: Seq<(String, String)>,
    override_rules: Option<Seq<char>>,
    path: Seq<char>,
    is_dir: bool,
) -> Seq<IgnoreMatch> {
    let own = scopes.map_values(|s: (String, String)|
        decode_match(gitignore_verdict(s.0@, spec_strip_bom(s.1@), spec_relative_below(s.0@, path)->0, is_dir)));
    match override_rules {
        Some(o) => own.push(decode_match(gitignore_verdict(project_root, spec_strip_bom(o),
            spec_relative_below(project_root, path)->0, is_dir))),
        None => own,
    }
}

/// Whether the indexer leaves out `path`, whose file name is `file_name`:
/// `spec_ignored` over what each ignore file in scope says of it. Every
/// scope, and the project root when it has its own ignore file, must hold
/// the path, as a matcher cannot judge a path outside its directory.
pub fn ignores(
    project_root: &str,
    scopes: &Vec<(String, String)>,
    override_rules: Option<&str>,
    path: &str,
    file_name: Option<&str>,
    is_directory: bool,
) -> (r: bool)
    requires
        override_rules is Some ==> spec_relative_below(project_root@, path@) is Some,
        forall|i: int| 0 <= i < scopes@.len() ==> spec_relative_below((#[trigger] scopes@[i]).0@, path@) is Some,
    ensures
        r == spec_ignored(
            path@ == project_root@,
            match file_name {
                Some(n) => Some(n@),
                None => None,
            },
            scope_verdicts(
                project_root@,
                scopes@,
                match override_rules {
                    Some(o) => Some(o@),
                    None => None,
                },
                path@,
                is_directory,
            ),
        ),
{
    let mut matches: Vec<IgnoreMatch> = Vec::new();
    let mut i: usize = 0;
    while i < scopes.len()
        invariant
            i <= scopes@.len(),
            forall|j: int| 0 <= j < scopes@.len() ==> spec_relative_below((#[trigger] scopes@[j]).0@, path@) is Some,
            matches@ == scopes@.subrange(0, i as int).map_values(|s: (String, String)|
                decode_match(gitignore_verdict(s.0@, spec_strip_bom(s.1@), spec_relative_below(s.0@, path@)->0, is_directory))),
        decreases scopes@.len() - i,
    {
        let root = &scopes[i].0;
        let rules = strip_bom(scopes[i].1.as_str());
        let rest = match relative_below(root.as_str(), path) {
            Some(rest) => rest,
            None => {
                proof {
                    assert(spec_relative_below(scopes@[i as int].0@, path@) is Some);
                }
                return false;
            },
        };
        let m = gitignore_match(root.as_str(), rules.as_str(), rest.as_str(), is_directory);
        proof {
            lemma_decode_match(m);
        }
        matches.push(m);
        proof {
            assert(scopes@.subrange(0, (i + 1) as int) =~= scopes@.subrange(0, i as int).push(scopes@[i as int]));
        }
        i = i + 1;
    }
    proof {
        assert(scopes@.subrange(0, scopes@.len() as int) =~= scopes@);
    }
    match override_rules {
        Some(o) => {
            let rules = strip_bom(o);
            let rest = match relative_below(project_root, path) {
                Some(rest) => rest,
                None => {
                    return false;
                },
            };
            let m = gitignore_match(project_root, rules.as_str(), rest.as_str(), is_directory);
            proof {
                lemma_decode_match(m);
            }
            matches.push(m);
        },
        None => {},
    }
    let is_root = crate::text::chars_equal(&chars_of(path), &chars_of(project_root));
    ignored(is_root, file_name, &matches)
}

proof fn lemma_decode_match(m: IgnoreMatch)
    ensures
        decode_match(match_code(m)) == m,
{
}

} // verus!
