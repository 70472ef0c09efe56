//! The bounded depth-first folder scan.
//!
//! The scan itself never touches the file system: a `ScanSession` asks for
//! one fact at a time (the metadata of an entry, or the listing of a
//! directory) and the caller answers. Everything the scan decides (which
//! entries are skipped, in what order children are visited, where the node
//! and per-directory limits cut the tree, and the totals) happens here.

use vstd::prelude::*;
use crate::models::{NodeKind, ScanIssue, ScanStats, Snapshot, SnapshotNode};
use crate::text::{
    ascii_lowercase_chars, chars_le, chars_less_eq, lemma_chars_le_total, lemma_chars_le_trans, chars_of, ends_with_chars, has_suffix, normalize_path,
    spec_ascii_lowercase, spec_normalize_path,
};

verus! {

/// Names and name suffixes of entries that a scan skips.
#[derive(Debug, Clone)]
pub struct IgnoreRules {
    pub names: Vec<String>,
    pub suffixes: Vec<String>,
}

impl IgnoreRules {
    /// An entry called `name` is skipped: its name is one of `names`, or it
    /// ends with one of `suffixes`.
    pub open spec fn spec_ignores(&self, name: Seq<char>) -> bool {
        ||| exists|i: int| 0 <= i < self.names@.len() && #[trigger] self.names@[i]@ == name
        ||| exists|j: int| 0 <= j < self.suffixes@.len() && has_suffix(name, #[trigger] self.suffixes@[j]@)
    }

    /// Whether an entry called `name` is skipped.
    pub fn ignores(&self, name: &str) -> (b: bool)
        ensures
            b == self.spec_ignores(name@),
    {
        let owned = String::from_str(name);
        let mut i: usize = 0;
        while i < self.names.len()
            invariant
                owned@ == name@,
                i <= self.names@.len(),
                forall|k: int| 0 <= k < i ==> self.names@[k]@ != name@,
            decreases self.names@.len() - i,
        {
            if self.names[i] == owned {
                return true;
            }
            i = i + 1;
        }
        let chars = chars_of(name);
        let mut j: usize = 0;
        while j < self.suffixes.len()
            invariant
                chars@ == name@,
                j <= self.suffixes@.len(),
                forall|k: int| 0 <= k < self.names@.len() ==> self.names@[k]@ != name@,
                forall|k: int| 0 <= k < j ==> !has_suffix(name@, #[trigger] self.suffixes@[k]@),
            decreases self.suffixes@.len() - j,
        {
            let suffix = chars_of(self.suffixes[j].as_str());
            if ends_with_chars(&chars, &suffix) {
                return true;
            }
            j = j + 1;
        }
        false
    }

    /// The generated and tool folders skipped by default, and `.egg-info`.
    pub open spec fn is_default(self) -> bool {
        &&& self.names@.map_values(|s: String| s@) == seq![
            ".git"@, "__pycache__"@, ".venv"@, "node_modules"@, "target"@, ".shitview"@,
            ".pytest_cache"@, ".mypy_cache"@, ".ruff_cache"@,
        ]
        &&& self.suffixes@.map_values(|s: String| s@) == seq![".egg-info"@]
    }
}

impl Default for IgnoreRules {
    fn default() -> (r: Self)
        ensures
            r.is_default(),
    {
        let mut names: Vec<String> = Vec::new();
        names.push(String::from_str(".git"));
        names.push(String::from_str("__pycache__"));
        names.push(String::from_str(".venv"));
        names.push(String::from_str("node_modules"));
        names.push(String::from_str("target"));
        names.push(String::from_str(".shitview"));
        names.push(String::from_str(".pytest_cache"));
        names.push(String::from_str(".mypy_cache"));
        names.push(String::from_str(".ruff_cache"));
        let mut suffixes: Vec<String> = Vec::new();
        suffixes.push(String::from_str(".egg-info"));
        let r = IgnoreRules { names, suffixes };
        assert(r.names@.map_values(|s: String| s@) =~= seq![
            ".git"@, "__pycache__"@, ".venv"@, "node_modules"@, "target"@, ".shitview"@,
            ".pytest_cache"@, ".mypy_cache"@, ".ruff_cache"@,
        ]);
        assert(r.suffixes@.map_values(|s: String| s@) =~= seq![".egg-info"@]);
        r
    }
}

/// Limits of one scan and the entries it skips.
#[derive(Debug, Clone)]
pub struct ScanConfig {
    pub max_nodes: usize,
    pub max_children_per_directory: usize,
    pub rules: IgnoreRules,
}

impl Default for ScanConfig {
    fn default() -> (c: Self)
        ensures
            c.max_nodes == 1600,
            c.max_children_per_directory == 180,
            c.rules.is_default(),
    {
        ScanConfig { max_nodes: 1600, max_children_per_directory: 180, rules: IgnoreRules::default() }
    }
}

/// A directory entry as the caller found it.
///
/// `handle` is the caller's own name for the entry, which the session hands
/// back when it asks about it; `path` is the entry's path as text (lossy where
/// it is not Unicode); `name` is its file name where that is valid Unicode;
/// `sort_name` is its file name as text (lossy where it is not Unicode).
#[derive(Debug, Clone)]
pub struct FsEntry {
    pub handle: usize,
    pub path: String,
    pub name: Option<String>,
    pub sort_name: String,
}

impl FsEntry {
    /// A copy of this entry.
    pub fn duplicate(&self) -> (r: FsEntry)
        ensures
            r == *self,
    {
        let name = match &self.name {
            Some(n) => Some(n.clone()),
            None => None,
        };
        FsEntry { handle: self.handle, path: self.path.clone(), name, sort_name: self.sort_name.clone() }
    }
}

/// What the file system reported of an entry, without following links.
#[derive(Debug, Clone, Copy)]
pub struct EntryMetadata {
    pub is_symlink: bool,
    pub is_dir: bool,
    pub is_file: bool,
    pub len: u64,
    pub modified_unix_ms: Option<u128>,
}

/// The kind of node that metadata describes; a link is a link whatever it
/// points to.
pub open spec fn spec_kind(m: EntryMetadata) -> NodeKind {
    if m.is_symlink {
        NodeKind::Symlink
    } else if m.is_dir {
        NodeKind::Directory
    } else if m.is_file {
        NodeKind::File
    } else {
        NodeKind::Other
    }
}

/// The kind of node that metadata describes.
pub fn node_kind(m: &EntryMetadata) -> (k: NodeKind)
    ensures
        k == spec_kind(*m),
{
    if m.is_symlink {
        NodeKind::Symlink
    } else if m.is_dir {
        NodeKind::Directory
    } else if m.is_file {
        NodeKind::File
    } else {
        NodeKind::Other
    }
}

/// An entry is skipped when its file name is valid Unicode and the rules skip it.
pub open spec fn entry_ignored(rules: IgnoreRules, e: FsEntry) -> bool {
    match e.name {
        Some(n) => rules.spec_ignores(n@),
        None => false,
    }
}

/// The listed entries that were read and are not skipped, in listing order.
pub open spec fn kept_entries(rules: IgnoreRules, listing: Seq<Result<FsEntry, String>>) -> Seq<FsEntry>
    decreases listing.len(),
{
    if listing.len() == 0 {
        Seq::empty()
    } else {
        let rest = kept_entries(rules, listing.drop_last());
        match listing.last() {
            Ok(e) => if entry_ignored(rules, e) { rest } else { rest.push(e) },
            Err(_) => rest,
        }
    }
}

/// The key by which siblings are ordered: the file name, ASCII letters in lower case.
pub open spec fn sort_key(e: FsEntry) -> Seq<char> {
    spec_ascii_lowercase(e.sort_name@)
}

/// `x` placed after the last element of the sorted `s` whose key is not
/// greater than its own.
pub open spec fn insert_by_key(s: Seq<FsEntry>, x: FsEntry) -> Seq<FsEntry>
    decreases s.len(),
{
    if s.len() == 0 {
        seq![x]
    } else if chars_le(sort_key(s.last()), sort_key(x)) {
        s.push(x)
    } else {
        insert_by_key(s.drop_last(), x).push(s.last())
    }
}

/// `s` ordered by `sort_key`, entries with equal keys in the order they were listed.
pub open spec fn sorted_by_key(s: Seq<FsEntry>) -> Seq<FsEntry>
    decreases s.len(),
{
    if s.len() == 0 {
        Seq::empty()
    } else {
        insert_by_key(sorted_by_key(s.drop_last()), s.last())
    }
}

/// The children of a directory in the order a scan visits them.
pub open spec fn spec_prepare(rules: IgnoreRules, listing: Seq<Result<FsEntry, String>>) -> Seq<FsEntry> {
    sorted_by_key(kept_entries(rules, listing))
}

/// The nodes `kids` are in key order of the entries `v` they were made from.
pub open spec fn children_sorted(v: Seq<FsEntry>, kids: Seq<usize>) -> bool {
    forall|k: int, l: int| 0 <= k < l < kids.len()
        ==> chars_le(sort_key(v[(#[trigger] kids[k]) as int]), sort_key(v[(#[trigger] kids[l]) as int]))
}

/// `s` is ordered by `sort_key`.
pub open spec fn keys_sorted(s: Seq<FsEntry>) -> bool {
    forall|i: int, j: int| 0 <= i < j < s.len() ==> chars_le(sort_key(#[trigger] s[i]), sort_key(#[trigger] s[j]))
}

/// Inserting adds `x` and keeps every element of `s`, and nothing else.
proof fn lemma_insert_contents(s: Seq<FsEntry>, x: FsEntry)
    ensures
        insert_by_key(s, x).len() == s.len() + 1,
        forall|k: int| 0 <= k < s.len() + 1 ==> #[trigger] insert_by_key(s, x)[k] == x
            || s.contains(insert_by_key(s, x)[k]),
    decreases s.len(),
{
    if s.len() > 0 && !chars_le(sort_key(s.last()), sort_key(x)) {
        let t = s.drop_last();
        lemma_insert_contents(t, x);
        let r = insert_by_key(s, x);
        assert forall|k: int| 0 <= k < s.len() + 1 implies #[trigger] r[k] == x || s.contains(r[k]) by {
            if k < s.len() {
                if insert_by_key(t, x)[k] != x {
                    let m = choose|m: int| 0 <= m < t.len() && t[m] == insert_by_key(t, x)[k];
                    assert(s[m] == t[m]);
                }
            } else {
                assert(s[s.len() - 1] == s.last());
            }
        }
    } else if s.len() > 0 {
        let r = insert_by_key(s, x);
        assert forall|k: int| 0 <= k < s.len() + 1 implies #[trigger] r[k] == x || s.contains(r[k]) by {
            if k < s.len() {
                assert(r[k] == s[k]);
            }
        }
    }
}

/// Inserting into a sorted sequence keeps it sorted.
proof fn lemma_insert_sorted(s: Seq<FsEntry>, x: FsEntry)
    requires
        keys_sorted(s),
    ensures
        keys_sorted(insert_by_key(s, x)),
    decreases s.len(),
{
    if s.len() == 0 {
    } else if chars_le(sort_key(s.last()), sort_key(x)) {
        let r = s.push(x);
        assert forall|i: int, j: int| 0 <= i < j < r.len() implies chars_le(sort_key(#[trigger] r[i]),
            sort_key(#[trigger] r[j])) by {
            if j == s.len() && i < s.len() - 1 {
                lemma_chars_le_trans(sort_key(s[i]), sort_key(s[s.len() - 1]), sort_key(x));
            }
        }
    } else {
        let t = s.drop_last();
        assert forall|i: int, j: int| 0 <= i < j < t.len() implies chars_le(sort_key(#[trigger] t[i]),
            sort_key(#[trigger] t[j])) by {
            assert(t[i] == s[i] && t[j] == s[j]);
        }
        lemma_insert_sorted(t, x);
        lemma_insert_contents(t, x);
        lemma_chars_le_total(sort_key(s.last()), sort_key(x));
        let u = insert_by_key(t, x);
        let r = u.push(s.last());
        assert forall|i: int, j: int| 0 <= i < j < r.len() implies chars_le(sort_key(#[trigger] r[i]),
            sort_key(#[trigger] r[j])) by {
            if j == u.len() {
                assert(u[i] == x || t.contains(u[i]));
                if u[i] != x {
                    let m = choose|m: int| 0 <= m < t.len() && t[m] == u[i];
                    assert(s[m] == t[m]);
                    assert(s[s.len() - 1] == s.last());
                }
            } else {
                assert(r[i] == u[i] && r[j] == u[j]);
            }
        }
    }
}

/// A stable sort by key yields a sequence ordered by key.
proof fn lemma_sorted_by_key_sorted(s: Seq<FsEntry>)
    ensures
        keys_sorted(sorted_by_key(s)),
    decreases s.len(),
{
    if s.len() > 0 {
        lemma_sorted_by_key_sorted(s.drop_last());
        lemma_insert_sorted(sorted_by_key(s.drop_last()), s.last());
    }
}

/// Inserting at `j` is `insert_by_key` when every element from `j` on has a
/// greater key and the one before `j`, if any, does not.
proof fn lemma_insert_at(s: Seq<FsEntry>, x: FsEntry, j: int)
    requires
        0 <= j <= s.len(),
        j > 0 ==> chars_le(sort_key(s[j - 1]), sort_key(x)),
        forall|k: int| j <= k < s.len() ==> !chars_le(sort_key(#[trigger] s[k]), sort_key(x)),
    ensures
        insert_by_key(s, x) == s.insert(j, x),
    decreases s.len(),
{
    if s.len() == 0 {
        assert(s.insert(j, x) =~= seq![x]);
    } else if j == s.len() {
        assert(s.insert(j, x) =~= s.push(x));
    } else {
        assert(!chars_le(sort_key(s[s.len() - 1]), sort_key(x)));
        let t = s.drop_last();
        assert forall|k: int| j <= k < t.len() implies !chars_le(sort_key(#[trigger] t[k]), sort_key(x)) by {
            assert(t[k] == s[k]);
        }
        lemma_insert_at(t, x, j);
        assert(s.insert(j, x) =~= t.insert(j, x).push(s.last()));
    }
}

/// The children of a directory in the order a scan visits them: the entries
/// that were read and are not skipped, stably sorted by `sort_key`.
pub fn prepare_children(rules: &IgnoreRules, listing: &Vec<Result<FsEntry, String>>) -> (r: Vec<FsEntry>)
    ensures
        r@ == spec_prepare(*rules, listing@),
{
    let mut sorted: Vec<FsEntry> = Vec::new();
    let mut keys: Vec<Vec<char>> = Vec::new();
    let mut i: usize = 0;
    while i < listing.len()
        invariant
            i <= listing@.len(),
            sorted@ == sorted_by_key(kept_entries(*rules, listing@.subrange(0, i as int))),
            keys@.len() == sorted@.len(),
            forall|k: int| 0 <= k < keys@.len() ==> #[trigger] keys@[k]@ == sort_key(sorted@[k]),
        decreases listing@.len() - i,
    {
        let ghost before = listing@.subrange(0, i as int);
        proof {
            assert(listing@.subrange(0, (i + 1) as int).drop_last() =~= before);
            assert(listing@.subrange(0, (i + 1) as int).last() == listing@[i as int]);
        }
        match &listing[i] {
            Ok(entry) => {
                let skip = match &entry.name {
                    Some(n) => rules.ignores(n.as_str()),
                    None => false,
                };
                if !skip {
                    let key = ascii_lowercase_chars(entry.sort_name.as_str());
                    let mut j: usize = sorted.len();
                    while j > 0 && !chars_less_eq(&keys[j - 1], &key)
                        invariant
                            j <= sorted@.len(),
                            keys@.len() == sorted@.len(),
                            forall|k: int| 0 <= k < keys@.len() ==> #[trigger] keys@[k]@ == sort_key(sorted@[k]),
                            key@ == sort_key(*entry),
                            forall|k: int| j <= k < sorted@.len() ==> !chars_le(sort_key(#[trigger] sorted@[k]), sort_key(*entry)),
                        decreases j,
                    {
                        j = j - 1;
                    }
                    proof {
                        if j > 0 {
                            assert(keys@[j - 1]@ == sort_key(sorted@[j - 1]));
                        }
                        lemma_insert_at(sorted@, *entry, j as int);
                        let kept = kept_entries(*rules, before);
                        assert(kept_entries(*rules, listing@.subrange(0, (i + 1) as int)) == kept.push(*entry));
                        assert(kept.push(*entry).drop_last() =~= kept);
                    }
                    let ghost keys_before = keys@;
                    sorted.insert(j, entry.duplicate());
                    keys.insert(j, key);
                    proof {
                        assert forall|k: int| 0 <= k < keys@.len() implies #[trigger] keys@[k]@ == sort_key(sorted@[k]) by {
                            if k < j {
                            } else if k == j {
                            } else {
                                assert(keys@[k] == keys_before[k - 1]);
                            }
                        }
                    }
                }
            },
            Err(_) => {},
        }
        proof {
            let next = listing@.subrange(0, (i + 1) as int);
            if listing@[i as int] is Ok {
                if entry_ignored(*rules, listing@[i as int]->Ok_0) {
                    assert(kept_entries(*rules, next) == kept_entries(*rules, before));
                }
            } else {
                assert(kept_entries(*rules, next) == kept_entries(*rules, before));
            }
        }
        i = i + 1;
    }
    proof {
        assert(listing@.subrange(0, listing@.len() as int) =~= listing@);
    }
    sorted
}

} // verus!

verus! {

/// The sum of the sizes of the nodes at indices `kids`.
pub open spec fn children_size(nodes: Seq<SnapshotNode>, kids: Seq<usize>) -> nat
    decreases kids.len(),
{
    if kids.len() == 0 {
        0
    } else {
        children_size(nodes, kids.drop_last()) + (nodes[kids.last() as int].size as nat)
    }
}

/// `n`, or the largest `u64` where `n` is larger.
pub open spec fn capped(n: nat) -> nat {
    if n > u64::MAX { u64::MAX as nat } else { n }
}

/// How many of `nodes` are of kind `k`.
pub open spec fn count_kind(nodes: Seq<SnapshotNode>, k: NodeKind) -> nat
    decreases nodes.len(),
{
    if nodes.len() == 0 {
        0
    } else {
        count_kind(nodes.drop_last(), k) + if nodes.last().kind == k { 1nat } else { 0nat }
    }
}

/// Node `i` is a well-formed part of the tree: its children come after it,
/// one level deeper, in increasing order, at most `max_children` of them; it
/// is marked truncated exactly when it had more children than that; only a
/// directory has children, and a directory's size is the sum of its
/// children's sizes.
pub open spec fn node_consistent(nodes: Seq<SnapshotNode>, i: int, max_children: usize) -> bool {
    let n = nodes[i];
    &&& n.depth <= i
    &&& n.children@.len() <= max_children
    &&& n.children@.len() <= n.child_count
    &&& n.truncated == (n.child_count > max_children)
    &&& forall|k: int| 0 <= k < n.children@.len() ==> i < #[trigger] n.children@[k] < nodes.len()
        && nodes[n.children@[k] as int].depth == n.depth + 1
    &&& forall|k: int, l: int| 0 <= k < l < n.children@.len() ==> n.children@[k] < n.children@[l]
    &&& n.kind != NodeKind::Directory ==> n.children@.len() == 0 && n.child_count == 0 && !n.truncated
    &&& n.kind == NodeKind::Directory ==> n.size == capped(children_size(nodes, n.children@))
}

/// Node `i` is among the children of some node.
pub open spec fn has_parent(nodes: Seq<SnapshotNode>, i: int) -> bool {
    exists|p: int| 0 <= p < nodes.len() && (#[trigger] nodes[p].children@).contains(i as usize)
}

/// The nodes form one tree under the first: every other node is among the
/// children of exactly one node.
pub open spec fn one_parent_each(nodes: Seq<SnapshotNode>) -> bool {
    &&& forall|i: int| 1 <= i < nodes.len() ==> #[trigger] has_parent(nodes, i)
    &&& forall|p: int, q: int, i: usize| 0 <= p < nodes.len() && 0 <= q < nodes.len()
        && #[trigger] nodes[p].children@.contains(i) && #[trigger] nodes[q].children@.contains(i) ==> p == q
}

/// What every finished scan promises of its snapshot: no more nodes than the
/// limit, totals that match the nodes and issues, a consistent tree in which
/// every node but the first is the child of exactly one node, and
/// `is_truncated` set exactly when something was left out, so that a partial
/// scan never passes for a complete one.
pub open spec fn snapshot_consistent(s: Snapshot, config: ScanConfig) -> bool {
    let nodes = s.nodes@;
    &&& nodes.len() <= config.max_nodes
    &&& s.stats.scanned_nodes == nodes.len()
    &&& s.stats.directory_count == count_kind(nodes, NodeKind::Directory)
    &&& s.stats.file_count == count_kind(nodes, NodeKind::File)
    &&& s.stats.symlink_count == count_kind(nodes, NodeKind::Symlink)
    &&& s.stats.other_count == count_kind(nodes, NodeKind::Other)
    &&& s.stats.issue_count == s.issues@.len()
    &&& (s.stats.is_truncated <==> s.stats.omitted_nodes > 0)
    &&& forall|i: int| 0 <= i < nodes.len() ==> node_consistent(nodes, i, config.max_children_per_directory)
    &&& forall|i: int| 0 <= i < nodes.len() && (#[trigger] nodes[i]).truncated ==> s.stats.is_truncated
    &&& one_parent_each(nodes)
}

proof fn lemma_children_size_push(nodes: Seq<SnapshotNode>, x: SnapshotNode, kids: Seq<usize>)
    requires
        forall|k: int| 0 <= k < kids.len() ==> #[trigger] kids[k] < nodes.len(),
    ensures
        children_size(nodes.push(x), kids) == children_size(nodes, kids),
    decreases kids.len(),
{
    if kids.len() > 0 {
        let t = kids.drop_last();
        assert forall|k: int| 0 <= k < t.len() implies #[trigger] t[k] < nodes.len() by {
            assert(t[k] == kids[k]);
        }
        lemma_children_size_push(nodes, x, t);
    }
}

proof fn lemma_children_size_update(nodes: Seq<SnapshotNode>, p: int, x: SnapshotNode, kids: Seq<usize>)
    requires
        0 <= p < nodes.len(),
        forall|k: int| 0 <= k < kids.len() ==> #[trigger] kids[k] < nodes.len() && kids[k] != p,
    ensures
        children_size(nodes.update(p, x), kids) == children_size(nodes, kids),
    decreases kids.len(),
{
    if kids.len() > 0 {
        let t = kids.drop_last();
        assert forall|k: int| 0 <= k < t.len() implies #[trigger] t[k] < nodes.len() && t[k] != p by {
            assert(t[k] == kids[k]);
        }
        lemma_children_size_update(nodes, p, x, t);
    }
}

proof fn lemma_count_push(nodes: Seq<SnapshotNode>, x: SnapshotNode, k: NodeKind)
    ensures
        count_kind(nodes.push(x), k) == count_kind(nodes, k) + if x.kind == k { 1nat } else { 0nat },
{
    assert(nodes.push(x).drop_last() =~= nodes);
}

proof fn lemma_count_update(nodes: Seq<SnapshotNode>, p: int, x: SnapshotNode, k: NodeKind)
    requires
        0 <= p < nodes.len(),
        x.kind == nodes[p].kind,
    ensures
        count_kind(nodes.update(p, x), k) == count_kind(nodes, k),
    decreases nodes.len(),
{
    if p == nodes.len() - 1 {
        assert(nodes.update(p, x).drop_last() =~= nodes.drop_last());
    } else {
        assert(nodes.update(p, x).drop_last() =~= nodes.drop_last().update(p, x));
        lemma_count_update(nodes.drop_last(), p, x, k);
    }
}

proof fn lemma_count_total(nodes: Seq<SnapshotNode>)
    ensures
        count_kind(nodes, NodeKind::Directory) + count_kind(nodes, NodeKind::File)
            + count_kind(nodes, NodeKind::Symlink) + count_kind(nodes, NodeKind::Other) == nodes.len(),
    decreases nodes.len(),
{
    if nodes.len() > 0 {
        lemma_count_total(nodes.drop_last());
    }
}

/// A node no larger than what the session may still add: any count of one
/// kind is at most the number of nodes.
proof fn lemma_count_bound(nodes: Seq<SnapshotNode>, k: NodeKind)
    ensures
        count_kind(nodes, k) <= nodes.len(),
{
    lemma_count_total(nodes);
}

} // verus!

verus! {

/// What a scan session needs from the caller next.
#[derive(Debug, Clone, Copy, PartialEq, Eq, Structural)]
pub enum ScanRequest {
    /// The metadata of the entry with this handle.
    Metadata(usize),
    /// The entries of the directory with this handle.
    ReadDir(usize),
    /// Nothing: the scan is over.
    Finished,
}

/// The caller's answer to a `ScanRequest`.
#[derive(Debug)]
pub enum ScanResponse {
    /// The metadata of the entry, or why it could not be read.
    Metadata(Result<EntryMetadata, String>),
    /// The directory's entries in listing order, each read or failed, or why
    /// the directory could not be opened.
    ReadDir(Result<Vec<Result<FsEntry, String>>, String>),
}

/// The display name of a visited entry: its file name, or its whole path
/// where it has no usable file name.
pub open spec fn spec_display_name(e: FsEntry) -> Seq<char> {
    match e.name {
        Some(n) => if n@.len() > 0 { n@ } else { e.path@ },
        None => e.path@,
    }
}

/// `n` is the node that a scan makes of entry `e` at `depth` with metadata `m`
/// (a directory's size, children and truncation are settled once its
/// children have been visited).
pub open spec fn visited_node(n: SnapshotNode, e: FsEntry, depth: usize, m: EntryMetadata) -> bool {
    &&& n.path@ == spec_normalize_path(e.path@)
    &&& n.name@ == spec_display_name(e)
    &&& n.kind == spec_kind(m)
    &&& n.depth == depth
    &&& n.modified_unix_ms == m.modified_unix_ms
    &&& n.kind != NodeKind::Directory ==> {
        &&& n.size == if m.is_file { m.len } else { 0 }
        &&& n.children@.len() == 0
        &&& n.child_count == 0
        &&& !n.truncated
    }
}

/// `i` records that `operation` failed on `path` with `message`.
pub open spec fn issue_is(i: ScanIssue, path: Seq<char>, operation: Seq<char>, message: Seq<char>) -> bool {
    i.path@ == path && i.operation@ == operation && i.message@ == message
}

/// The messages of the entries of a listing that could not be read, in order.
pub open spec fn listing_errors(listing: Seq<Result<FsEntry, String>>) -> Seq<Seq<char>>
    decreases listing.len(),
{
    if listing.len() == 0 {
        Seq::empty()
    } else {
        let rest = listing_errors(listing.drop_last());
        match listing.last() {
            Ok(_) => rest,
            Err(m) => rest.push(m@),
        }
    }
}

struct Frame {
    node: usize,
    entries: Vec<FsEntry>,
    next: usize,
    children: Vec<usize>,
    total: usize,
    omitted: usize,
}

enum Waiting {
    Metadata { entry: FsEntry, depth: usize },
    ReadDir { node: usize, handle: usize, path: String },
    Done,
}

/// A scan in progress. See the module documentation.
pub struct ScanSession {
    config: ScanConfig,
    root: String,
    nodes: Vec<SnapshotNode>,
    issues: Vec<ScanIssue>,
    stats: ScanStats,
    frames: Vec<Frame>,
    waiting: Waiting,
    limit_hit: Ghost<bool>,
    parents: Ghost<Seq<int>>,
    sources: Ghost<Seq<FsEntry>>,
}

/// `n` plus `k`, held at the bound of `usize`.
spec fn plus_capped(n: usize, k: nat) -> int {
    if n + k <= usize::MAX { n + k } else { usize::MAX as int }
}

/// `a` plus `k`, held at the bound of `usize`.
pub open spec fn capped_add(a: int, k: int) -> int {
    if a + k <= usize::MAX { a + k } else { usize::MAX as int }
}

/// Adding in two steps, each held at the bound, is adding once.
proof fn lemma_capped_twice(x: int, a: int, b: int)
    requires
        x <= usize::MAX,
        a >= 0,
        b >= 0,
    ensures
        capped_add(capped_add(x, a), b) == capped_add(x, a + b),
{
}

spec fn frame_ok(nodes: Seq<SnapshotNode>, f: Frame, max_children: usize) -> bool {
    &&& f.node < nodes.len()
    &&& nodes[f.node as int].kind == NodeKind::Directory
    &&& f.entries@.len() <= max_children
    &&& f.next <= f.entries@.len()
    &&& f.children@.len() <= f.next
    &&& f.entries@.len() + f.omitted == f.total
    &&& (f.omitted > 0 ==> f.entries@.len() == max_children)
    &&& forall|k: int| 0 <= k < f.children@.len() ==> f.node < #[trigger] f.children@[k] < nodes.len()
        && nodes[f.children@[k] as int].depth == nodes[f.node as int].depth + 1
    &&& forall|k: int, l: int| 0 <= k < l < f.children@.len() ==> f.children@[k] < f.children@[l]
}

spec fn held_by_frame(frames: Seq<Frame>, i: int) -> bool {
    exists|k: int| 0 <= k < frames.len() && (#[trigger] frames[k]).node == i
}

/// The entries of the open directories in `frames` that are still to be
/// visited.
spec fn frames_pending(frames: Seq<Frame>) -> nat
    decreases frames.len(),
{
    if frames.len() == 0 {
        0
    } else {
        frames_pending(frames.drop_last()) + (frames.last().entries@.len() - frames.last().next) as nat
    }
}

/// Frames that agree in their entry counts and positions have as many
/// entries left.
proof fn lemma_pending_same(a: Seq<Frame>, b: Seq<Frame>)
    requires
        a.len() == b.len(),
        forall|k: int| 0 <= k < a.len() ==> (#[trigger] a[k]).entries@.len() == b[k].entries@.len()
            && a[k].next == b[k].next,
    ensures
        frames_pending(a) == frames_pending(b),
    decreases a.len(),
{
    if a.len() > 0 {
        let (x, y) = (a.drop_last(), b.drop_last());
        assert forall|k: int| 0 <= k < x.len() implies (#[trigger] x[k]).entries@.len() == y[k].entries@.len()
            && x[k].next == y[k].next by {
            assert(x[k] == a[k] && y[k] == b[k]);
        }
        lemma_pending_same(x, y);
        assert(a.last() == a[a.len() - 1] && b.last() == b[b.len() - 1]);
    }
}

/// The entries that the per-directory limit cut from the open directories
/// in `frames`; they are counted as omitted when their directory closes.
spec fn frames_cut(frames: Seq<Frame>) -> nat
    decreases frames.len(),
{
    if frames.len() == 0 {
        0
    } else {
        frames_cut(frames.drop_last()) + frames.last().omitted as nat
    }
}

/// Frames that agree in their cuts have as many cut entries.
proof fn lemma_cut_same(a: Seq<Frame>, b: Seq<Frame>)
    requires
        a.len() == b.len(),
        forall|k: int| 0 <= k < a.len() ==> (#[trigger] a[k]).omitted == b[k].omitted,
    ensures
        frames_cut(a) == frames_cut(b),
    decreases a.len(),
{
    if a.len() > 0 {
        let (x, y) = (a.drop_last(), b.drop_last());
        assert forall|k: int| 0 <= k < x.len() implies (#[trigger] x[k]).omitted == y[k].omitted by {
            assert(x[k] == a[k] && y[k] == b[k]);
        }
        lemma_cut_same(x, y);
        assert(a.last() == a[a.len() - 1] && b.last() == b[b.len() - 1]);
    }
}

/// Opening a directory adds its cut.
proof fn lemma_cut_push(a: Seq<Frame>, f: Frame)
    ensures
        frames_cut(a.push(f)) == frames_cut(a) + f.omitted,
{
    assert(a.push(f).drop_last() =~= a);
}

/// Closing the innermost directory takes its cut out of the open ones.
proof fn lemma_cut_close(a: Seq<Frame>, b: Seq<Frame>)
    requires
        a.len() > 0,
        b.len() == a.len() - 1,
        forall|k: int| 0 <= k < b.len() ==> (#[trigger] b[k]).omitted == a[k].omitted,
    ensures
        frames_cut(a) == frames_cut(b) + a.last().omitted,
{
    let x = a.drop_last();
    assert forall|k: int| 0 <= k < b.len() implies (#[trigger] b[k]).omitted == x[k].omitted by {
        assert(x[k] == a[k]);
    }
    lemma_cut_same(b, x);
}

/// The entries of the open directories in `frames` still to be visited, in
/// the order the walk reaches them: the innermost directory's first.
spec fn frames_queue(frames: Seq<Frame>) -> Seq<FsEntry>
    decreases frames.len(),
{
    if frames.len() == 0 {
        Seq::empty()
    } else {
        let f = frames.last();
        f.entries@.subrange(f.next as int, f.entries@.len() as int) + frames_queue(frames.drop_last())
    }
}

/// The queue holds as many entries as are left to visit.
proof fn lemma_queue_len(a: Seq<Frame>)
    requires
        forall|k: int| 0 <= k < a.len() ==> (#[trigger] a[k]).next <= a[k].entries@.len(),
    ensures
        frames_queue(a).len() == frames_pending(a),
    decreases a.len(),
{
    if a.len() > 0 {
        let x = a.drop_last();
        assert forall|k: int| 0 <= k < x.len() implies (#[trigger] x[k]).next <= x[k].entries@.len() by {
            assert(x[k] == a[k]);
        }
        lemma_queue_len(x);
        assert(a.last() == a[a.len() - 1]);
    }
}

/// Frames that agree in their entries and positions queue the same entries.
proof fn lemma_queue_same(a: Seq<Frame>, b: Seq<Frame>)
    requires
        a.len() == b.len(),
        forall|k: int| 0 <= k < a.len() ==> (#[trigger] a[k]).entries@ == b[k].entries@ && a[k].next == b[k].next,
    ensures
        frames_queue(a) == frames_queue(b),
    decreases a.len(),
{
    if a.len() > 0 {
        let (x, y) = (a.drop_last(), b.drop_last());
        assert forall|k: int| 0 <= k < x.len() implies (#[trigger] x[k]).entries@ == y[k].entries@
            && x[k].next == y[k].next by {
            assert(x[k] == a[k] && y[k] == b[k]);
        }
        lemma_queue_same(x, y);
        assert(a.last() == a[a.len() - 1] && b.last() == b[b.len() - 1]);
    }
}

/// Opening a directory puts its unvisited entries first.
proof fn lemma_queue_push(a: Seq<Frame>, f: Frame)
    ensures
        frames_queue(a.push(f)) == f.entries@.subrange(f.next as int, f.entries@.len() as int) + frames_queue(a),
{
    assert(a.push(f).drop_last() =~= a);
}

/// Stepping past the next entry of the innermost directory takes the first
/// entry off the queue.
proof fn lemma_queue_step(a: Seq<Frame>, b: Seq<Frame>)
    requires
        a.len() > 0,
        a.len() == b.len(),
        forall|k: int| 0 <= k < a.len() - 1 ==> #[trigger] b[k] == a[k],
        b.last().entries == a.last().entries,
        b.last().next == a.last().next + 1,
        a.last().next < a.last().entries@.len(),
    ensures
        frames_queue(a).len() > 0,
        frames_queue(a)[0] == a.last().entries@[a.last().next as int],
        frames_queue(b) == frames_queue(a).drop_first(),
{
    assert(a.drop_last() =~= b.drop_last());
    let (f, g) = (a.last(), b.last());
    assert(f.entries@.subrange(f.next as int, f.entries@.len() as int).drop_first()
        =~= g.entries@.subrange(g.next as int, g.entries@.len() as int));
    assert(frames_queue(b) =~= frames_queue(a).drop_first());
}

/// Closing an exhausted innermost directory leaves the queue as it was.
proof fn lemma_queue_close(a: Seq<Frame>, b: Seq<Frame>)
    requires
        a.len() > 0,
        b.len() == a.len() - 1,
        a.last().next == a.last().entries@.len(),
        forall|k: int| 0 <= k < b.len() ==> (#[trigger] b[k]).entries@ == a[k].entries@ && b[k].next == a[k].next,
    ensures
        frames_queue(b) == frames_queue(a),
{
    let x = a.drop_last();
    assert forall|k: int| 0 <= k < b.len() implies (#[trigger] b[k]).entries@ == x[k].entries@
        && b[k].next == x[k].next by {
        assert(x[k] == a[k]);
    }
    lemma_queue_same(b, x);
    let f = a.last();
    assert(f.entries@.subrange(f.next as int, f.entries@.len() as int) =~= Seq::<FsEntry>::empty());
    assert(frames_queue(a) =~= frames_queue(x));
}

/// Opening a directory adds its unvisited entries.
proof fn lemma_pending_push(a: Seq<Frame>, f: Frame)
    requires
        f.next <= f.entries@.len(),
    ensures
        frames_pending(a.push(f)) == frames_pending(a) + (f.entries@.len() - f.next),
{
    assert(a.push(f).drop_last() =~= a);
}

/// Stepping past one entry of the innermost directory leaves one fewer.
proof fn lemma_pending_step(a: Seq<Frame>, b: Seq<Frame>)
    requires
        a.len() > 0,
        a.len() == b.len(),
        forall|k: int| 0 <= k < a.len() - 1 ==> #[trigger] b[k] == a[k],
        b.last().entries@.len() == a.last().entries@.len(),
        b.last().next == a.last().next + 1,
        a.last().next < a.last().entries@.len(),
    ensures
        frames_pending(b) + 1 == frames_pending(a),
{
    assert(a.drop_last() =~= b.drop_last());
}

/// Closing an exhausted innermost directory leaves the count unchanged.
proof fn lemma_pending_close(a: Seq<Frame>, b: Seq<Frame>)
    requires
        a.len() > 0,
        b.len() == a.len() - 1,
        a.last().next == a.last().entries@.len(),
        forall|k: int| 0 <= k < b.len() ==> (#[trigger] b[k]).entries@.len() == a[k].entries@.len()
            && b[k].next == a[k].next,
    ensures
        frames_pending(b) == frames_pending(a),
{
    let x = a.drop_last();
    assert forall|k: int| 0 <= k < b.len() implies (#[trigger] b[k]).entries@.len() == x[k].entries@.len()
        && b[k].next == x[k].next by {
        assert(x[k] == a[k]);
    }
    lemma_pending_same(b, x);
}

impl ScanSession {
    /// Whether the walk has met an entry with the node limit already
    /// reached, and so left it out.
    pub closed spec fn limit_reached(self) -> bool {
        self.limit_hit@
    }

    /// The session is consistent: an entry left out at the node limit has
    /// been counted as omitted, every node hangs under the node it was found
    /// in, and child lists follow the key order of the entries.
    pub closed spec fn valid(self) -> bool {
        &&& self.wf()
        &&& self.limit_hit@ ==> self.stats.omitted_nodes > 0
        &&& self.parent_ok()
        &&& self.order_fine()
    }

    /// The limits and rules of this scan.
    pub closed spec fn spec_config(self) -> ScanConfig {
        self.config
    }

    /// The display form of the scanned root.
    pub closed spec fn spec_root(self) -> Seq<char> {
        self.root@
    }

    /// The nodes visited so far, in visiting order.
    pub closed spec fn spec_nodes(self) -> Seq<SnapshotNode> {
        self.nodes@
    }

    /// The issues recorded so far, in order.
    pub closed spec fn spec_issues(self) -> Seq<ScanIssue> {
        self.issues@
    }

    /// The totals so far.
    pub closed spec fn spec_stats(self) -> ScanStats {
        self.stats
    }

    /// What the session needs next.
    pub closed spec fn spec_request(self) -> ScanRequest {
        match self.waiting {
            Waiting::Metadata { entry, .. } => ScanRequest::Metadata(entry.handle),
            Waiting::ReadDir { handle, .. } => ScanRequest::ReadDir(handle),
            Waiting::Done => ScanRequest::Finished,
        }
    }

    /// The entry whose metadata the session waits for.
    pub closed spec fn awaited_entry(self) -> FsEntry {
        self.waiting->entry
    }

    /// The depth that the awaited entry will have.
    pub closed spec fn awaited_depth(self) -> usize {
        self.waiting->depth
    }

    /// The path of the directory whose listing the session waits for.
    pub closed spec fn awaited_dir_path(self) -> Seq<char> {
        self.waiting->path@
    }

    /// How many entries of the open directories are still to be visited
    /// after the one awaited: the work left before the scan is over.
    pub open spec fn remaining(self) -> nat {
        self.upcoming().len()
    }

    /// The entries that the per-directory limit cut from the directories
    /// still open; each directory's cut is counted as omitted when it closes.
    pub closed spec fn pending_cuts(self) -> nat {
        frames_cut(self.frames@)
    }

    /// The omitted count the scan stands at: the entries counted as omitted
    /// so far and the cuts of the open directories, held at the bound of
    /// `usize`. Once the scan is finished no cut is pending, and this is
    /// `omitted_nodes` itself.
    pub open spec fn accounted(self) -> int {
        capped_add(self.spec_stats().omitted_nodes as int, self.pending_cuts() as int)
    }

    /// The entries the visited nodes were made from, in visiting order.
    pub closed spec fn visited_entries(self) -> Seq<FsEntry> {
        self.sources@
    }

    /// The entries still to be visited after the awaited one, in the order
    /// the walk will ask for them: the rest of the innermost open directory,
    /// then the rest of the directory around it, and so on outwards.
    pub closed spec fn upcoming(self) -> Seq<FsEntry> {
        frames_queue(self.frames@)
    }

    /// Node `i` is settled: it and everything below it are final.
    pub closed spec fn is_settled(self, i: int) -> bool {
        &&& 0 <= i < self.nodes@.len()
        &&& !held_by_frame(self.frames@, i)
        &&& !(self.waiting is ReadDir && self.waiting->node == i)
    }

    /// Node `i` is among the children of its recorded parent: in the list
    /// of a settled parent, or in the open list of the parent's frame.
    spec fn attached(self, i: int) -> bool {
        let p = self.parents@[i];
        ||| self.is_settled(p) && self.nodes@[p].children@.contains(i as usize)
        ||| exists|j: int| 0 <= j < self.frames@.len() && (#[trigger] self.frames@[j]).node == p
            && self.frames@[j].children@.contains(i as usize)
    }

    /// Each node records the node it was found in; every child list names
    /// only nodes that record its owner; and every settled node other than
    /// the root (and `skip`) is in the list of the node it records.
    spec fn parents_fine(self, skip: int) -> bool {
        let nodes = self.nodes@;
        let par = self.parents@;
        let frames = self.frames@;
        &&& par.len() == nodes.len()
        &&& forall|p: int, k: int| self.is_settled(p) && 0 <= k < nodes[p].children@.len()
            ==> par[(#[trigger] nodes[p].children@[k]) as int] == p
        &&& forall|j: int, c: int| 0 <= j < frames.len() && 0 <= c < frames[j].children@.len()
            ==> par[(#[trigger] frames[j].children@[c]) as int] == frames[j].node
        &&& forall|j: int| 0 <= j < frames.len() - 1 ==> par[(#[trigger] frames[j + 1]).node as int] == frames[j].node
        &&& self.waiting is ReadDir && frames.len() > 0 ==> par[self.waiting->node as int] == frames.last().node
        &&& forall|i: int| 1 <= i < nodes.len() && i != skip && #[trigger] self.is_settled(i) ==> self.attached(i)
    }

    /// The open directories list their entries in key order; each child list
    /// is in key order of the entries its nodes were made from; and a frame's
    /// children come no later in that order than the entries it has left.
    spec fn order_fine(self) -> bool {
        let v = self.sources@;
        let nodes = self.nodes@;
        let frames = self.frames@;
        &&& v.len() == nodes.len()
        &&& forall|k: int| 0 <= k < frames.len() ==> keys_sorted(#[trigger] frames[k].entries@)
        &&& forall|k: int, c: int, j: int| 0 <= k < frames.len() && 0 <= c < frames[k].children@.len()
            && frames[k].next - 1 <= j < frames[k].entries@.len()
            ==> chars_le(sort_key(v[(#[trigger] frames[k].children@[c]) as int]),
                sort_key(#[trigger] frames[k].entries@[j]))
        &&& forall|k: int| 0 <= k < frames.len() ==> children_sorted(v, #[trigger] frames[k].children@)
        &&& forall|p: int| #[trigger] self.is_settled(p) ==> children_sorted(v, nodes[p].children@)
        &&& forall|k: int| 0 <= k < frames.len() - 1 ==> v[(#[trigger] frames[k + 1]).node as int]
            == frames[k].entries@[frames[k].next - 1]
        &&& self.waiting is Metadata && frames.len() > 0
            ==> self.waiting->entry == frames.last().entries@[frames.last().next - 1]
        &&& self.waiting is ReadDir && frames.len() > 0
            ==> v[self.waiting->node as int] == frames.last().entries@[frames.last().next - 1]
    }

    /// Every child list agrees with the recorded parents, and every settled
    /// node but the root hangs in one.
    spec fn parent_ok(self) -> bool {
        self.parents_fine(-1)
    }

    closed spec fn wf_core(self) -> bool {
        let nodes = self.nodes@;
        let n = nodes.len();
        let frames = self.frames@;
        let maxc = self.config.max_children_per_directory;
        &&& n <= self.config.max_nodes
        &&& self.stats.scanned_nodes == n
        &&& self.stats.directory_count == count_kind(nodes, NodeKind::Directory)
        &&& self.stats.file_count == count_kind(nodes, NodeKind::File)
        &&& self.stats.symlink_count == count_kind(nodes, NodeKind::Symlink)
        &&& self.stats.other_count == count_kind(nodes, NodeKind::Other)
        &&& self.stats.issue_count == self.issues@.len()
        &&& (self.stats.is_truncated <==> self.stats.omitted_nodes > 0)
        &&& forall|i: int| 0 <= i < n ==> (#[trigger] nodes[i]).depth <= i
        &&& forall|i: int| #[trigger] self.is_settled(i) ==> node_consistent(nodes, i, maxc)
        &&& forall|i: int, k: int| self.is_settled(i) && 0 <= k < nodes[i].children@.len()
            ==> self.is_settled(#[trigger] nodes[i].children@[k] as int)
        &&& forall|i: int| #[trigger] self.is_settled(i) && nodes[i].truncated ==> self.stats.omitted_nodes > 0
        &&& forall|j: int, k: int| 0 <= j < k < frames.len() ==> frames[j].node < frames[k].node
        &&& forall|k: int| 0 <= k < frames.len() ==> frame_ok(nodes, #[trigger] frames[k], maxc)
        &&& forall|k: int, c: int| 0 <= k < frames.len() && 0 <= c < frames[k].children@.len()
            ==> self.is_settled(#[trigger] frames[k].children@[c] as int)
        &&& forall|k: int| 0 <= k < frames.len() - 1 ==>
            (#[trigger] frames[k]).children@.len() < frames[k].next
        &&& forall|k: int| 0 <= k < frames.len() - 1 ==>
            nodes[(#[trigger] frames[k + 1]).node as int].depth == nodes[frames[k].node as int].depth + 1
            && forall|c: int| 0 <= c < frames[k].children@.len() ==> #[trigger] frames[k].children@[c] < frames[k + 1].node
        &&& frames.len() > 0 ==> frames[0].node == 0 && nodes[0].depth == 0
    }

    /// The session's internal invariant.
    pub closed spec fn wf(self) -> bool {
        let nodes = self.nodes@;
        let n = nodes.len();
        let frames = self.frames@;
        &&& self.wf_core()
        &&& match self.waiting {
            Waiting::Metadata { entry, depth } => {
                &&& n < self.config.max_nodes
                &&& if frames.len() == 0 {
                    n == 0 && depth == 0
                } else {
                    &&& depth == nodes[frames.last().node as int].depth + 1
                    &&& frames.last().children@.len() < frames.last().next
                }
            },
            Waiting::ReadDir { node, .. } => {
                &&& n >= 1
                &&& node == n - 1
                &&& nodes[node as int].kind == NodeKind::Directory
                &&& if frames.len() == 0 {
                    node == 0 && nodes[0].depth == 0
                } else {
                    &&& nodes[node as int].depth == nodes[frames.last().node as int].depth + 1
                    &&& frames.last().node < node
                    &&& frames.last().children@.len() < frames.last().next
                    &&& forall|c: int| 0 <= c < frames.last().children@.len()
                        ==> #[trigger] frames.last().children@[c] < node
                }
            },
            Waiting::Done => frames.len() == 0,
        }
    }
}

} // verus!

verus! {

/// A folder scanner with fixed limits and rules.
#[derive(Debug, Clone)]
pub struct Scanner {
    config: ScanConfig,
}

impl Scanner {
    /// The scanner's limits and rules.
    pub closed spec fn spec_config(self) -> ScanConfig {
        self.config
    }

    /// A scanner with these limits and rules.
    pub fn new(config: ScanConfig) -> (s: Self)
        ensures
            s.spec_config() == config,
    {
        Scanner { config }
    }

    /// Begins a scan of `root`. With a node limit of zero nothing is
    /// visited and the root counts as omitted; otherwise the session first
    /// asks for the root's metadata.
    pub fn scan(&self, root: FsEntry) -> (s: ScanSession)
        ensures
            s.valid(),
            s.limit_reached() == (self.spec_config().max_nodes == 0),
            s.spec_config().same_as(self.spec_config()),
            s.spec_root() == spec_normalize_path(root.path@),
            s.spec_nodes().len() == 0,
            s.spec_issues().len() == 0,
            s.remaining() == 0,
            s.pending_cuts() == 0,
            s.visited_entries().len() == 0,
            self.spec_config().max_nodes == 0 ==> {
                &&& s.spec_request() == ScanRequest::Finished
                &&& s.spec_stats().omitted_nodes == 1
                &&& s.spec_stats().is_truncated
            },
            self.spec_config().max_nodes > 0 ==> {
                &&& s.spec_request() == ScanRequest::Metadata(root.handle)
                &&& s.awaited_entry() == root
                &&& s.awaited_depth() == 0
                &&& s.spec_stats().is_zero()
            },
    {
        let root_display = normalize_path(root.path.as_str());
        let mut stats = ScanStats::default();
        let waiting;
        if self.config.max_nodes == 0 {
            stats.is_truncated = true;
            stats.omitted_nodes = 1;
            waiting = Waiting::Done;
        } else {
            waiting = Waiting::Metadata { entry: root, depth: 0 };
        }
        let s = ScanSession {
            config: self.config.clone_config(),
            root: root_display,
            nodes: Vec::new(),
            issues: Vec::new(),
            stats,
            frames: Vec::new(),
            waiting,
            limit_hit: Ghost(self.config.max_nodes == 0),
            parents: Ghost(Seq::empty()),
            sources: Ghost(Seq::empty()),
        };
        proof {
            assert(count_kind(s.nodes@, NodeKind::Directory) == 0);
            assert(count_kind(s.nodes@, NodeKind::File) == 0);
            assert(count_kind(s.nodes@, NodeKind::Symlink) == 0);
            assert(count_kind(s.nodes@, NodeKind::Other) == 0);
        }
        s
    }
}

impl IgnoreRules {
    /// A copy of these rules.
    pub fn clone_rules(&self) -> (r: IgnoreRules)
        ensures
            r.names@ == self.names@,
            r.suffixes@ == self.suffixes@,
    {
        IgnoreRules { names: clone_strings(&self.names), suffixes: clone_strings(&self.suffixes) }
    }
}

impl ScanConfig {
    /// The same limits and the same rules.
    pub open spec fn same_as(self, other: ScanConfig) -> bool {
        &&& self.max_nodes == other.max_nodes
        &&& self.max_children_per_directory == other.max_children_per_directory
        &&& self.rules.names@ == other.rules.names@
        &&& self.rules.suffixes@ == other.rules.suffixes@
    }

    /// A copy of this configuration.
    pub fn clone_config(&self) -> (c: ScanConfig)
        ensures
            c.same_as(*self),
    {
        ScanConfig {
            max_nodes: self.max_nodes,
            max_children_per_directory: self.max_children_per_directory,
            rules: self.rules.clone_rules(),
        }
    }
}

/// A copy of a list of strings.
pub fn clone_strings(v: &Vec<String>) -> (r: Vec<String>)
    ensures
        r@ == v@,
{
    let mut r: Vec<String> = Vec::new();
    let mut i: usize = 0;
    while i < v.len()
        invariant
            i <= v@.len(),
            r@ == v@.subrange(0, i as int),
        decreases v@.len() - i,
    {
        r.push(v[i].clone());
        proof {
            assert(v@.subrange(0, (i + 1) as int) == v@.subrange(0, i as int).push(v@[i as int]));
        }
        i = i + 1;
    }
    proof {
        assert(v@.subrange(0, v@.len() as int) =~= v@);
    }
    r
}

impl ScanSession {
    /// What the session needs next.
    pub fn request(&self) -> (r: ScanRequest)
        ensures
            r == self.spec_request(),
    {
        match &self.waiting {
            Waiting::Metadata { entry, .. } => ScanRequest::Metadata(entry.handle),
            Waiting::ReadDir { handle, .. } => ScanRequest::ReadDir(*handle),
            Waiting::Done => ScanRequest::Finished,
        }
    }

    /// The snapshot of a finished scan, stamped with `generated_at_unix_ms`.
    pub fn finish(self, generated_at_unix_ms: u128) -> (s: Snapshot)
        requires
            self.valid(),
            self.spec_request() == ScanRequest::Finished,
        ensures
            self.limit_reached() ==> s.stats.is_truncated && s.stats.omitted_nodes > 0,
            s.root@ == self.spec_root(),
            s.generated_at_unix_ms == generated_at_unix_ms,
            s.nodes@ == self.spec_nodes(),
            s.issues@ == self.spec_issues(),
            s.stats == self.spec_stats(),
            s.stats.omitted_nodes == self.accounted(),
            snapshot_consistent(s, self.spec_config()),
            forall|p: int| 0 <= p < s.nodes@.len()
                ==> children_sorted(self.visited_entries(), #[trigger] s.nodes@[p].children@),
    {
        let ghost me = self;
        let s = Snapshot {
            root: self.root,
            generated_at_unix_ms,
            nodes: self.nodes,
            issues: self.issues,
            stats: self.stats,
        };
        proof {
            assert forall|i: int| 0 <= i < s.nodes@.len() implies me.is_settled(i) by {}
            assert forall|i: int| 0 <= i < s.nodes@.len()
                implies node_consistent(s.nodes@, i, me.config.max_children_per_directory) by {
                assert(me.is_settled(i));
            }
            assert forall|i: int| 0 <= i < s.nodes@.len() && (#[trigger] s.nodes@[i]).truncated
                implies s.stats.is_truncated by {
                assert(me.is_settled(i));
            }
            let nodes = s.nodes@;
            assert forall|p: int| 0 <= p < nodes.len()
                implies children_sorted(me.visited_entries(), #[trigger] nodes[p].children@) by {
                assert(me.is_settled(p));
            }
            assert forall|i: int| 1 <= i < nodes.len() implies #[trigger] has_parent(nodes, i) by {
                assert(me.is_settled(i));
                assert(me.attached(i));
                let p = me.parents@[i];
                assert(me.is_settled(p) && nodes[p].children@.contains(i as usize));
            }
            assert forall|p: int, q: int, i: usize| 0 <= p < nodes.len() && 0 <= q < nodes.len()
                && #[trigger] nodes[p].children@.contains(i) && #[trigger] nodes[q].children@.contains(i)
                implies p == q by {
                let k = choose|k: int| 0 <= k < nodes[p].children@.len() && nodes[p].children@[k] == i;
                let l = choose|l: int| 0 <= l < nodes[q].children@.len() && nodes[q].children@[l] == i;
                assert(me.is_settled(p) && me.is_settled(q));
                assert(me.parents@[nodes[p].children@[k] as int] == p);
                assert(me.parents@[nodes[q].children@[l] as int] == q);
            }
        }
        s
    }
}

} // verus!

verus! {

/// Node `p` may become the next child of the innermost frame.
spec fn attachable(s: ScanSession, p: int) -> bool {
    let parent = s.frames@.last();
    &&& s.is_settled(p)
    &&& parent.node < p
    &&& s.nodes@[p].depth == s.nodes@[parent.node as int].depth + 1
    &&& parent.children@.len() < parent.next
    &&& forall|c: int| 0 <= c < parent.children@.len() ==> #[trigger] parent.children@[c] < p
}

/// Handing a settled node to the innermost frame keeps the invariant.
proof fn lemma_attach(mid: ScanSession, post: ScanSession, p: usize)
    requires
        mid.wf_core(),
        mid.waiting is Done,
        mid.frames@.len() > 0,
        attachable(mid, p as int),
        post.config == mid.config,
        post.issues == mid.issues,
        post.nodes == mid.nodes,
        post.stats == mid.stats,
        post.waiting is Done,
        post.frames@.len() == mid.frames@.len(),
        forall|k: int| 0 <= k < mid.frames@.len() - 1 ==> #[trigger] post.frames@[k] == mid.frames@[k],
        ({
            let f = post.frames@.last();
            let g = mid.frames@.last();
            &&& f.node == g.node
            &&& f.entries == g.entries
            &&& f.next == g.next
            &&& f.total == g.total
            &&& f.omitted == g.omitted
            &&& f.children@ == g.children@.push(p)
        }),
    ensures
        post.wf_core(),
        forall|i: int| #[trigger] mid.is_settled(i) <==> post.is_settled(i),
{
    let frames = post.frames@;
    let last = frames.len() - 1;
    assert forall|i: int| held_by_frame(mid.frames@, i) <==> held_by_frame(frames, i) by {
        if held_by_frame(mid.frames@, i) {
            let k = choose|k: int| 0 <= k < mid.frames@.len() && (#[trigger] mid.frames@[k]).node == i;
            if k < last {
                assert(frames[k] == mid.frames@[k]);
            }
            assert(frames[k].node == i);
        }
        if held_by_frame(frames, i) {
            let k = choose|k: int| 0 <= k < frames.len() && (#[trigger] frames[k]).node == i;
            if k < last {
                assert(frames[k] == mid.frames@[k]);
            }
            assert(mid.frames@[k].node == i);
        }
    }
    assert forall|i: int| #[trigger] mid.is_settled(i) <==> post.is_settled(i) by {}
    let maxc = post.config.max_children_per_directory;
    let nodes = post.nodes@;
    assert forall|k: int| 0 <= k < frames.len() implies frame_ok(nodes, #[trigger] frames[k], maxc) by {
        if k < last {
            assert(frames[k] == mid.frames@[k]);
        } else {
            let g = mid.frames@.last();
            assert(frame_ok(nodes, g, maxc));
            assert forall|a: int, b: int| 0 <= a < b < frames[k].children@.len()
                implies frames[k].children@[a] < frames[k].children@[b] by {
                if b < g.children@.len() {
                    assert(frames[k].children@[a] == g.children@[a]);
                    assert(frames[k].children@[b] == g.children@[b]);
                } else {
                    assert(frames[k].children@[a] == g.children@[a]);
                }
            }
            assert forall|a: int| 0 <= a < frames[k].children@.len() implies frames[k].node < #[trigger] frames[k].children@[a] < nodes.len()
                && nodes[frames[k].children@[a] as int].depth == nodes[frames[k].node as int].depth + 1 by {
                if a < g.children@.len() {
                    assert(frames[k].children@[a] == g.children@[a]);
                }
            }
        }
    }
    assert forall|k: int, c: int| 0 <= k < frames.len() && 0 <= c < frames[k].children@.len()
        implies post.is_settled(#[trigger] frames[k].children@[c] as int) by {
        if k < last {
            assert(frames[k] == mid.frames@[k]);
            assert(mid.is_settled(mid.frames@[k].children@[c] as int));
        } else {
            let g = mid.frames@.last();
            if c < g.children@.len() {
                assert(frames[k].children@[c] == g.children@[c]);
                assert(mid.is_settled(g.children@[c] as int));
            }
        }
    }
    assert forall|k: int| 0 <= k < frames.len() - 1 implies
        nodes[(#[trigger] frames[k + 1]).node as int].depth == nodes[frames[k].node as int].depth + 1
        && forall|c: int| 0 <= c < frames[k].children@.len() ==> #[trigger] frames[k].children@[c] < frames[k + 1].node by {
        assert(frames[k] == mid.frames@[k]);
        assert(frames[k + 1].node == mid.frames@[k + 1].node);
    }
    assert forall|k: int| 0 <= k < frames.len() - 1 implies (#[trigger] frames[k]).children@.len() < frames[k].next by {
        assert(frames[k] == mid.frames@[k]);
    }
    assert forall|j: int, k: int| 0 <= j < k < frames.len() implies frames[j].node < frames[k].node by {
        assert(frames[j].node == mid.frames@[j].node);
        assert(frames[k].node == mid.frames@[k].node);
    }
    assert(frames[0].node == mid.frames@[0].node);
    assert forall|i: int| #[trigger] post.is_settled(i) implies node_consistent(nodes, i, maxc) by {
        assert(mid.is_settled(i));
    }
    assert forall|i: int, k: int| post.is_settled(i) && 0 <= k < nodes[i].children@.len()
        implies post.is_settled(#[trigger] nodes[i].children@[k] as int) by {
        assert(mid.is_settled(i));
        assert(mid.is_settled(nodes[i].children@[k] as int));
    }
    assert forall|i: int| #[trigger] post.is_settled(i) && nodes[i].truncated implies post.stats.omitted_nodes > 0 by {
        assert(mid.is_settled(i));
    }
}

/// Closing the innermost frame keeps the invariant.
proof fn lemma_finalize(pre: ScanSession, post: ScanSession, top: Frame, new_node: SnapshotNode)
    requires
        pre.wf_core(),
        pre.waiting is Done,
        pre.frames@.len() > 0,
        top == pre.frames@.last(),
        top.next == top.entries@.len(),
        post.frames@ == pre.frames@.drop_last(),
        post.waiting is Done,
        post.config == pre.config,
        post.issues == pre.issues,
        post.nodes@ == pre.nodes@.update(top.node as int, new_node),
        new_node.kind == pre.nodes@[top.node as int].kind,
        new_node.depth == pre.nodes@[top.node as int].depth,
        new_node.children == top.children,
        new_node.child_count == top.total,
        new_node.truncated == (top.omitted > 0),
        new_node.size == capped(children_size(pre.nodes@, top.children@)),
        post.stats.scanned_nodes == pre.stats.scanned_nodes,
        post.stats.directory_count == pre.stats.directory_count,
        post.stats.file_count == pre.stats.file_count,
        post.stats.symlink_count == pre.stats.symlink_count,
        post.stats.other_count == pre.stats.other_count,
        post.stats.issue_count == pre.stats.issue_count,
        post.stats.omitted_nodes >= pre.stats.omitted_nodes,
        top.omitted > 0 ==> post.stats.omitted_nodes > 0 && post.stats.is_truncated,
        top.omitted == 0 ==> post.stats == pre.stats,
    ensures
        post.wf_core(),
        post.is_settled(top.node as int),
        forall|i: int| #[trigger] pre.is_settled(i) ==> post.is_settled(i) && post.nodes@[i] == pre.nodes@[i],
        post.frames@.len() > 0 ==> attachable(post, top.node as int),
{
    let p = top.node;
    let nodes0 = pre.nodes@;
    let self_ = post;
    assert(pre.frames@[pre.frames@.len() - 1] == top);
    assert(frame_ok(nodes0, top, pre.config.max_children_per_directory));
            let maxc = self_.config.max_children_per_directory;
            let nodes1 = self_.nodes@;
            assert(nodes1 == nodes0.update(p as int, new_node));
            lemma_count_update(nodes0, p as int, new_node, NodeKind::Directory);
            lemma_count_update(nodes0, p as int, new_node, NodeKind::File);
            lemma_count_update(nodes0, p as int, new_node, NodeKind::Symlink);
            lemma_count_update(nodes0, p as int, new_node, NodeKind::Other);
            // p was the largest node held by a frame, so no remaining frame holds it
            assert forall|k: int| 0 <= k < self_.frames@.len() implies #[trigger] self_.frames@[k].node < p by {
                assert(self_.frames@[k] == pre.frames@[k]);
            }
            assert forall|i: int| #[trigger] pre.is_settled(i) implies self_.is_settled(i) && nodes1[i] == nodes0[i] by {
                if held_by_frame(self_.frames@, i) {
                    let k = choose|k: int| 0 <= k < self_.frames@.len() && (#[trigger] self_.frames@[k]).node == i;
                    assert(self_.frames@[k] == pre.frames@[k]);
                    assert(held_by_frame(pre.frames@, i));
                }
                assert(held_by_frame(pre.frames@, p as int)) by {
                    assert(pre.frames@[pre.frames@.len() - 1].node == p);
                }
            }
            assert forall|i: int| 0 <= i < nodes1.len() implies (#[trigger] nodes1[i]).depth <= i by {
                assert(nodes0[i].depth <= i);
            }
            assert(self_.is_settled(p as int));
            assert(node_consistent(nodes1, p as int, maxc)) by {
                lemma_children_size_update(nodes0, p as int, new_node, top.children@);
                assert forall|k: int| 0 <= k < top.children@.len() implies p < #[trigger] top.children@[k] < nodes1.len()
                    && nodes1[top.children@[k] as int].depth == nodes1[p as int].depth + 1 by {}
            }
            assert forall|i: int| #[trigger] self_.is_settled(i) implies node_consistent(nodes1, i, maxc) by {
                if i != p {
                    assert(pre.is_settled(i)) by {
                        if held_by_frame(pre.frames@, i) {
                            let k = choose|k: int| 0 <= k < pre.frames@.len() && (#[trigger] pre.frames@[k]).node == i;
                            if k < pre.frames@.len() - 1 {
                                assert(self_.frames@[k] == pre.frames@[k]);
                                assert(held_by_frame(self_.frames@, i));
                            }
                        }
                    }
                    assert(node_consistent(nodes0, i, maxc));
                    assert forall|k: int| 0 <= k < nodes0[i].children@.len() implies
                        #[trigger] nodes0[i].children@[k] < nodes0.len() && nodes0[i].children@[k] != p by {
                        assert(pre.is_settled(nodes0[i].children@[k] as int));
                        assert(pre.frames@[pre.frames@.len() - 1].node == p);
                    }
                    lemma_children_size_update(nodes0, p as int, new_node, nodes0[i].children@);
                }
            }
            let frames = self_.frames@;
            assert forall|i: int, k: int| self_.is_settled(i) && 0 <= k < nodes1[i].children@.len()
                implies self_.is_settled(#[trigger] nodes1[i].children@[k] as int) by {
                if i != p {
                    assert(pre.is_settled(i)) by {
                        if held_by_frame(pre.frames@, i) {
                            let k = choose|k: int| 0 <= k < pre.frames@.len() && (#[trigger] pre.frames@[k]).node == i;
                            if k < pre.frames@.len() - 1 {
                                assert(self_.frames@[k] == pre.frames@[k]);
                                assert(held_by_frame(self_.frames@, i));
                            }
                        }
                    }
                    assert(pre.is_settled(nodes0[i].children@[k] as int));
                } else {
                    assert(pre.is_settled(top.children@[k] as int)) by {
                        assert(pre.frames@[pre.frames@.len() - 1] == top);
                    }
                }
            }
            assert forall|i: int| #[trigger] self_.is_settled(i) && nodes1[i].truncated implies self_.stats.omitted_nodes > 0 by {
                if i != p {
                    assert(pre.is_settled(i)) by {
                        if held_by_frame(pre.frames@, i) {
                            let k = choose|k: int| 0 <= k < pre.frames@.len() && (#[trigger] pre.frames@[k]).node == i;
                            if k < pre.frames@.len() - 1 {
                                assert(self_.frames@[k] == pre.frames@[k]);
                                assert(held_by_frame(self_.frames@, i));
                            }
                        }
                    }
                }
            }
            assert forall|k: int| 0 <= k < frames.len() implies frame_ok(nodes1, #[trigger] frames[k], maxc) by {
                assert(frames[k] == pre.frames@[k]);
                assert(frame_ok(nodes0, frames[k], maxc));
                assert(frames[k].node < p);
            }
            assert forall|k: int, c: int| 0 <= k < frames.len() && 0 <= c < frames[k].children@.len()
                implies self_.is_settled(#[trigger] frames[k].children@[c] as int) by {
                assert(frames[k] == pre.frames@[k]);
                assert(pre.is_settled(frames[k].children@[c] as int));
            }
            assert forall|k: int| 0 <= k < frames.len() - 1 implies
                nodes1[(#[trigger] frames[k + 1]).node as int].depth == nodes1[frames[k].node as int].depth + 1
                && forall|c: int| 0 <= c < frames[k].children@.len() ==> #[trigger] frames[k].children@[c] < frames[k + 1].node by {
                assert(frames[k] == pre.frames@[k]);
                assert(frames[k + 1] == pre.frames@[k + 1]);
            }
            assert forall|k: int| 0 <= k < frames.len() - 1 implies (#[trigger] frames[k]).children@.len() < frames[k].next by {
                assert(frames[k] == pre.frames@[k]);
            }
            assert(frames.len() > 0 ==> frames[0] == pre.frames@[0]);
            assert(self_.wf_core());
            if frames.len() > 0 {
                let k = frames.len() - 1;
                assert(pre.frames@[k + 1] == top);
                assert(frames[k] == pre.frames@[k]);
                assert(attachable(post, top.node as int));
            }
        }

impl ScanSession {
    /// Closes the innermost open directory, whose entries have all been
    /// visited or omitted: it gets its children, size and truncation, and is
    /// handed to the directory that holds it.
    #[verifier::spinoff_prover]
    #[verifier::rlimit(50)]
    fn finalize_top(&mut self)
        requires
            old(self).wf_core(),
            old(self).waiting is Done,
            old(self).frames@.len() > 0,
            old(self).frames@.last().next == old(self).frames@.last().entries@.len(),
            old(self).parent_ok(),
            old(self).order_fine(),
        ensures
            final(self).wf_core(),
            final(self).parent_ok(),
            final(self).parents == old(self).parents,
            final(self).order_fine(),
            final(self).sources == old(self).sources,
            final(self).waiting is Done,
            final(self).frames@.len() == old(self).frames@.len() - 1,
            final(self).limit_hit == old(self).limit_hit,
            final(self).config == old(self).config,
            final(self).root == old(self).root,
            final(self).issues == old(self).issues,
            final(self).nodes@.len() == old(self).nodes@.len(),
            final(self).stats.omitted_nodes >= old(self).stats.omitted_nodes,
            forall|i: int| #[trigger] old(self).is_settled(i) ==> final(self).is_settled(i)
                && final(self).nodes@[i] == old(self).nodes@[i],
            forall|k: int| 0 <= k < final(self).frames@.len() - 1 ==> #[trigger] final(self).frames@[k] == old(self).frames@[k],
            final(self).frames@.len() > 0 ==> {
                let f = final(self).frames@.last();
                let g = old(self).frames@[final(self).frames@.len() - 1];
                &&& f.node == g.node
                &&& f.entries == g.entries
                &&& f.next == g.next
            },
            frames_pending(final(self).frames@) == frames_pending(old(self).frames@),
            frames_queue(final(self).frames@) == frames_queue(old(self).frames@),
            capped_add(final(self).stats.omitted_nodes as int, frames_cut(final(self).frames@) as int)
                == capped_add(old(self).stats.omitted_nodes as int, frames_cut(old(self).frames@) as int),
    {
        let ghost pre = *self;
        let top = self.frames.pop().unwrap();
        let p = top.node;
        let ghost nodes0 = self.nodes@;
        proof {
            assert(pre.frames@[pre.frames@.len() - 1] == top);
            assert(frame_ok(nodes0, top, self.config.max_children_per_directory));
        }
        let mut size: u64 = 0;
        let mut c: usize = 0;
        while c < top.children.len()
            invariant
                self.nodes@ == nodes0,
                frame_ok(nodes0, top, self.config.max_children_per_directory),
                c <= top.children@.len(),
                size == capped(children_size(nodes0, top.children@.subrange(0, c as int))),
            decreases top.children@.len() - c,
        {
            let child = top.children[c];
            proof {
                assert(top.children@.subrange(0, (c + 1) as int).drop_last() =~= top.children@.subrange(0, c as int));
            }
            size = size.saturating_add(self.nodes[child].size);
            c = c + 1;
        }
        proof {
            assert(top.children@.subrange(0, top.children@.len() as int) =~= top.children@);
        }
        let old_node = &self.nodes[p];
        let new_node = SnapshotNode {
            path: old_node.path.clone(),
            name: old_node.name.clone(),
            kind: old_node.kind,
            depth: old_node.depth,
            size,
            modified_unix_ms: old_node.modified_unix_ms,
            children: top.children,
            child_count: top.total,
            truncated: top.omitted > 0,
        };
        self.nodes.set(p, new_node);
        if top.omitted > 0 {
            self.stats.omitted_nodes = self.stats.omitted_nodes.saturating_add(top.omitted);
            self.stats.is_truncated = true;
        }
        proof {
            lemma_finalize(pre, *self, top, new_node);
            lemma_parents_close(pre, *self, top, new_node);
            lemma_order_close(pre, *self, top, new_node);
        }
        let ghost mid = *self;
        if self.frames.len() > 0 {
            let mut parent = self.frames.pop().unwrap();
            parent.children.push(p);
            self.frames.push(parent);
            proof {
                assert(self.frames@.last().children@ == mid.frames@.last().children@.push(p));
                lemma_attach(mid, *self, p);
                lemma_parents_attach(mid, *self, p);
                lemma_order_attach(mid, *self, p);
            }
        } else {
            proof {
                assert(p == 0);
                assert(mid.parents_fine(p as int));
            }
        }
        proof {
            let (a, b) = (pre.frames@, self.frames@);
            assert forall|k: int| 0 <= k < b.len() implies (#[trigger] b[k]).entries@.len() == a[k].entries@.len()
                && b[k].next == a[k].next by {
                if k < b.len() - 1 {
                    assert(b[k] == mid.frames@[k]);
                }
            }
            lemma_pending_close(a, b);
            assert forall|k: int| 0 <= k < b.len() implies (#[trigger] b[k]).entries@ == a[k].entries@
                && b[k].next == a[k].next by {
                if k < b.len() - 1 {
                    assert(b[k] == mid.frames@[k]);
                }
            }
            lemma_queue_close(a, b);
            assert forall|k: int| 0 <= k < b.len() implies (#[trigger] b[k]).omitted == a[k].omitted by {
                if k < b.len() - 1 {
                    assert(b[k] == mid.frames@[k]);
                }
            }
            lemma_cut_close(a, b);
        }
    }
}

} // verus!

verus! {

/// Moving past one entry of the innermost frame keeps the invariant.
proof fn lemma_bump(pre: ScanSession, post: ScanSession)
    requires
        pre.wf_core(),
        !(pre.waiting is ReadDir),
        !(post.waiting is ReadDir),
        pre.frames@.len() > 0,
        pre.frames@.last().next < pre.frames@.last().entries@.len(),
        post.config == pre.config,
        post.issues == pre.issues,
        post.nodes == pre.nodes,
        post.stats.scanned_nodes == pre.stats.scanned_nodes,
        post.stats.directory_count == pre.stats.directory_count,
        post.stats.file_count == pre.stats.file_count,
        post.stats.symlink_count == pre.stats.symlink_count,
        post.stats.other_count == pre.stats.other_count,
        post.stats.issue_count == pre.stats.issue_count,
        post.stats.omitted_nodes >= pre.stats.omitted_nodes,
        (post.stats.is_truncated <==> post.stats.omitted_nodes > 0),
        post.frames@.len() == pre.frames@.len(),
        forall|k: int| 0 <= k < pre.frames@.len() - 1 ==> #[trigger] post.frames@[k] == pre.frames@[k],
        ({
            let f = post.frames@.last();
            let g = pre.frames@.last();
            &&& f.node == g.node
            &&& f.entries == g.entries
            &&& f.next == g.next + 1
            &&& f.total == g.total
            &&& f.omitted == g.omitted
            &&& f.children == g.children
        }),
    ensures
        post.wf_core(),
        forall|i: int| #[trigger] pre.is_settled(i) <==> post.is_settled(i),
        post.frames@.last().children@.len() < post.frames@.last().next,
        frames_pending(post.frames@) + 1 == frames_pending(pre.frames@),
        frames_queue(pre.frames@).len() > 0,
        frames_queue(pre.frames@)[0] == pre.frames@.last().entries@[pre.frames@.last().next as int],
        frames_queue(post.frames@) == frames_queue(pre.frames@).drop_first(),
        frames_cut(post.frames@) == frames_cut(pre.frames@),
{
    lemma_pending_step(pre.frames@, post.frames@);
    lemma_queue_step(pre.frames@, post.frames@);
    assert forall|k: int| 0 <= k < post.frames@.len() implies (#[trigger] post.frames@[k]).omitted
        == pre.frames@[k].omitted by {
        assert(post.frames@.last() == post.frames@[post.frames@.len() - 1]);
        assert(pre.frames@.last() == pre.frames@[pre.frames@.len() - 1]);
    }
    lemma_cut_same(post.frames@, pre.frames@);
    let frames = post.frames@;
    let last = frames.len() - 1;
    assert forall|i: int| held_by_frame(pre.frames@, i) <==> held_by_frame(frames, i) by {
        if held_by_frame(pre.frames@, i) {
            let k = choose|k: int| 0 <= k < pre.frames@.len() && (#[trigger] pre.frames@[k]).node == i;
            if k < last {
                assert(frames[k] == pre.frames@[k]);
            }
            assert(frames[k].node == i);
        }
        if held_by_frame(frames, i) {
            let k = choose|k: int| 0 <= k < frames.len() && (#[trigger] frames[k]).node == i;
            if k < last {
                assert(frames[k] == pre.frames@[k]);
            }
            assert(pre.frames@[k].node == i);
        }
    }
    assert forall|i: int| #[trigger] pre.is_settled(i) <==> post.is_settled(i) by {}
    let maxc = post.config.max_children_per_directory;
    let nodes = post.nodes@;
    assert forall|k: int| 0 <= k < frames.len() implies frame_ok(nodes, #[trigger] frames[k], maxc) by {
        if k < last {
            assert(frames[k] == pre.frames@[k]);
        } else {
            assert(frame_ok(nodes, pre.frames@.last(), maxc));
        }
    }
    assert forall|k: int, c: int| 0 <= k < frames.len() && 0 <= c < frames[k].children@.len()
        implies post.is_settled(#[trigger] frames[k].children@[c] as int) by {
        if k < last {
            assert(frames[k] == pre.frames@[k]);
        }
        assert(pre.is_settled(pre.frames@[k].children@[c] as int));
    }
    assert forall|k: int| 0 <= k < frames.len() - 1 implies
        nodes[(#[trigger] frames[k + 1]).node as int].depth == nodes[frames[k].node as int].depth + 1
        && forall|c: int| 0 <= c < frames[k].children@.len() ==> #[trigger] frames[k].children@[c] < frames[k + 1].node by {
        assert(frames[k] == pre.frames@[k]);
        assert(frames[k + 1].node == pre.frames@[k + 1].node);
    }
    assert forall|k: int| 0 <= k < frames.len() - 1 implies (#[trigger] frames[k]).children@.len() < frames[k].next by {
        assert(frames[k] == pre.frames@[k]);
    }
    assert forall|j: int, k: int| 0 <= j < k < frames.len() implies frames[j].node < frames[k].node by {
        assert(frames[j].node == pre.frames@[j].node);
        assert(frames[k].node == pre.frames@[k].node);
    }
    assert(frames[0].node == pre.frames@[0].node);
    assert forall|i: int| #[trigger] post.is_settled(i) implies node_consistent(nodes, i, maxc) by {
        assert(pre.is_settled(i));
    }
    assert forall|i: int, k: int| post.is_settled(i) && 0 <= k < nodes[i].children@.len()
        implies post.is_settled(#[trigger] nodes[i].children@[k] as int) by {
        assert(pre.is_settled(i));
        assert(pre.is_settled(nodes[i].children@[k] as int));
    }
    assert forall|i: int| #[trigger] post.is_settled(i) && nodes[i].truncated implies post.stats.omitted_nodes > 0 by {
        assert(pre.is_settled(i));
    }
}

impl ScanSession {
    /// The innermost open directory's entries, from the next one on.
    spec fn top_remaining(self) -> nat {
        if self.frames@.len() == 0 {
            0
        } else {
            (self.frames@.last().entries@.len() - self.frames@.last().next) as nat
        }
    }

    /// The innermost open directory has an entry left and the node limit
    /// has room for it.
    spec fn first_step_ready(self) -> bool {
        &&& self.frames@.len() > 0
        &&& self.frames@.last().next < self.frames@.last().entries@.len()
        &&& self.nodes@.len() < self.config.max_nodes
    }

    /// Carries the depth-first walk forward until the session needs the
    /// metadata of an entry or the walk is over. Entries met once the node
    /// limit is reached are counted as omitted; directories whose entries are
    /// exhausted are closed.
    fn advance(&mut self)
        requires
            old(self).wf_core(),
            old(self).waiting is Done,
            old(self).parent_ok(),
            old(self).order_fine(),
        ensures
            final(self).wf(),
            final(self).parent_ok(),
            final(self).parents == old(self).parents,
            final(self).order_fine(),
            final(self).sources == old(self).sources,
            !(final(self).waiting is ReadDir),
            final(self).config == old(self).config,
            final(self).root == old(self).root,
            final(self).issues == old(self).issues,
            final(self).nodes@.len() == old(self).nodes@.len(),
            final(self).stats.omitted_nodes >= old(self).stats.omitted_nodes,
            old(self).limit_hit@ ==> final(self).limit_hit@,
            final(self).limit_hit@ ==> old(self).limit_hit@ || final(self).stats.omitted_nodes > 0,
            capped_add(final(self).stats.omitted_nodes as int, frames_cut(final(self).frames@) as int) == capped_add(
                capped_add(old(self).stats.omitted_nodes as int, frames_cut(old(self).frames@) as int),
                if old(self).nodes@.len() >= old(self).config.max_nodes { frames_pending(old(self).frames@) as int }
                else { 0 }),
            final(self).waiting is Done <==> frames_pending(old(self).frames@) == 0
                || old(self).nodes@.len() >= old(self).config.max_nodes,
            final(self).waiting is Metadata ==> frames_pending(final(self).frames@) + 1 == frames_pending(old(self).frames@),
            final(self).waiting is Metadata ==> final(self).waiting->entry == frames_queue(old(self).frames@)[0]
                && frames_queue(final(self).frames@) == frames_queue(old(self).frames@).drop_first(),
            frames_pending(old(self).frames@) > 0 && old(self).nodes@.len() >= old(self).config.max_nodes ==> {
                &&& final(self).stats.omitted_nodes >= plus_capped(old(self).stats.omitted_nodes, frames_pending(old(self).frames@))
                &&& final(self).stats.is_truncated
                &&& final(self).limit_hit@
            },
            forall|i: int| #[trigger] old(self).is_settled(i) ==> final(self).is_settled(i)
                && final(self).nodes@[i] == old(self).nodes@[i],
            old(self).first_step_ready() ==> ({
                let f = old(self).frames@.last();
                &&& final(self).waiting is Metadata
                &&& final(self).awaited_entry() == f.entries@[f.next as int]
            }),
    {
        let ghost start = *old(self);
        if self.frames.len() > 0 {
            let last = self.frames.len() - 1;
            if self.frames[last].next < self.frames[last].entries.len() && self.nodes.len() < self.config.max_nodes {
                let ghost pre = *self;
                let mut top = self.frames.pop().unwrap();
                proof {
                    assert(top == pre.frames@[last as int]);
                    assert(frame_ok(pre.nodes@, top, pre.config.max_children_per_directory));
                }
                let entry = top.entries[top.next].duplicate();
                top.next = top.next + 1;
                let depth = self.nodes[top.node].depth + 1;
                self.frames.push(top);
                self.waiting = Waiting::Metadata { entry, depth };
                proof {
                    lemma_bump(pre, *self);
                    lemma_parents_keep(pre, *self);
                    lemma_order_bump(pre, *self);
                }
                return;
            }
        }
        let ghost mut dropped = false;
        loop
            invariant
                start == *old(self),
                !start.first_step_ready(),
                start.limit_hit@ ==> self.limit_hit@,
                self.limit_hit@ ==> start.limit_hit@ || self.stats.omitted_nodes > 0,
                dropped ==> self.stats.omitted_nodes >= plus_capped(start.stats.omitted_nodes, 1) && self.limit_hit@,
                start.nodes@.len() >= start.config.max_nodes ==> self.stats.omitted_nodes >= plus_capped(
                    start.stats.omitted_nodes, (frames_pending(start.frames@) - frames_pending(self.frames@)) as nat),
                frames_pending(self.frames@) <= frames_pending(start.frames@),
                capped_add(self.stats.omitted_nodes as int, frames_cut(self.frames@) as int) == capped_add(
                    capped_add(start.stats.omitted_nodes as int, frames_cut(start.frames@) as int),
                    if start.nodes@.len() >= start.config.max_nodes {
                        frames_pending(start.frames@) - frames_pending(self.frames@)
                    } else { 0 }),
                frames_pending(self.frames@) < frames_pending(start.frames@) ==> dropped,
                start.nodes@.len() < start.config.max_nodes ==> frames_pending(self.frames@) == frames_pending(start.frames@),
                start.nodes@.len() < start.config.max_nodes ==> frames_queue(self.frames@) == frames_queue(start.frames@),
                self.wf_core(),
                self.parent_ok(),
                self.parents == start.parents,
                self.order_fine(),
                self.sources == start.sources,
                self.waiting is Done,
                self.config == start.config,
                self.root == start.root,
                self.issues == start.issues,
                self.nodes@.len() == start.nodes@.len(),
                self.stats.omitted_nodes >= start.stats.omitted_nodes,
                forall|i: int| #[trigger] start.is_settled(i) ==> self.is_settled(i)
                    && self.nodes@[i] == start.nodes@[i],
            decreases self.frames@.len(), self.top_remaining(),
        {
            if self.frames.len() == 0 {
                return;
            }
            let last = self.frames.len() - 1;
            if self.frames[last].next < self.frames[last].entries.len() {
                let ghost pre = *self;
                let mut top = self.frames.pop().unwrap();
                proof {
                    assert(top == pre.frames@[last as int]);
                    assert(frame_ok(pre.nodes@, top, pre.config.max_children_per_directory));
                }
                let entry = top.entries[top.next].duplicate();
                top.next = top.next + 1;
                if self.nodes.len() >= self.config.max_nodes {
                    self.stats.omitted_nodes = self.stats.omitted_nodes.saturating_add(1);
                    self.stats.is_truncated = true;
                    self.limit_hit = Ghost(true);
                    self.frames.push(top);
                    proof {
                        lemma_bump(pre, *self);
                        lemma_parents_keep(pre, *self);
                        lemma_order_bump(pre, *self);
                        dropped = true;
                        lemma_capped_twice(
                            capped_add(start.stats.omitted_nodes as int, frames_cut(start.frames@) as int),
                            frames_pending(start.frames@) - frames_pending(pre.frames@), 1);
                    }
                } else {
                    let depth = self.nodes[top.node].depth + 1;
                    self.frames.push(top);
                    self.waiting = Waiting::Metadata { entry, depth };
                    proof {
                        lemma_bump(pre, *self);
                        lemma_parents_keep(pre, *self);
                        lemma_order_bump(pre, *self);
                    }
                    return;
                }
            } else {
                self.finalize_top();
            }
        }
    }
}

} // verus!

verus! {

/// A step that leaves the nodes, the open frames' owners and child lists,
/// and the settled nodes as they were keeps the parent records in order.
proof fn lemma_parents_keep(pre: ScanSession, post: ScanSession)
    requires
        pre.parent_ok(),
        post.parents == pre.parents,
        post.nodes@ == pre.nodes@,
        post.frames@.len() == pre.frames@.len(),
        forall|j: int| 0 <= j < pre.frames@.len() ==> (#[trigger] post.frames@[j]).node == pre.frames@[j].node
            && post.frames@[j].children == pre.frames@[j].children,
        forall|i: int| #[trigger] pre.is_settled(i) <==> post.is_settled(i),
        post.waiting is ReadDir ==> pre.waiting is ReadDir && post.waiting->node == pre.waiting->node,
    ensures
        post.parent_ok(),
{
    let frames = post.frames@;
    let pf = pre.frames@;
    let par = post.parents@;
    let nodes = post.nodes@;
    assert forall|p: int, k: int| post.is_settled(p) && 0 <= k < nodes[p].children@.len()
        implies par[(#[trigger] nodes[p].children@[k]) as int] == p by {
        assert(pre.is_settled(p));
    }
    assert forall|j: int, c: int| 0 <= j < frames.len() && 0 <= c < frames[j].children@.len()
        implies par[(#[trigger] frames[j].children@[c]) as int] == frames[j].node by {
        assert(pf[j].children@[c] == frames[j].children@[c]);
    }
    assert forall|j: int| 0 <= j < frames.len() - 1 implies par[(#[trigger] frames[j + 1]).node as int]
        == frames[j].node by {
        assert(frames[j + 1].node == pf[j + 1].node);
        assert(frames[j].node == pf[j].node);
    }
    if post.waiting is ReadDir && frames.len() > 0 {
        assert(frames[frames.len() - 1].node == pf[pf.len() - 1].node);
    }
    assert forall|i: int| 1 <= i < nodes.len() && i != -1 && #[trigger] post.is_settled(i)
        implies post.attached(i) by {
        assert(pre.is_settled(i));
        assert(pre.attached(i));
        let p = par[i];
        if pre.is_settled(p) && pre.nodes@[p].children@.contains(i as usize) {
            assert(post.is_settled(p));
        } else {
            let j = choose|j: int| 0 <= j < pf.len() && (#[trigger] pf[j]).node == p
                && pf[j].children@.contains(i as usize);
            assert(frames[j].node == p && frames[j].children == pf[j].children);
        }
    }
}

/// Recording a newly visited node with the innermost open directory as its
/// parent keeps the records in order, all but the attachment of the new node
/// itself when it is already settled.
proof fn lemma_parents_push(pre: ScanSession, post: ScanSession, x: SnapshotNode)
    requires
        pre.wf(),
        pre.parent_ok(),
        pre.waiting is Metadata,
        post.nodes@ == pre.nodes@.push(x),
        post.frames == pre.frames,
        post.parents@ == pre.parents@.push(
            if pre.frames@.len() > 0 { pre.frames@.last().node as int } else { -1 },
        ),
        x.children@.len() == 0,
        post.waiting is Done || post.waiting is ReadDir,
        post.waiting is ReadDir ==> post.waiting->node == pre.nodes@.len(),
    ensures
        post.parents_fine(pre.nodes@.len() as int),
        post.waiting is ReadDir || post.frames@.len() == 0 ==> post.parent_ok(),
        post.frames@.len() > 0 ==> post.parents@[pre.nodes@.len() as int] == post.frames@.last().node,
{
    let n = pre.nodes@.len() as int;
    let nodes0 = pre.nodes@;
    let nodes = post.nodes@;
    let frames = post.frames@;
    let par0 = pre.parents@;
    let par = post.parents@;
    let maxc = pre.config.max_children_per_directory;
    assert forall|i: int| 0 <= i < n implies (#[trigger] post.is_settled(i)) == pre.is_settled(i) by {}
    assert forall|p: int, k: int| post.is_settled(p) && 0 <= k < nodes[p].children@.len()
        implies par[(#[trigger] nodes[p].children@[k]) as int] == p by {
        if p < n {
            assert(pre.is_settled(p));
            assert(node_consistent(nodes0, p, maxc));
            assert(nodes[p] == nodes0[p]);
            assert(par0[nodes0[p].children@[k] as int] == p);
        }
    }
    assert forall|j: int, c: int| 0 <= j < frames.len() && 0 <= c < frames[j].children@.len()
        implies par[(#[trigger] frames[j].children@[c]) as int] == frames[j].node by {
        assert(frame_ok(nodes0, frames[j], maxc));
        assert(par0[frames[j].children@[c] as int] == frames[j].node);
    }
    assert forall|j: int| 0 <= j < frames.len() - 1 implies par[(#[trigger] frames[j + 1]).node as int]
        == frames[j].node by {
        assert(frame_ok(nodes0, frames[j + 1], maxc));
        assert(par0[frames[j + 1].node as int] == frames[j].node);
    }
    assert forall|i: int| 1 <= i < nodes.len() && i != n && #[trigger] post.is_settled(i)
        implies post.attached(i) by {
        assert(pre.is_settled(i));
        assert(pre.attached(i));
        let p = par0[i];
        assert(par[i] == p);
        if pre.is_settled(p) && nodes0[p].children@.contains(i as usize) {
            assert(post.is_settled(p));
            assert(nodes[p] == nodes0[p]);
        } else {
            let j = choose|j: int| 0 <= j < frames.len() && (#[trigger] frames[j]).node == p
                && frames[j].children@.contains(i as usize);
            assert(frames[j].node == p);
        }
    }
    if frames.len() == 0 {
        assert(n == 0);
    }
}

/// Opening the frame of the directory whose listing arrived keeps the
/// records in order: the directory's parent is the frame below it.
proof fn lemma_parents_open(pre: ScanSession, post: ScanSession, f: Frame)
    requires
        pre.wf(),
        pre.parent_ok(),
        pre.waiting is ReadDir,
        f.node == pre.waiting->node,
        f.children@.len() == 0,
        post.frames@ == pre.frames@.push(f),
        post.nodes == pre.nodes,
        post.parents == pre.parents,
        post.waiting is Done,
    ensures
        post.parent_ok(),
{
    let frames = post.frames@;
    let pf = pre.frames@;
    let par = post.parents@;
    let nodes = post.nodes@;
    let last = pf.len() as int;
    assert(frames[last] == f);
    assert forall|i: int| #[trigger] post.is_settled(i) <==> pre.is_settled(i) by {
        if held_by_frame(frames, i) && !held_by_frame(pf, i) {
            let j = choose|j: int| 0 <= j < frames.len() && (#[trigger] frames[j]).node == i;
            if j < last {
                assert(pf[j] == frames[j]);
            }
        }
        if held_by_frame(pf, i) {
            let j = choose|j: int| 0 <= j < pf.len() && (#[trigger] pf[j]).node == i;
            assert(frames[j] == pf[j]);
        }
    }
    assert forall|p: int, k: int| post.is_settled(p) && 0 <= k < nodes[p].children@.len()
        implies par[(#[trigger] nodes[p].children@[k]) as int] == p by {
        assert(pre.is_settled(p));
    }
    assert forall|j: int, c: int| 0 <= j < frames.len() && 0 <= c < frames[j].children@.len()
        implies par[(#[trigger] frames[j].children@[c]) as int] == frames[j].node by {
        assert(j < last);
        assert(frames[j] == pf[j]);
    }
    assert forall|j: int| 0 <= j < frames.len() - 1 implies par[(#[trigger] frames[j + 1]).node as int]
        == frames[j].node by {
        assert(frames[j] == pf[j]);
        if j + 1 < last {
            assert(frames[j + 1] == pf[j + 1]);
        } else {
            assert(pf.last() == pf[j]);
        }
    }
    assert forall|i: int| 1 <= i < nodes.len() && i != -1 && #[trigger] post.is_settled(i)
        implies post.attached(i) by {
        assert(pre.is_settled(i));
        assert(pre.attached(i));
        let p = par[i];
        if pre.is_settled(p) && nodes[p].children@.contains(i as usize) {
            assert(post.is_settled(p));
        } else {
            let j = choose|j: int| 0 <= j < pf.len() && (#[trigger] pf[j]).node == p
                && pf[j].children@.contains(i as usize);
            assert(frames[j] == pf[j]);
        }
    }
}

/// Closing the innermost frame settles its directory with the frame's
/// children; the records stay in order but for the attachment of that
/// directory, whose parent is the frame now innermost.
proof fn lemma_parents_close(pre: ScanSession, post: ScanSession, top: Frame, new_node: SnapshotNode)
    requires
        pre.wf_core(),
        pre.parent_ok(),
        pre.waiting is Done,
        pre.frames@.len() > 0,
        top == pre.frames@.last(),
        post.frames@ == pre.frames@.drop_last(),
        post.nodes@ == pre.nodes@.update(top.node as int, new_node),
        new_node.children == top.children,
        post.parents == pre.parents,
        post.waiting is Done,
    ensures
        post.parents_fine(top.node as int),
        post.frames@.len() > 0 ==> post.parents@[top.node as int] == post.frames@.last().node,
        post.frames@.len() == 0 ==> top.node == 0,
{
    let p = top.node as int;
    let frames = post.frames@;
    let pf = pre.frames@;
    let par = post.parents@;
    let nodes0 = pre.nodes@;
    let nodes = post.nodes@;
    let last = frames.len() as int;
    let maxc = pre.config.max_children_per_directory;
    assert(pf[last] == top);
    assert(frame_ok(nodes0, top, maxc));
    assert forall|j: int| 0 <= j < frames.len() implies (#[trigger] frames[j]) == pf[j] && pf[j].node < p by {}
    assert forall|i: int| #[trigger] post.is_settled(i) <==> pre.is_settled(i) || i == p by {
        if held_by_frame(frames, i) {
            let j = choose|j: int| 0 <= j < frames.len() && (#[trigger] frames[j]).node == i;
            assert(pf[j] == frames[j]);
        }
        if held_by_frame(pf, i) && i != p {
            let j = choose|j: int| 0 <= j < pf.len() && (#[trigger] pf[j]).node == i;
            assert(j != last);
            assert(frames[j] == pf[j]);
        }
        if i == p {
            assert(held_by_frame(pf, p));
        }
    }
    assert forall|q: int, k: int| post.is_settled(q) && 0 <= k < nodes[q].children@.len()
        implies par[(#[trigger] nodes[q].children@[k]) as int] == q by {
        if q == p {
            assert(nodes[q].children@[k] == top.children@[k]);
        } else {
            assert(pre.is_settled(q));
            assert(nodes[q] == nodes0[q]);
        }
    }
    assert forall|j: int| 0 <= j < frames.len() - 1 implies par[(#[trigger] frames[j + 1]).node as int]
        == frames[j].node by {
        assert(frames[j + 1] == pf[j + 1]);
        assert(frames[j] == pf[j]);
    }
    if last > 0 {
        assert(frames.last() == pf[last - 1]);
        assert(pf[last] == top);
        assert(pre.parents@[pf[(last - 1) + 1].node as int] == pf[last - 1].node);
    } else {
        assert(pf[0] == top);
    }
    assert forall|i: int| 1 <= i < nodes.len() && i != p && #[trigger] post.is_settled(i)
        implies post.attached(i) by {
        assert(pre.is_settled(i));
        assert(pre.attached(i));
        let r = par[i];
        if pre.is_settled(r) && nodes0[r].children@.contains(i as usize) {
            assert(r != p);
            assert(post.is_settled(r));
            assert(nodes[r] == nodes0[r]);
        } else {
            let j = choose|j: int| 0 <= j < pf.len() && (#[trigger] pf[j]).node == r
                && pf[j].children@.contains(i as usize);
            if j == last {
                assert(r == p);
                assert(post.is_settled(p));
                assert(nodes[p].children == top.children);
            } else {
                assert(frames[j] == pf[j]);
            }
        }
    }
}

/// Handing a settled node to the innermost frame, whose directory is the
/// node's recorded parent, completes the records.
proof fn lemma_parents_attach(mid: ScanSession, post: ScanSession, p: usize)
    requires
        mid.wf_core(),
        mid.parents_fine(p as int),
        mid.frames@.len() > 0,
        mid.is_settled(p as int),
        mid.parents@[p as int] == mid.frames@.last().node,
        post.parents == mid.parents,
        post.nodes == mid.nodes,
        post.waiting == mid.waiting,
        !(mid.waiting is ReadDir),
        post.frames@.len() == mid.frames@.len(),
        forall|k: int| 0 <= k < mid.frames@.len() - 1 ==> #[trigger] post.frames@[k] == mid.frames@[k],
        post.frames@.last().node == mid.frames@.last().node,
        post.frames@.last().children@ == mid.frames@.last().children@.push(p),
        forall|i: int| #[trigger] mid.is_settled(i) <==> post.is_settled(i),
    ensures
        post.parent_ok(),
{
    let frames = post.frames@;
    let mf = mid.frames@;
    let par = post.parents@;
    let nodes = post.nodes@;
    let last = frames.len() - 1;
    assert(frames.last() == frames[last] && mf.last() == mf[last]);
    assert forall|q: int, k: int| post.is_settled(q) && 0 <= k < nodes[q].children@.len()
        implies par[(#[trigger] nodes[q].children@[k]) as int] == q by {
        assert(mid.is_settled(q));
    }
    assert forall|j: int, c: int| 0 <= j < frames.len() && 0 <= c < frames[j].children@.len()
        implies par[(#[trigger] frames[j].children@[c]) as int] == frames[j].node by {
        if j < last {
            assert(frames[j] == mf[j]);
        } else if c < mf[last].children@.len() {
            assert(frames[j].children@[c] == mf[j].children@[c]);
        }
    }
    assert forall|j: int| 0 <= j < frames.len() - 1 implies par[(#[trigger] frames[j + 1]).node as int]
        == frames[j].node by {
        assert(frames[j] == mf[j]);
        if j + 1 < last {
            assert(frames[j + 1] == mf[j + 1]);
        }
        assert(frames[j + 1].node == mf[j + 1].node);
    }
    assert forall|i: int| 1 <= i < nodes.len() && i != -1 && #[trigger] post.is_settled(i)
        implies post.attached(i) by {
        if i == p {
            assert(frames[last].children@[frames[last].children@.len() - 1] == p);
            assert(frames[last].children@.contains(p));
            assert(frames[last].node == par[i]);
        } else {
            assert(mid.is_settled(i));
            assert(mid.attached(i));
            let r = par[i];
            if mid.is_settled(r) && nodes[r].children@.contains(i as usize) {
                assert(post.is_settled(r));
            } else {
                let j = choose|j: int| 0 <= j < mf.len() && (#[trigger] mf[j]).node == r
                    && mf[j].children@.contains(i as usize);
                if j < last {
                    assert(frames[j] == mf[j]);
                } else {
                    let k = choose|k: int| 0 <= k < mf[j].children@.len() && mf[j].children@[k] == i as usize;
                    assert(frames[j].children@[k] == i as usize);
                    assert(frames[j].children@.contains(i as usize));
                }
            }
        }
    }
}

/// The count of entries left is the length of the queue of them.
proof fn lemma_remaining(s: ScanSession)
    requires
        s.wf_core(),
    ensures
        s.remaining() == frames_pending(s.frames@),
{
    assert forall|k: int| 0 <= k < s.frames@.len() implies (#[trigger] s.frames@[k]).next
        <= s.frames@[k].entries@.len() by {
        assert(frame_ok(s.nodes@, s.frames@[k], s.config.max_children_per_directory));
    }
    lemma_queue_len(s.frames@);
}

/// A step that changes neither the nodes, the open frames nor what the nodes
/// were made from, and at most stops waiting, keeps the order records.
proof fn lemma_order_keep(pre: ScanSession, post: ScanSession)
    requires
        pre.order_fine(),
        post.sources == pre.sources,
        post.nodes@ == pre.nodes@,
        post.frames == pre.frames,
        forall|i: int| #[trigger] pre.is_settled(i) <==> post.is_settled(i),
        post.waiting == pre.waiting || post.waiting is Done,
    ensures
        post.order_fine(),
{
    assert forall|p: int| #[trigger] post.is_settled(p) implies children_sorted(post.sources@, post.nodes@[p].children@) by {
        assert(pre.is_settled(p));
    }
}

/// Stepping past the next entry of the innermost frame, and perhaps awaiting
/// it, keeps the order records.
proof fn lemma_order_bump(pre: ScanSession, post: ScanSession)
    requires
        pre.order_fine(),
        pre.waiting is Done,
        pre.frames@.len() > 0,
        post.sources == pre.sources,
        post.nodes@ == pre.nodes@,
        post.frames@.len() == pre.frames@.len(),
        forall|k: int| 0 <= k < pre.frames@.len() - 1 ==> #[trigger] post.frames@[k] == pre.frames@[k],
        post.frames@.last().node == pre.frames@.last().node,
        post.frames@.last().entries == pre.frames@.last().entries,
        post.frames@.last().children == pre.frames@.last().children,
        post.frames@.last().next == pre.frames@.last().next + 1,
        forall|i: int| #[trigger] pre.is_settled(i) <==> post.is_settled(i),
        post.waiting is Done || (post.waiting is Metadata
            && post.waiting->entry == pre.frames@.last().entries@[pre.frames@.last().next as int]),
    ensures
        post.order_fine(),
{
    let v = post.sources@;
    let frames = post.frames@;
    let pf = pre.frames@;
    let last = frames.len() - 1;
    assert(frames.last() == frames[last] && pf.last() == pf[last]);
    assert forall|k: int| 0 <= k < frames.len() implies keys_sorted(#[trigger] frames[k].entries@) by {
        if k < last {
            assert(frames[k] == pf[k]);
        }
    }
    assert forall|k: int, c: int, j: int| 0 <= k < frames.len() && 0 <= c < frames[k].children@.len()
        && frames[k].next - 1 <= j < frames[k].entries@.len()
        implies chars_le(sort_key(v[(#[trigger] frames[k].children@[c]) as int]),
            sort_key(#[trigger] frames[k].entries@[j])) by {
        if k < last {
            assert(frames[k] == pf[k]);
        } else {
            assert(frames[k].children@[c] == pf[k].children@[c]);
            assert(frames[k].entries@[j] == pf[k].entries@[j]);
        }
    }
    assert forall|k: int| 0 <= k < frames.len() implies children_sorted(v, #[trigger] frames[k].children@) by {
        if k < last {
            assert(frames[k] == pf[k]);
        }
    }
    assert forall|p: int| #[trigger] post.is_settled(p) implies children_sorted(v, post.nodes@[p].children@) by {
        assert(pre.is_settled(p));
    }
    assert forall|k: int| 0 <= k < frames.len() - 1 implies v[(#[trigger] frames[k + 1]).node as int]
        == frames[k].entries@[frames[k].next - 1] by {
        assert(frames[k] == pf[k]);
        assert(frames[k + 1].node == pf[k + 1].node);
    }
}

/// Recording the node made from the awaited entry keeps the order records.
proof fn lemma_order_push(pre: ScanSession, post: ScanSession, x: SnapshotNode)
    requires
        pre.wf(),
        pre.order_fine(),
        pre.waiting is Metadata,
        post.nodes@ == pre.nodes@.push(x),
        post.frames == pre.frames,
        post.sources@ == pre.sources@.push(pre.waiting->entry),
        x.children@.len() == 0,
        post.waiting is Done || post.waiting is ReadDir,
        post.waiting is ReadDir ==> post.waiting->node == pre.nodes@.len(),
    ensures
        post.order_fine(),
        post.frames@.len() > 0 ==> post.sources@[pre.nodes@.len() as int]
            == post.frames@.last().entries@[post.frames@.last().next - 1],
{
    let n = pre.nodes@.len() as int;
    let nodes0 = pre.nodes@;
    let nodes = post.nodes@;
    let frames = post.frames@;
    let v0 = pre.sources@;
    let v = post.sources@;
    let maxc = pre.config.max_children_per_directory;
    assert forall|i: int| 0 <= i < n implies (#[trigger] post.is_settled(i)) == pre.is_settled(i) by {}
    assert forall|k: int, c: int, j: int| 0 <= k < frames.len() && 0 <= c < frames[k].children@.len()
        && frames[k].next - 1 <= j < frames[k].entries@.len()
        implies chars_le(sort_key(v[(#[trigger] frames[k].children@[c]) as int]),
            sort_key(#[trigger] frames[k].entries@[j])) by {
        assert(frame_ok(nodes0, frames[k], maxc));
        assert(v[frames[k].children@[c] as int] == v0[frames[k].children@[c] as int]);
    }
    assert forall|k: int| 0 <= k < frames.len() implies children_sorted(v, #[trigger] frames[k].children@) by {
        assert(frame_ok(nodes0, frames[k], maxc));
        assert(children_sorted(v0, frames[k].children@));
        assert forall|a: int, b: int| 0 <= a < b < frames[k].children@.len() implies chars_le(
            sort_key(v[(#[trigger] frames[k].children@[a]) as int]),
            sort_key(v[(#[trigger] frames[k].children@[b]) as int])) by {
            assert(v[frames[k].children@[a] as int] == v0[frames[k].children@[a] as int]);
            assert(v[frames[k].children@[b] as int] == v0[frames[k].children@[b] as int]);
        }
    }
    assert forall|p: int| #[trigger] post.is_settled(p) implies children_sorted(v, nodes[p].children@) by {
        if p < n {
            assert(pre.is_settled(p));
            assert(node_consistent(nodes0, p, maxc));
            assert(nodes[p] == nodes0[p]);
            assert(children_sorted(v0, nodes0[p].children@));
            assert forall|a: int, b: int| 0 <= a < b < nodes[p].children@.len() implies chars_le(
                sort_key(v[(#[trigger] nodes[p].children@[a]) as int]),
                sort_key(v[(#[trigger] nodes[p].children@[b]) as int])) by {
                assert(v[nodes[p].children@[a] as int] == v0[nodes[p].children@[a] as int]);
                assert(v[nodes[p].children@[b] as int] == v0[nodes[p].children@[b] as int]);
            }
        }
    }
    assert forall|k: int| 0 <= k < frames.len() - 1 implies v[(#[trigger] frames[k + 1]).node as int]
        == frames[k].entries@[frames[k].next - 1] by {
        assert(frame_ok(nodes0, frames[k + 1], maxc));
        assert(v0[frames[k + 1].node as int] == frames[k].entries@[frames[k].next - 1]);
    }
}

/// Opening the frame of the directory whose listing arrived, with its
/// entries in key order, keeps the order records.
proof fn lemma_order_open(pre: ScanSession, post: ScanSession, f: Frame)
    requires
        pre.wf(),
        pre.order_fine(),
        pre.waiting is ReadDir,
        f.node == pre.waiting->node,
        f.children@.len() == 0,
        keys_sorted(f.entries@),
        post.frames@ == pre.frames@.push(f),
        post.nodes == pre.nodes,
        post.sources == pre.sources,
        post.waiting is Done,
    ensures
        post.order_fine(),
{
    let frames = post.frames@;
    let pf = pre.frames@;
    let v = post.sources@;
    let nodes = post.nodes@;
    let last = pf.len() as int;
    assert(frames[last] == f);
    assert forall|i: int| #[trigger] post.is_settled(i) <==> pre.is_settled(i) by {
        if held_by_frame(frames, i) && !held_by_frame(pf, i) {
            let j = choose|j: int| 0 <= j < frames.len() && (#[trigger] frames[j]).node == i;
            if j < last {
                assert(pf[j] == frames[j]);
            }
        }
        if held_by_frame(pf, i) {
            let j = choose|j: int| 0 <= j < pf.len() && (#[trigger] pf[j]).node == i;
            assert(frames[j] == pf[j]);
        }
    }
    assert forall|k: int| 0 <= k < frames.len() implies keys_sorted(#[trigger] frames[k].entries@) by {
        if k < last {
            assert(frames[k] == pf[k]);
        }
    }
    assert forall|k: int, c: int, j: int| 0 <= k < frames.len() && 0 <= c < frames[k].children@.len()
        && frames[k].next - 1 <= j < frames[k].entries@.len()
        implies chars_le(sort_key(v[(#[trigger] frames[k].children@[c]) as int]),
            sort_key(#[trigger] frames[k].entries@[j])) by {
        assert(k < last);
        assert(frames[k] == pf[k]);
    }
    assert forall|k: int| 0 <= k < frames.len() implies children_sorted(v, #[trigger] frames[k].children@) by {
        if k < last {
            assert(frames[k] == pf[k]);
        }
    }
    assert forall|p: int| #[trigger] post.is_settled(p) implies children_sorted(v, nodes[p].children@) by {
        assert(pre.is_settled(p));
    }
    assert forall|k: int| 0 <= k < frames.len() - 1 implies v[(#[trigger] frames[k + 1]).node as int]
        == frames[k].entries@[frames[k].next - 1] by {
        assert(frames[k] == pf[k]);
        if k + 1 < last {
            assert(frames[k + 1] == pf[k + 1]);
        } else {
            assert(pf.last() == pf[k]);
        }
    }
}

/// Closing the innermost frame settles its directory with the frame's
/// children, in key order.
proof fn lemma_order_close(pre: ScanSession, post: ScanSession, top: Frame, new_node: SnapshotNode)
    requires
        pre.wf_core(),
        pre.order_fine(),
        pre.waiting is Done,
        pre.frames@.len() > 0,
        top == pre.frames@.last(),
        post.frames@ == pre.frames@.drop_last(),
        post.nodes@ == pre.nodes@.update(top.node as int, new_node),
        new_node.children == top.children,
        post.sources == pre.sources,
        post.waiting is Done,
    ensures
        post.order_fine(),
        post.frames@.len() > 0 ==> post.sources@[top.node as int]
            == post.frames@.last().entries@[post.frames@.last().next - 1],
{
    let p = top.node as int;
    let frames = post.frames@;
    let pf = pre.frames@;
    let v = post.sources@;
    let nodes0 = pre.nodes@;
    let nodes = post.nodes@;
    let last = frames.len() as int;
    let maxc = pre.config.max_children_per_directory;
    assert(pf[last] == top);
    assert(frame_ok(nodes0, top, maxc));
    assert forall|j: int| 0 <= j < frames.len() implies (#[trigger] frames[j]) == pf[j] && pf[j].node < p by {}
    assert forall|i: int| #[trigger] post.is_settled(i) <==> pre.is_settled(i) || i == p by {
        if held_by_frame(frames, i) {
            let j = choose|j: int| 0 <= j < frames.len() && (#[trigger] frames[j]).node == i;
            assert(pf[j] == frames[j]);
        }
        if held_by_frame(pf, i) && i != p {
            let j = choose|j: int| 0 <= j < pf.len() && (#[trigger] pf[j]).node == i;
            assert(j != last);
            assert(frames[j] == pf[j]);
        }
        if i == p {
            assert(held_by_frame(pf, p));
        }
    }
    assert forall|q: int| #[trigger] post.is_settled(q) implies children_sorted(v, nodes[q].children@) by {
        if q == p {
            assert(children_sorted(v, pf[last].children@));
        } else {
            assert(pre.is_settled(q));
            assert(nodes[q] == nodes0[q]);
        }
    }
    if last > 0 {
        assert(frames.last() == pf[last - 1]);
        assert(pre.sources@[pf[(last - 1) + 1].node as int] == pf[last - 1].entries@[pf[last - 1].next - 1]);
    }
}

/// Handing a settled node, made from the entry the innermost frame stepped
/// past last, to that frame keeps the order records.
proof fn lemma_order_attach(mid: ScanSession, post: ScanSession, p: usize)
    requires
        mid.order_fine(),
        mid.frames@.len() > 0,
        1 <= mid.frames@.last().next <= mid.frames@.last().entries@.len(),
        mid.sources@[p as int] == mid.frames@.last().entries@[mid.frames@.last().next - 1],
        post.sources == mid.sources,
        post.nodes == mid.nodes,
        post.waiting == mid.waiting,
        !(mid.waiting is ReadDir),
        !(mid.waiting is Metadata),
        post.frames@.len() == mid.frames@.len(),
        forall|k: int| 0 <= k < mid.frames@.len() - 1 ==> #[trigger] post.frames@[k] == mid.frames@[k],
        post.frames@.last().node == mid.frames@.last().node,
        post.frames@.last().entries == mid.frames@.last().entries,
        post.frames@.last().next == mid.frames@.last().next,
        post.frames@.last().children@ == mid.frames@.last().children@.push(p),
        forall|i: int| #[trigger] mid.is_settled(i) <==> post.is_settled(i),
    ensures
        post.order_fine(),
{
    let frames = post.frames@;
    let mf = mid.frames@;
    let v = post.sources@;
    let last = frames.len() - 1;
    assert(frames.last() == frames[last] && mf.last() == mf[last]);
    let f = mf[last];
    let e = f.entries@[f.next - 1];
    assert forall|k: int| 0 <= k < frames.len() implies keys_sorted(#[trigger] frames[k].entries@) by {
        if k < last {
            assert(frames[k] == mf[k]);
        }
    }
    assert forall|j: int| f.next - 1 <= j < f.entries@.len() implies chars_le(sort_key(e),
        sort_key(#[trigger] f.entries@[j])) by {
        if j == f.next - 1 {
            lemma_chars_le_total(sort_key(e), sort_key(e));
        } else {
            assert(keys_sorted(mf[last].entries@));
        }
    }
    assert forall|k: int, c: int, j: int| 0 <= k < frames.len() && 0 <= c < frames[k].children@.len()
        && frames[k].next - 1 <= j < frames[k].entries@.len()
        implies chars_le(sort_key(v[(#[trigger] frames[k].children@[c]) as int]),
            sort_key(#[trigger] frames[k].entries@[j])) by {
        if k < last {
            assert(frames[k] == mf[k]);
        } else if c < f.children@.len() {
            assert(frames[k].children@[c] == f.children@[c]);
            assert(frames[k].entries@[j] == f.entries@[j]);
        } else {
            assert(frames[k].children@[c] == p);
            assert(frames[k].entries@[j] == f.entries@[j]);
        }
    }
    assert forall|k: int| 0 <= k < frames.len() implies children_sorted(v, #[trigger] frames[k].children@) by {
        if k < last {
            assert(frames[k] == mf[k]);
        } else {
            let kids = frames[k].children@;
            assert(children_sorted(v, f.children@));
            assert forall|a: int, b: int| 0 <= a < b < kids.len() implies chars_le(
                sort_key(v[(#[trigger] kids[a]) as int]), sort_key(v[(#[trigger] kids[b]) as int])) by {
                assert(kids[a] == f.children@[a]);
                if b < f.children@.len() {
                    assert(kids[b] == f.children@[b]);
                } else {
                    assert(kids[b] == p);
                    assert(chars_le(sort_key(v[mf[last].children@[a] as int]),
                        sort_key(mf[last].entries@[mf[last].next - 1])));
                }
            }
        }
    }
    assert forall|q: int| #[trigger] post.is_settled(q) implies children_sorted(v, post.nodes@[q].children@) by {
        assert(mid.is_settled(q));
    }
    assert forall|k: int| 0 <= k < frames.len() - 1 implies v[(#[trigger] frames[k + 1]).node as int]
        == frames[k].entries@[frames[k].next - 1] by {
        assert(frames[k] == mf[k]);
        if k + 1 < last {
            assert(frames[k + 1] == mf[k + 1]);
        }
        assert(frames[k + 1].node == mf[k + 1].node);
    }
}

/// Recording an issue touches nothing but the issues and their count.
proof fn lemma_issue_pushed(pre: ScanSession, post: ScanSession)
    requires
        pre.wf_core(),
        post.config == pre.config,
        post.nodes == pre.nodes,
        post.frames == pre.frames,
        post.waiting == pre.waiting,
        post.issues@.len() == post.stats.issue_count,
        post.stats.scanned_nodes == pre.stats.scanned_nodes,
        post.stats.directory_count == pre.stats.directory_count,
        post.stats.file_count == pre.stats.file_count,
        post.stats.symlink_count == pre.stats.symlink_count,
        post.stats.other_count == pre.stats.other_count,
        post.stats.omitted_nodes == pre.stats.omitted_nodes,
        post.stats.is_truncated == pre.stats.is_truncated,
    ensures
        post.wf_core(),
        pre.wf() ==> post.wf(),
        forall|i: int| #[trigger] pre.is_settled(i) <==> post.is_settled(i),
{
    assert forall|i: int| #[trigger] pre.is_settled(i) <==> post.is_settled(i) by {}
    let nodes = post.nodes@;
    let maxc = post.config.max_children_per_directory;
    assert forall|i: int| #[trigger] post.is_settled(i) implies node_consistent(nodes, i, maxc) by {
        assert(pre.is_settled(i));
    }
    assert forall|i: int, k: int| post.is_settled(i) && 0 <= k < nodes[i].children@.len()
        implies post.is_settled(#[trigger] nodes[i].children@[k] as int) by {
        assert(pre.is_settled(i));
        assert(pre.is_settled(nodes[i].children@[k] as int));
    }
    assert forall|i: int| #[trigger] post.is_settled(i) && nodes[i].truncated implies post.stats.omitted_nodes > 0 by {
        assert(pre.is_settled(i));
    }
    let frames = post.frames@;
    assert forall|k: int, c: int| 0 <= k < frames.len() && 0 <= c < frames[k].children@.len()
        implies post.is_settled(#[trigger] frames[k].children@[c] as int) by {
        assert(pre.is_settled(frames[k].children@[c] as int));
    }
}

/// A node made from an awaited entry keeps the invariant: a directory is
/// then awaited for its listing, anything else is settled.
proof fn lemma_node_pushed(pre: ScanSession, post: ScanSession, x: SnapshotNode)
    requires
        pre.wf(),
        pre.waiting is Metadata,
        x.depth == pre.waiting->depth,
        x.kind == NodeKind::Directory ==> post.waiting == (Waiting::ReadDir {
            node: pre.nodes@.len() as usize, handle: post.waiting->handle, path: post.waiting->path }),
        x.kind != NodeKind::Directory ==> post.waiting is Done,
        x.kind != NodeKind::Directory ==> x.children@.len() == 0 && x.child_count == 0 && !x.truncated,
        post.config == pre.config,
        post.issues == pre.issues,
        post.frames == pre.frames,
        post.nodes@ == pre.nodes@.push(x),
        post.stats.scanned_nodes == post.nodes@.len(),
        post.stats.directory_count == pre.stats.directory_count + if x.kind == NodeKind::Directory { 1int } else { 0int },
        post.stats.file_count == pre.stats.file_count + if x.kind == NodeKind::File { 1int } else { 0int },
        post.stats.symlink_count == pre.stats.symlink_count + if x.kind == NodeKind::Symlink { 1int } else { 0int },
        post.stats.other_count == pre.stats.other_count + if x.kind == NodeKind::Other { 1int } else { 0int },
        post.stats.issue_count == pre.stats.issue_count,
        post.stats.omitted_nodes == pre.stats.omitted_nodes,
        post.stats.is_truncated == pre.stats.is_truncated,
    ensures
        post.wf_core(),
        x.kind == NodeKind::Directory ==> post.wf(),
        x.kind != NodeKind::Directory ==> post.is_settled(pre.nodes@.len() as int),
        x.kind != NodeKind::Directory && post.frames@.len() > 0 ==> attachable(post, pre.nodes@.len() as int),
        forall|i: int| #[trigger] pre.is_settled(i) ==> post.is_settled(i) && post.nodes@[i] == pre.nodes@[i],
{
    let n = pre.nodes@.len();
    let nodes0 = pre.nodes@;
    let nodes = post.nodes@;
    let frames = post.frames@;
    let maxc = post.config.max_children_per_directory;
    lemma_count_push(nodes0, x, NodeKind::Directory);
    lemma_count_push(nodes0, x, NodeKind::File);
    lemma_count_push(nodes0, x, NodeKind::Symlink);
    lemma_count_push(nodes0, x, NodeKind::Other);
    assert forall|k: int| 0 <= k < frames.len() implies #[trigger] frames[k].node < n by {
        assert(frame_ok(nodes0, frames[k], maxc));
    }
    assert(!held_by_frame(frames, n as int));
    assert forall|i: int| #[trigger] pre.is_settled(i) implies post.is_settled(i) && nodes[i] == nodes0[i] by {}
    assert forall|i: int| #[trigger] post.is_settled(i) && i != n implies pre.is_settled(i) by {}
    if frames.len() > 0 {
        assert(x.depth == nodes0[frames.last().node as int].depth + 1);
        assert(nodes0[frames.last().node as int].depth <= frames.last().node);
    }
    assert forall|i: int| 0 <= i < nodes.len() implies (#[trigger] nodes[i]).depth <= i by {
        if i < n {
            assert(nodes0[i].depth <= i);
        }
    }
    assert forall|i: int| #[trigger] post.is_settled(i) implies node_consistent(nodes, i, maxc) by {
        if i != n {
            assert(pre.is_settled(i));
            assert(node_consistent(nodes0, i, maxc));
            assert forall|k: int| 0 <= k < nodes0[i].children@.len() implies #[trigger] nodes0[i].children@[k] < nodes0.len() by {}
            lemma_children_size_push(nodes0, x, nodes0[i].children@);
        }
    }
    assert forall|i: int, k: int| post.is_settled(i) && 0 <= k < nodes[i].children@.len()
        implies post.is_settled(#[trigger] nodes[i].children@[k] as int) by {
        if i != n {
            assert(pre.is_settled(i));
            assert(pre.is_settled(nodes0[i].children@[k] as int));
        }
    }
    assert forall|i: int| #[trigger] post.is_settled(i) && nodes[i].truncated implies post.stats.omitted_nodes > 0 by {
        if i != n {
            assert(pre.is_settled(i));
        }
    }
    assert forall|k: int| 0 <= k < frames.len() implies frame_ok(nodes, #[trigger] frames[k], maxc) by {
        assert(frame_ok(nodes0, frames[k], maxc));
    }
    assert forall|k: int, c: int| 0 <= k < frames.len() && 0 <= c < frames[k].children@.len()
        implies post.is_settled(#[trigger] frames[k].children@[c] as int) by {
        assert(pre.is_settled(frames[k].children@[c] as int));
    }
    if x.kind != NodeKind::Directory && frames.len() > 0 {
        let parent = frames.last();
        assert(frame_ok(nodes0, parent, maxc));
    }
}

/// Opening the frame of a directory whose listing has arrived keeps the invariant.
proof fn lemma_frame_opened(pre: ScanSession, post: ScanSession, f: Frame)
    requires
        pre.wf(),
        pre.waiting is ReadDir,
        f.node == pre.waiting->node,
        f.next == 0,
        f.children@.len() == 0,
        f.entries@.len() <= pre.config.max_children_per_directory,
        f.entries@.len() + f.omitted == f.total,
        f.omitted > 0 ==> f.entries@.len() == pre.config.max_children_per_directory,
        post.waiting is Done,
        post.config == pre.config,
        post.nodes == pre.nodes,
        post.frames@ == pre.frames@.push(f),
        post.issues@.len() == post.stats.issue_count,
        post.stats.scanned_nodes == pre.stats.scanned_nodes,
        post.stats.directory_count == pre.stats.directory_count,
        post.stats.file_count == pre.stats.file_count,
        post.stats.symlink_count == pre.stats.symlink_count,
        post.stats.other_count == pre.stats.other_count,
        post.stats.omitted_nodes == pre.stats.omitted_nodes,
        post.stats.is_truncated == pre.stats.is_truncated,
    ensures
        post.wf_core(),
        forall|i: int| #[trigger] pre.is_settled(i) <==> post.is_settled(i),
{
    let frames = post.frames@;
    let nodes = post.nodes@;
    let maxc = post.config.max_children_per_directory;
    let last = frames.len() - 1;
    assert(frames[last] == f);
    assert forall|i: int| held_by_frame(frames, i) <==> (held_by_frame(pre.frames@, i) || i == f.node) by {
        if held_by_frame(frames, i) {
            let k = choose|k: int| 0 <= k < frames.len() && (#[trigger] frames[k]).node == i;
            if k < last {
                assert(frames[k] == pre.frames@[k]);
            }
        }
        if held_by_frame(pre.frames@, i) {
            let k = choose|k: int| 0 <= k < pre.frames@.len() && (#[trigger] pre.frames@[k]).node == i;
            assert(frames[k] == pre.frames@[k]);
        }
        if i == f.node {
            assert(frames[last].node == i);
        }
    }
    assert forall|i: int| #[trigger] pre.is_settled(i) <==> post.is_settled(i) by {}
    assert forall|k: int| 0 <= k < frames.len() implies frame_ok(nodes, #[trigger] frames[k], maxc) by {
        if k < last {
            assert(frames[k] == pre.frames@[k]);
        }
    }
    assert forall|k: int, c: int| 0 <= k < frames.len() && 0 <= c < frames[k].children@.len()
        implies post.is_settled(#[trigger] frames[k].children@[c] as int) by {
        assert(frames[k] == pre.frames@[k]);
        assert(pre.is_settled(pre.frames@[k].children@[c] as int));
    }
    assert forall|k: int| 0 <= k < frames.len() - 1 implies
        nodes[(#[trigger] frames[k + 1]).node as int].depth == nodes[frames[k].node as int].depth + 1
        && forall|c: int| 0 <= c < frames[k].children@.len() ==> #[trigger] frames[k].children@[c] < frames[k + 1].node by {
        assert(frames[k] == pre.frames@[k]);
        if k + 1 < last {
            assert(frames[k + 1] == pre.frames@[k + 1]);
        }
    }
    assert forall|k: int| 0 <= k < frames.len() - 1 implies (#[trigger] frames[k]).children@.len() < frames[k].next by {
        assert(frames[k] == pre.frames@[k]);
    }
    assert forall|j: int, k: int| 0 <= j < k < frames.len() implies frames[j].node < frames[k].node by {
        assert(frames[j] == pre.frames@[j]);
        if k < last {
            assert(frames[k] == pre.frames@[k]);
        }
    }
    assert forall|i: int| #[trigger] post.is_settled(i) implies node_consistent(nodes, i, maxc) by {
        assert(pre.is_settled(i));
    }
    assert forall|i: int, k: int| post.is_settled(i) && 0 <= k < nodes[i].children@.len()
        implies post.is_settled(#[trigger] nodes[i].children@[k] as int) by {
        assert(pre.is_settled(i));
        assert(pre.is_settled(nodes[i].children@[k] as int));
    }
    assert forall|i: int| #[trigger] post.is_settled(i) && nodes[i].truncated implies post.stats.omitted_nodes > 0 by {
        assert(pre.is_settled(i));
    }
}

} // verus!

verus! {

/// Whether a response answers the kind of request the session made.
pub open spec fn response_fits(request: ScanRequest, response: ScanResponse) -> bool {
    ||| request is Metadata && response is Metadata
    ||| request is ReadDir && response is ReadDir
}

/// Exchanging one awaited metadata request for another state that awaits no
/// listing keeps the invariant.
proof fn lemma_rewait(pre: ScanSession, post: ScanSession)
    requires
        pre.wf_core(),
        !(pre.waiting is ReadDir),
        !(post.waiting is ReadDir),
        post.config == pre.config,
        post.nodes == pre.nodes,
        post.frames == pre.frames,
        post.issues == pre.issues,
        post.stats == pre.stats,
    ensures
        post.wf_core(),
        forall|i: int| #[trigger] pre.is_settled(i) <==> post.is_settled(i),
{
    assert forall|i: int| #[trigger] pre.is_settled(i) <==> post.is_settled(i) by {}
    let nodes = post.nodes@;
    let maxc = post.config.max_children_per_directory;
    assert forall|i: int| #[trigger] post.is_settled(i) implies node_consistent(nodes, i, maxc) by {
        assert(pre.is_settled(i));
    }
    assert forall|i: int, k: int| post.is_settled(i) && 0 <= k < nodes[i].children@.len()
        implies post.is_settled(#[trigger] nodes[i].children@[k] as int) by {
        assert(pre.is_settled(i));
        assert(pre.is_settled(nodes[i].children@[k] as int));
    }
    assert forall|i: int| #[trigger] post.is_settled(i) && nodes[i].truncated implies post.stats.omitted_nodes > 0 by {
        assert(pre.is_settled(i));
    }
    let frames = post.frames@;
    assert forall|k: int, c: int| 0 <= k < frames.len() && 0 <= c < frames[k].children@.len()
        implies post.is_settled(#[trigger] frames[k].children@[c] as int) by {
        assert(pre.is_settled(frames[k].children@[c] as int));
    }
}

/// The display name of a visited entry; see `spec_display_name`.
pub fn display_name(e: &FsEntry) -> (s: String)
    ensures
        s@ == spec_display_name(*e),
{
    match &e.name {
        Some(n) => {
            if !n.as_str().is_empty() {
                n.clone()
            } else {
                e.path.clone()
            }
        },
        None => e.path.clone(),
    }
}

impl ScanSession {
    /// Records that `operation` failed on `path` with `message`.
    fn record_issue(&mut self, path: &str, operation: &str, message: String)
        requires
            old(self).wf_core(),
        ensures
            final(self).wf_core(),
            old(self).wf() ==> final(self).wf(),
            final(self).config == old(self).config,
            final(self).root == old(self).root,
            final(self).nodes == old(self).nodes,
            final(self).frames == old(self).frames,
            final(self).waiting == old(self).waiting,
            final(self).limit_hit == old(self).limit_hit,
            final(self).parents == old(self).parents,
            old(self).parent_ok() ==> final(self).parent_ok(),
            final(self).sources == old(self).sources,
            old(self).order_fine() ==> final(self).order_fine(),
            final(self).stats.omitted_nodes == old(self).stats.omitted_nodes,
            final(self).issues@.len() == old(self).issues@.len() + 1,
            final(self).issues@.subrange(0, old(self).issues@.len() as int) == old(self).issues@,
            issue_is(final(self).issues@.last(), spec_normalize_path(path@), operation@, message@),
            forall|i: int| #[trigger] old(self).is_settled(i) <==> final(self).is_settled(i),
    {
        let ghost pre = *self;
        let issue = ScanIssue { path: normalize_path(path), operation: String::from_str(operation), message };
        self.issues.push(issue);
        self.stats.issue_count = self.issues.len();
        proof {
            lemma_issue_pushed(pre, *self);
            if pre.parent_ok() {
                lemma_parents_keep(pre, *self);
            }
            if pre.order_fine() {
                lemma_order_keep(pre, *self);
            }
            assert(self.issues@.subrange(0, pre.issues@.len() as int) =~= pre.issues@);
        }
    }

    /// Takes the caller's answer to the last request and carries the scan
    /// forward to the next one. An answer of the wrong kind changes nothing.
    ///
    /// A directory's listing puts its kept entries (at most the per-directory
    /// limit of them, in key order) ahead of the `upcoming` ones; after each
    /// entry the session asks for the next upcoming one, and is finished once
    /// none is left. Entries met with the node limit reached are counted as
    /// omitted, each of them, and mark the scan truncated.
    #[verifier::spinoff_prover]
    #[verifier::rlimit(100)]
    pub fn respond(&mut self, response: ScanResponse)
        requires
            old(self).valid(),
        ensures
            final(self).valid(),
            final(self).spec_request() is Metadata
                ==> final(self).spec_request() == ScanRequest::Metadata(final(self).awaited_entry().handle),
            final(self).spec_request() is Finished ==> final(self).pending_cuts() == 0,
            old(self).limit_reached() ==> final(self).limit_reached(),
            final(self).spec_config() == old(self).spec_config(),
            final(self).spec_root() == old(self).spec_root(),
            old(self).spec_issues().len() <= final(self).spec_issues().len(),
            final(self).spec_issues().subrange(0, old(self).spec_issues().len() as int) == old(self).spec_issues(),
            old(self).spec_nodes().len() <= final(self).spec_nodes().len(),
            forall|i: int| #[trigger] old(self).is_settled(i) ==> final(self).is_settled(i)
                && final(self).spec_nodes()[i] == old(self).spec_nodes()[i],
            final(self).spec_stats().omitted_nodes >= old(self).spec_stats().omitted_nodes,
            !response_fits(old(self).spec_request(), response) ==> *final(self) == *old(self),
            old(self).spec_request() is Metadata ==> match response {
                ScanResponse::Metadata(Err(m)) => {
                    &&& final(self).spec_issues().len() == old(self).spec_issues().len() + 1
                    &&& issue_is(final(self).spec_issues().last(),
                        spec_normalize_path(old(self).awaited_entry().path@), "metadata"@, m@)
                    &&& final(self).spec_nodes().len() == old(self).spec_nodes().len()
                    &&& final(self).visited_entries() == old(self).visited_entries()
                    &&& final(self).accounted() == old(self).accounted()
                    &&& !(final(self).spec_request() is ReadDir)
                    &&& (final(self).spec_request() is Finished <==> old(self).remaining() == 0)
                    &&& final(self).spec_request() is Metadata ==> final(self).remaining() + 1 == old(self).remaining()
                    &&& final(self).spec_request() is Metadata ==> final(self).awaited_entry() == old(self).upcoming()[0]
                        && final(self).upcoming() == old(self).upcoming().drop_first()
                },
                ScanResponse::Metadata(Ok(m)) => {
                    &&& final(self).spec_issues() == old(self).spec_issues()
                    &&& final(self).spec_nodes().len() == old(self).spec_nodes().len() + 1
                    &&& final(self).visited_entries() == old(self).visited_entries().push(old(self).awaited_entry())
                    &&& visited_node(final(self).spec_nodes()[old(self).spec_nodes().len() as int],
                        old(self).awaited_entry(), old(self).awaited_depth(), m)
                    &&& spec_kind(m) == NodeKind::Directory
                        ==> final(self).spec_request() == ScanRequest::ReadDir(old(self).awaited_entry().handle)
                    &&& spec_kind(m) == NodeKind::Directory ==> final(self).upcoming() == old(self).upcoming()
                    &&& spec_kind(m) == NodeKind::Directory ==> final(self).spec_stats().omitted_nodes
                        == old(self).spec_stats().omitted_nodes && final(self).pending_cuts() == old(self).pending_cuts()
                    &&& spec_kind(m) != NodeKind::Directory ==> final(self).accounted() == capped_add(old(self).accounted(),
                        if old(self).spec_nodes().len() + 1 >= old(self).spec_config().max_nodes {
                            old(self).remaining() as int
                        } else { 0 })
                    &&& spec_kind(m) != NodeKind::Directory ==> !(final(self).spec_request() is ReadDir)
                    &&& spec_kind(m) != NodeKind::Directory ==> (final(self).spec_request() is Finished
                        <==> old(self).remaining() == 0
                        || old(self).spec_nodes().len() + 1 >= old(self).spec_config().max_nodes)
                    &&& spec_kind(m) != NodeKind::Directory && final(self).spec_request() is Metadata
                        ==> final(self).remaining() + 1 == old(self).remaining()
                    &&& spec_kind(m) != NodeKind::Directory && final(self).spec_request() is Metadata
                        ==> final(self).awaited_entry() == old(self).upcoming()[0]
                        && final(self).upcoming() == old(self).upcoming().drop_first()
                    &&& spec_kind(m) != NodeKind::Directory && old(self).remaining() > 0
                        && old(self).spec_nodes().len() + 1 >= old(self).spec_config().max_nodes ==> {
                        &&& final(self).spec_stats().is_truncated
                        &&& final(self).limit_reached()
                    }
                },
                _ => true,
            },
            old(self).spec_request() is ReadDir ==> match response {
                ScanResponse::ReadDir(Err(m)) => {
                    &&& final(self).spec_issues().len() == old(self).spec_issues().len() + 1
                    &&& issue_is(final(self).spec_issues().last(),
                        spec_normalize_path(old(self).awaited_dir_path()), "read_dir"@, m@)
                    &&& final(self).spec_nodes().len() == old(self).spec_nodes().len()
                    &&& final(self).visited_entries() == old(self).visited_entries()
                    &&& final(self).accounted() == capped_add(old(self).accounted(),
                        if old(self).spec_nodes().len() >= old(self).spec_config().max_nodes {
                            old(self).remaining() as int
                        } else { 0 })
                    &&& !(final(self).spec_request() is ReadDir)
                    &&& (final(self).spec_request() is Finished <==> old(self).remaining() == 0
                        || old(self).spec_nodes().len() >= old(self).spec_config().max_nodes)
                    &&& final(self).spec_request() is Metadata ==> final(self).remaining() + 1 == old(self).remaining()
                    &&& final(self).spec_request() is Metadata ==> final(self).awaited_entry() == old(self).upcoming()[0]
                        && final(self).upcoming() == old(self).upcoming().drop_first()
                    &&& old(self).remaining() > 0 && old(self).spec_nodes().len() >= old(self).spec_config().max_nodes ==> {
                        &&& final(self).spec_stats().is_truncated
                        &&& final(self).limit_reached()
                    }
                },
                ScanResponse::ReadDir(Ok(list)) => {
                    let errs = listing_errors(list@);
                    let kids = spec_prepare(old(self).spec_config().rules, list@);
                    let maxc = old(self).spec_config().max_children_per_directory;
                    let added = if kids.len() < maxc { kids.len() } else { maxc as nat };
                    &&& final(self).spec_issues().len() == old(self).spec_issues().len() + errs.len()
                    &&& forall|k: int| 0 <= k < errs.len() ==> issue_is(
                        #[trigger] final(self).spec_issues()[old(self).spec_issues().len() + k],
                        spec_normalize_path(old(self).awaited_dir_path()), "read_entry"@, errs[k])
                    &&& final(self).spec_nodes().len() == old(self).spec_nodes().len()
                    &&& final(self).visited_entries() == old(self).visited_entries()
                    &&& final(self).accounted() == capped_add(capped_add(old(self).accounted(), kids.len() - added),
                        if old(self).spec_nodes().len() >= old(self).spec_config().max_nodes {
                            (old(self).remaining() + added) as int
                        } else { 0 })
                    &&& kids.len() > 0 && maxc > 0 && old(self).spec_nodes().len() < old(self).spec_config().max_nodes ==> {
                        &&& final(self).spec_request() == ScanRequest::Metadata(kids[0].handle)
                        &&& final(self).awaited_entry() == kids[0]
                    }
                    &&& !(final(self).spec_request() is ReadDir)
                    &&& (final(self).spec_request() is Finished <==> old(self).remaining() + added == 0
                        || old(self).spec_nodes().len() >= old(self).spec_config().max_nodes)
                    &&& final(self).spec_request() is Metadata
                        ==> final(self).remaining() + 1 == old(self).remaining() + added
                    &&& final(self).spec_request() is Metadata ==> {
                        let ahead = kids.subrange(0, added as int) + old(self).upcoming();
                        &&& final(self).awaited_entry() == ahead[0]
                        &&& final(self).upcoming() == ahead.drop_first()
                    }
                    &&& old(self).remaining() + added > 0 && old(self).spec_nodes().len() >= old(self).spec_config().max_nodes ==> {
                        &&& final(self).spec_stats().is_truncated
                        &&& final(self).limit_reached()
                    }
                },
                _ => true,
            },
    {
        let fits = match (&self.waiting, &response) {
            (Waiting::Metadata { .. }, ScanResponse::Metadata(_)) => true,
            (Waiting::ReadDir { .. }, ScanResponse::ReadDir(_)) => true,
            _ => false,
        };
        if !fits {
            return;
        }
        match response {
            ScanResponse::Metadata(result) => self.take_metadata(result),
            ScanResponse::ReadDir(result) => self.take_listing(result),
        }
    }

    /// Takes the metadata of the awaited entry, or why it could not be read.
    #[verifier::spinoff_prover]
    #[verifier::rlimit(100)]
    fn take_metadata(&mut self, result: Result<EntryMetadata, String>)
        requires
            old(self).valid(),
            old(self).waiting is Metadata,
        ensures
            final(self).valid(),
            final(self).spec_request() is Metadata
                ==> final(self).spec_request() == ScanRequest::Metadata(final(self).awaited_entry().handle),
            final(self).spec_request() is Finished ==> final(self).pending_cuts() == 0,
            old(self).limit_reached() ==> final(self).limit_reached(),
            final(self).spec_config() == old(self).spec_config(),
            final(self).spec_root() == old(self).spec_root(),
            old(self).spec_issues().len() <= final(self).spec_issues().len(),
            final(self).spec_issues().subrange(0, old(self).spec_issues().len() as int) == old(self).spec_issues(),
            old(self).spec_nodes().len() <= final(self).spec_nodes().len(),
            forall|i: int| #[trigger] old(self).is_settled(i) ==> final(self).is_settled(i)
                && final(self).spec_nodes()[i] == old(self).spec_nodes()[i],
            final(self).spec_stats().omitted_nodes >= old(self).spec_stats().omitted_nodes,
            match result {
                Err(m) => {
                    &&& final(self).spec_issues().len() == old(self).spec_issues().len() + 1
                    &&& issue_is(final(self).spec_issues().last(),
                        spec_normalize_path(old(self).awaited_entry().path@), "metadata"@, m@)
                    &&& final(self).spec_nodes().len() == old(self).spec_nodes().len()
                    &&& final(self).visited_entries() == old(self).visited_entries()
                    &&& final(self).accounted() == old(self).accounted()
                    &&& !(final(self).spec_request() is ReadDir)
                    &&& (final(self).spec_request() is Finished <==> old(self).remaining() == 0)
                    &&& final(self).spec_request() is Metadata ==> final(self).remaining() + 1 == old(self).remaining()
                    &&& final(self).spec_request() is Metadata ==> final(self).awaited_entry() == old(self).upcoming()[0]
                        && final(self).upcoming() == old(self).upcoming().drop_first()
                },
                Ok(m) => {
                    &&& final(self).spec_issues() == old(self).spec_issues()
                    &&& final(self).spec_nodes().len() == old(self).spec_nodes().len() + 1
                    &&& final(self).visited_entries() == old(self).visited_entries().push(old(self).awaited_entry())
                    &&& visited_node(final(self).spec_nodes()[old(self).spec_nodes().len() as int],
                        old(self).awaited_entry(), old(self).awaited_depth(), m)
                    &&& spec_kind(m) == NodeKind::Directory
                        ==> final(self).spec_request() == ScanRequest::ReadDir(old(self).awaited_entry().handle)
                    &&& spec_kind(m) == NodeKind::Directory ==> final(self).upcoming() == old(self).upcoming()
                    &&& spec_kind(m) == NodeKind::Directory ==> final(self).spec_stats().omitted_nodes
                        == old(self).spec_stats().omitted_nodes && final(self).pending_cuts() == old(self).pending_cuts()
                    &&& spec_kind(m) != NodeKind::Directory ==> final(self).accounted() == capped_add(old(self).accounted(),
                        if old(self).spec_nodes().len() + 1 >= old(self).spec_config().max_nodes {
                            old(self).remaining() as int
                        } else { 0 })
                    &&& spec_kind(m) != NodeKind::Directory ==> !(final(self).spec_request() is ReadDir)
                    &&& spec_kind(m) != NodeKind::Directory ==> (final(self).spec_request() is Finished
                        <==> old(self).remaining() == 0
                        || old(self).spec_nodes().len() + 1 >= old(self).spec_config().max_nodes)
                    &&& spec_kind(m) != NodeKind::Directory && final(self).spec_request() is Metadata
                        ==> final(self).remaining() + 1 == old(self).remaining()
                    &&& spec_kind(m) != NodeKind::Directory && final(self).spec_request() is Metadata
                        ==> final(self).awaited_entry() == old(self).upcoming()[0]
                        && final(self).upcoming() == old(self).upcoming().drop_first()
                    &&& spec_kind(m) != NodeKind::Directory && old(self).remaining() > 0
                        && old(self).spec_nodes().len() + 1 >= old(self).spec_config().max_nodes ==> {
                        &&& final(self).spec_stats().is_truncated
                        &&& final(self).limit_reached()
                    }
                },
            },
    {
        let ghost pre = *self;
        proof {
            lemma_remaining(pre);
        }
        let (entry, depth) = match &self.waiting {
            Waiting::Metadata { entry, depth } => (entry.duplicate(), *depth),
            _ => {
                proof {
                    assert(false);
                }
                return;
            },
        };
        match result {
            Err(message) => {
                self.record_issue(entry.path.as_str(), "metadata", message);
                let ghost mid = *self;
                self.waiting = Waiting::Done;
                proof {
                    lemma_rewait(mid, *self);
                    lemma_parents_keep(mid, *self);
                    lemma_order_keep(mid, *self);
                    assert(self.frames == pre.frames);
                    assert(self.nodes@.len() < self.config.max_nodes);
                    assert(self.stats.omitted_nodes == pre.stats.omitted_nodes);
                }
                self.advance();
                proof {
                    lemma_remaining(*self);
                }
            },
            Ok(meta) => {
                let index = self.nodes.len();
                let kind = node_kind(&meta);
                let node = SnapshotNode {
                    path: normalize_path(entry.path.as_str()),
                    name: display_name(&entry),
                    kind,
                    depth,
                    size: if meta.is_file { meta.len } else { 0 },
                    modified_unix_ms: meta.modified_unix_ms,
                    children: Vec::new(),
                    child_count: 0,
                    truncated: false,
                };
                let ghost x = node;
                self.nodes.push(node);
                self.parents = Ghost(self.parents@.push(
                    if self.frames@.len() > 0 { self.frames@.last().node as int } else { -1 },
                ));
                self.sources = Ghost(self.sources@.push(entry));
                proof {
                    lemma_count_push(pre.nodes@, x, kind);
                    lemma_count_bound(self.nodes@, kind);
                }
                self.stats.scanned_nodes = self.nodes.len();
                match kind {
                    NodeKind::Directory => self.stats.directory_count = self.stats.directory_count + 1,
                    NodeKind::File => self.stats.file_count = self.stats.file_count + 1,
                    NodeKind::Symlink => self.stats.symlink_count = self.stats.symlink_count + 1,
                    NodeKind::Other => self.stats.other_count = self.stats.other_count + 1,
                }
                if kind == NodeKind::Directory {
                    self.waiting = Waiting::ReadDir { node: index, handle: entry.handle, path: entry.path };
                    proof {
                        lemma_node_pushed(pre, *self, x);
                        lemma_parents_push(pre, *self, x);
                        lemma_order_push(pre, *self, x);
                        lemma_remaining(*self);
                    }
                } else {
                    self.waiting = Waiting::Done;
                    proof {
                        lemma_node_pushed(pre, *self, x);
                        lemma_parents_push(pre, *self, x);
                        lemma_order_push(pre, *self, x);
                    }
                    if self.frames.len() > 0 {
                        let ghost mid = *self;
                        let mut parent = self.frames.pop().unwrap();
                        parent.children.push(index);
                        self.frames.push(parent);
                        proof {
                            assert(self.frames@.last().children@ == mid.frames@.last().children@.push(index));
                            lemma_attach(mid, *self, index);
                            lemma_parents_attach(mid, *self, index);
                            lemma_order_attach(mid, *self, index);
                            let (a, b) = (self.frames@, pre.frames@);
                            assert forall|k: int| 0 <= k < a.len() implies (#[trigger] a[k]).entries@.len()
                                == b[k].entries@.len() && a[k].next == b[k].next by {
                                assert(mid.frames == pre.frames);
                                if k < a.len() - 1 {
                                    assert(a[k] == mid.frames@[k]);
                                }
                            }
                            lemma_pending_same(a, b);
                            assert forall|k: int| 0 <= k < a.len() implies (#[trigger] a[k]).entries@
                                == b[k].entries@ && a[k].next == b[k].next by {
                                assert(mid.frames == pre.frames);
                                if k < a.len() - 1 {
                                    assert(a[k] == mid.frames@[k]);
                                }
                            }
                            lemma_queue_same(a, b);
                            assert forall|k: int| 0 <= k < a.len() implies (#[trigger] a[k]).omitted
                                == b[k].omitted by {
                                assert(mid.frames == pre.frames);
                                if k < a.len() - 1 {
                                    assert(a[k] == mid.frames@[k]);
                                }
                            }
                            lemma_cut_same(a, b);
                        }
                    }
                    self.advance();
                    proof {
                        lemma_remaining(*self);
                    }
                }
            },
        }
    }

    /// Takes the listing of the awaited directory, or why it could not be opened.
    #[verifier::spinoff_prover]
    #[verifier::rlimit(100)]
    fn take_listing(&mut self, result: Result<Vec<Result<FsEntry, String>>, String>)
        requires
            old(self).valid(),
            old(self).waiting is ReadDir,
        ensures
            final(self).valid(),
            final(self).spec_request() is Metadata
                ==> final(self).spec_request() == ScanRequest::Metadata(final(self).awaited_entry().handle),
            final(self).spec_request() is Finished ==> final(self).pending_cuts() == 0,
            old(self).limit_reached() ==> final(self).limit_reached(),
            final(self).spec_config() == old(self).spec_config(),
            final(self).spec_root() == old(self).spec_root(),
            old(self).spec_issues().len() <= final(self).spec_issues().len(),
            final(self).spec_issues().subrange(0, old(self).spec_issues().len() as int) == old(self).spec_issues(),
            old(self).spec_nodes().len() <= final(self).spec_nodes().len(),
            forall|i: int| #[trigger] old(self).is_settled(i) ==> final(self).is_settled(i)
                && final(self).spec_nodes()[i] == old(self).spec_nodes()[i],
            final(self).spec_stats().omitted_nodes >= old(self).spec_stats().omitted_nodes,
            match result {
                Err(m) => {
                    &&& final(self).spec_issues().len() == old(self).spec_issues().len() + 1
                    &&& issue_is(final(self).spec_issues().last(),
                        spec_normalize_path(old(self).awaited_dir_path()), "read_dir"@, m@)
                    &&& final(self).spec_nodes().len() == old(self).spec_nodes().len()
                    &&& final(self).visited_entries() == old(self).visited_entries()
                    &&& final(self).accounted() == capped_add(old(self).accounted(),
                        if old(self).spec_nodes().len() >= old(self).spec_config().max_nodes {
                            old(self).remaining() as int
                        } else { 0 })
                    &&& !(final(self).spec_request() is ReadDir)
                    &&& (final(self).spec_request() is Finished <==> old(self).remaining() == 0
                        || old(self).spec_nodes().len() >= old(self).spec_config().max_nodes)
                    &&& final(self).spec_request() is Metadata ==> final(self).remaining() + 1 == old(self).remaining()
                    &&& final(self).spec_request() is Metadata ==> final(self).awaited_entry() == old(self).upcoming()[0]
                        && final(self).upcoming() == old(self).upcoming().drop_first()
                    &&& old(self).remaining() > 0 && old(self).spec_nodes().len() >= old(self).spec_config().max_nodes ==> {
                        &&& final(self).spec_stats().is_truncated
                        &&& final(self).limit_reached()
                    }
                },
                Ok(list) => {
                    let errs = listing_errors(list@);
                    let kids = spec_prepare(old(self).spec_config().rules, list@);
                    let maxc = old(self).spec_config().max_children_per_directory;
                    let added = if kids.len() < maxc { kids.len() } else { maxc as nat };
                    &&& final(self).spec_issues().len() == old(self).spec_issues().len() + errs.len()
                    &&& forall|k: int| 0 <= k < errs.len() ==> issue_is(
                        #[trigger] final(self).spec_issues()[old(self).spec_issues().len() + k],
                        spec_normalize_path(old(self).awaited_dir_path()), "read_entry"@, errs[k])
                    &&& final(self).spec_nodes().len() == old(self).spec_nodes().len()
                    &&& final(self).visited_entries() == old(self).visited_entries()
                    &&& final(self).accounted() == capped_add(capped_add(old(self).accounted(), kids.len() - added),
                        if old(self).spec_nodes().len() >= old(self).spec_config().max_nodes {
                            (old(self).remaining() + added) as int
                        } else { 0 })
                    &&& kids.len() > 0 && maxc > 0 && old(self).spec_nodes().len() < old(self).spec_config().max_nodes ==> {
                        &&& final(self).spec_request() == ScanRequest::Metadata(kids[0].handle)
                        &&& final(self).awaited_entry() == kids[0]
                    }
                    &&& !(final(self).spec_request() is ReadDir)
                    &&& (final(self).spec_request() is Finished <==> old(self).remaining() + added == 0
                        || old(self).spec_nodes().len() >= old(self).spec_config().max_nodes)
                    &&& final(self).spec_request() is Metadata
                        ==> final(self).remaining() + 1 == old(self).remaining() + added
                    &&& final(self).spec_request() is Metadata ==> {
                        let ahead = kids.subrange(0, added as int) + old(self).upcoming();
                        &&& final(self).awaited_entry() == ahead[0]
                        &&& final(self).upcoming() == ahead.drop_first()
                    }
                    &&& old(self).remaining() + added > 0 && old(self).spec_nodes().len() >= old(self).spec_config().max_nodes ==> {
                        &&& final(self).spec_stats().is_truncated
                        &&& final(self).limit_reached()
                    }
                },
            },
    {
        let ghost pre = *self;
        proof {
            lemma_remaining(pre);
        }
        let (node, path) = match &self.waiting {
            Waiting::ReadDir { node, path, .. } => (*node, path.clone()),
            _ => {
                proof {
                    assert(false);
                }
                return;
            },
        };
        let maxc = self.config.max_children_per_directory;
        let mut entries: Vec<FsEntry> = Vec::new();
        let mut total: usize = 0;
        let mut omitted: usize = 0;
        match result {
            Err(message) => {
                self.record_issue(path.as_str(), "read_dir", message);
            },
            Ok(list) => {
                let ghost start = *self;
                let mut i: usize = 0;
                while i < list.len()
                    invariant
                        start.wf(),
                        self.wf(),
                        self.config == start.config,
                        self.root == start.root,
                        self.nodes == start.nodes,
                        self.frames == start.frames,
                        self.waiting == start.waiting,
                        self.stats.omitted_nodes == start.stats.omitted_nodes,
                        self.limit_hit == start.limit_hit,
                        self.parents == start.parents,
                        self.parent_ok(),
                        self.sources == start.sources,
                        self.order_fine(),
                        forall|j: int| #[trigger] start.is_settled(j) <==> self.is_settled(j),
                        i <= list@.len(),
                        self.issues@.len() == start.issues@.len() + listing_errors(list@.subrange(0, i as int)).len(),
                        self.issues@.subrange(0, start.issues@.len() as int) == start.issues@,
                        forall|k: int| 0 <= k < listing_errors(list@.subrange(0, i as int)).len() ==> issue_is(
                            #[trigger] self.issues@[start.issues@.len() + k], spec_normalize_path(path@),
                            "read_entry"@, listing_errors(list@.subrange(0, i as int))[k]),
                    decreases list@.len() - i,
                {
                    let ghost before = *self;
                    proof {
                        assert(list@.subrange(0, (i + 1) as int).drop_last() =~= list@.subrange(0, i as int));
                    }
                    match &list[i] {
                        Err(message) => {
                            self.record_issue(path.as_str(), "read_entry", message.clone());
                            proof {
                                let errs = listing_errors(list@.subrange(0, (i + 1) as int));
                                assert forall|k: int| 0 <= k < errs.len() implies issue_is(
                                    #[trigger] self.issues@[start.issues@.len() + k], spec_normalize_path(path@),
                                    "read_entry"@, errs[k]) by {
                                    if k < errs.len() - 1 {
                                        assert(self.issues@[start.issues@.len() + k] == before.issues@[start.issues@.len() + k]);
                                    }
                                }
                                assert(self.issues@.subrange(0, start.issues@.len() as int)
                                    =~= before.issues@.subrange(0, start.issues@.len() as int));
                            }
                        },
                        Ok(_) => {},
                    }
                    i = i + 1;
                }
                proof {
                    assert(list@.subrange(0, list@.len() as int) =~= list@);
                }
                let prepared = prepare_children(&self.config.rules, &list);
                total = prepared.len();
                omitted = if total > maxc { total - maxc } else { 0 };
                entries = prepared;
                entries.truncate(maxc);
                proof {
                    let all = spec_prepare(self.config.rules, list@);
                    lemma_sorted_by_key_sorted(kept_entries(self.config.rules, list@));
                    assert forall|i: int, j: int| 0 <= i < j < entries@.len() implies chars_le(
                        sort_key(#[trigger] entries@[i]), sort_key(#[trigger] entries@[j])) by {
                        assert(entries@[i] == all[i] && entries@[j] == all[j]);
                    }
                }
            },
        }
        let ghost mid = *self;
        let frame = Frame { node, entries, next: 0, children: Vec::new(), total, omitted };
        let ghost f = frame;
        self.frames.push(frame);
        self.waiting = Waiting::Done;
        proof {
            lemma_frame_opened(mid, *self, f);
            lemma_parents_open(mid, *self, f);
            lemma_order_open(mid, *self, f);
            lemma_pending_push(mid.frames@, f);
            lemma_queue_push(mid.frames@, f);
            lemma_cut_push(mid.frames@, f);
            assert(self.stats.omitted_nodes == pre.stats.omitted_nodes);
            lemma_capped_twice(pre.stats.omitted_nodes as int, frames_cut(pre.frames@) as int, f.omitted as int);
            assert(f.entries@.subrange(0, f.entries@.len() as int) =~= f.entries@);
            assert(mid.frames == pre.frames);
            assert(frames_pending(self.frames@) == frames_pending(pre.frames@) + f.entries@.len());
        }
        self.advance();
        proof {
            lemma_remaining(*self);
        }
    }
}

/// A symbolic link is never listed, even one that points at a directory:
/// its metadata makes it a link, and only a directory's metadata leads the
/// scan to ask for a listing (see `ScanSession::respond`).
pub proof fn law_links_are_not_followed(m: EntryMetadata)
    requires
        m.is_symlink,
    ensures
        spec_kind(m) == NodeKind::Symlink,
        spec_kind(m) != NodeKind::Directory,
{
}

} // verus!
