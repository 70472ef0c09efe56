//! Saved node positions: the keys under which they are stored and the
//! store's lookup rules. Positions themselves are opaque here; reading and
//! writing the layout file happens outside the library.

use vstd::prelude::*;
use crate::text::{
    chars_le, chars_less_eq, chars_of, digit, digit_char, forward_slash_chars, forward_slashes, has_prefix,
    lemma_chars_le_total, lemma_chars_le_trans, push_char, push_str, starts_with_chars, string_from_chars,
};

verus! {

/// Two lower-case hexadecimal digits per byte.
pub open spec fn spec_hex_bytes(bytes: Seq<u8>) -> Seq<char>
    decreases bytes.len(),
{
    if bytes.len() == 0 {
        Seq::empty()
    } else {
        spec_hex_bytes(bytes.drop_last()) + seq![
            digit_char((bytes.last() / 16) as nat),
            digit_char((bytes.last() % 16) as nat),
        ]
    }
}

/// `bytes` as lower-case hexadecimal, two digits per byte.
pub fn hex_encode(bytes: &[u8]) -> (s: String)
    ensures
        s@ == spec_hex_bytes(bytes@),
{
    let mut s = String::new();
    let mut i: usize = 0;
    while i < bytes.len()
        invariant
            i <= bytes@.len(),
            s@ == spec_hex_bytes(bytes@.subrange(0, i as int)),
        decreases bytes@.len() - i,
    {
        let b = bytes[i];
        push_char(&mut s, digit((b / 16) as u128));
        push_char(&mut s, digit((b % 16) as u128));
        proof {
            let next = bytes@.subrange(0, (i + 1) as int);
            assert(next.drop_last() =~= bytes@.subrange(0, i as int));
            assert(next.last() == b);
            assert(s@ =~= spec_hex_bytes(next));
        }
        i = i + 1;
    }
    proof {
        assert(bytes@.subrange(0, bytes@.len() as int) =~= bytes@);
    }
    s
}

/// The prefix `id:` of a key made from a stable file id.
pub open spec fn id_prefix() -> Seq<char> {
    seq!['i', 'd', ':']
}

/// A stored key as it is used: one made from a stable id stays as it is;
/// a path key gets forward slashes.
pub open spec fn spec_normalize_key(key: Seq<char>) -> Seq<char> {
    if has_prefix(key, id_prefix()) { key } else { forward_slashes(key) }
}

/// A stored key as it is used; see `spec_normalize_key`.
pub fn normalize_key(key: &str) -> (s: String)
    ensures
        s@ == spec_normalize_key(key@),
{
    let chars = chars_of(key);
    let prefix: Vec<char> = vec!['i', 'd', ':'];
    proof {
        assert(prefix@ =~= id_prefix());
    }
    if starts_with_chars(&chars, &prefix) {
        String::from_str(key)
    } else {
        string_from_chars(&forward_slash_chars(key))
    }
}

/// The key under which a node's position is kept: `id:` and the hex of its
/// stable file id where it has one, else its path with forward slashes.
pub open spec fn spec_layout_key(stable_id: Option<Seq<u8>>, path: Seq<char>) -> Seq<char> {
    match stable_id {
        Some(id) => id_prefix() + spec_hex_bytes(id),
        None => spec_normalize_key(path),
    }
}

/// The key under which a node's position is kept; see `spec_layout_key`.
pub fn layout_key(stable_id: Option<&[u8]>, path: &str) -> (s: String)
    ensures
        s@ == spec_layout_key(
            match stable_id {
                Some(id) => Some(id@),
                None => None,
            },
            path@,
        ),
{
    match stable_id {
        Some(id) => {
            let mut s = String::new();
            push_char(&mut s, 'i');
            push_char(&mut s, 'd');
            push_char(&mut s, ':');
            push_str(&mut s, hex_encode(id).as_str());
            proof {
                assert(s@ =~= id_prefix() + spec_hex_bytes(id@));
            }
            s
        },
        None => normalize_key(path),
    }
}

/// The value stored under `k`: the last pair with that key.
pub open spec fn lookup<E>(entries: Seq<(String, E)>, k: Seq<char>) -> Option<E>
    decreases entries.len(),
{
    if entries.len() == 0 {
        None
    } else if entries.last().0@ == k {
        Some(entries.last().1)
    } else {
        lookup(entries.drop_last(), k)
    }
}

proof fn lemma_lookup_push<E>(s: Seq<(String, E)>, x: (String, E), k: Seq<char>)
    ensures
        lookup(s.push(x), k) == if x.0@ == k { Some(x.1) } else { lookup(s, k) },
{
    assert(s.push(x).drop_last() =~= s);
}

/// No key occurs twice in `entries`.
pub open spec fn unique_keys<E>(entries: Seq<(String, E)>) -> bool {
    forall|a: int, b: int| 0 <= a < b < entries.len() ==> #[trigger] entries[a].0@ != #[trigger] entries[b].0@
}

/// The keys of `r` are in order.
spec fn keys_sorted<E>(r: Seq<(String, E)>) -> bool {
    forall|a: int, b: int| 0 <= a < b < r.len() ==> chars_le(#[trigger] r[a].0@, #[trigger] r[b].0@)
}

/// `r` holds the first `i` pairs of `entries`, ordered by key, each once:
/// `r[a]` is pair `src[a]` of `entries`, and pair `j` sits at `pos[j]`.
spec fn sorted_prefix<E>(r: Seq<(String, E)>, entries: Seq<(String, E)>, i: int, src: Seq<int>, pos: Seq<int>) -> bool {
    &&& r.len() == i
    &&& src.len() == i
    &&& pos.len() == i
    &&& keys_sorted(r)
    &&& unique_keys(r)
    &&& forall|a: int| 0 <= a < i ==> 0 <= #[trigger] src[a] < i && r[a].0@ == entries[src[a]].0@ && r[a].1 == entries[src[a]].1
    &&& forall|j: int| 0 <= j < i ==> 0 <= #[trigger] pos[j] < i && r[pos[j]].0@ == entries[j].0@
}

proof fn lemma_insert_sorted<E>(r0: Seq<(String, E)>, j: int, pair: (String, E))
    requires
        keys_sorted(r0),
        0 <= j <= r0.len(),
        j > 0 ==> chars_le(r0[j - 1].0@, pair.0@),
        forall|a: int| j <= a < r0.len() ==> !chars_le(#[trigger] r0[a].0@, pair.0@),
    ensures
        keys_sorted(r0.insert(j, pair)),
{
    let r = r0.insert(j, pair);
    assert forall|a: int, b: int| 0 <= a < b < r.len() implies chars_le(#[trigger] r[a].0@, #[trigger] r[b].0@) by {
        if a < j && b == j {
            if a < j - 1 {
                lemma_chars_le_trans(r0[a].0@, r0[j - 1].0@, pair.0@);
            }
        } else if a == j && b > j {
            lemma_chars_le_total(pair.0@, r0[b - 1].0@);
        } else if a < j && b > j {
            assert(r[a] == r0[a]);
            assert(r[b] == r0[b - 1]);
        } else if a > j {
            assert(r[a] == r0[a - 1]);
            assert(r[b] == r0[b - 1]);
        } else {
            assert(r[a] == r0[a]);
            assert(r[b] == r0[b]);
        }
    }
}

proof fn lemma_insert_unique<E>(r0: Seq<(String, E)>, entries: Seq<(String, E)>, i: int, src: Seq<int>, j: int, pair: (String, E))
    requires
        0 <= i < entries.len(),
        unique_keys(entries),
        unique_keys(r0),
        r0.len() == i,
        src.len() == i,
        forall|a: int| 0 <= a < i ==> 0 <= #[trigger] src[a] < i && r0[a].0@ == entries[src[a]].0@,
        0 <= j <= r0.len(),
        pair.0@ == entries[i].0@,
    ensures
        unique_keys(r0.insert(j, pair)),
{
    let r = r0.insert(j, pair);
    assert forall|a: int, b: int| 0 <= a < b < r.len() implies #[trigger] r[a].0@ != #[trigger] r[b].0@ by {
        if a == j || b == j {
            let other = if a == j { b } else { a };
            let o = if other < j { other } else { other - 1 };
            assert(r[other] == r0[o]);
            assert(0 <= src[o] < i);
            assert(entries[src[o]].0@ != entries[i].0@);
        } else {
            let a0 = if a < j { a } else { a - 1 };
            let b0 = if b < j { b } else { b - 1 };
            assert(r[a] == r0[a0]);
            assert(r[b] == r0[b0]);
        }
    }
}

/// The positions of the pairs after one is inserted at `at`.
spec fn shifted(pos: Seq<int>, at: int) -> Seq<int> {
    Seq::new(pos.len() + 1, |k: int| if k == pos.len() { at } else if pos[k] >= at { pos[k] + 1 } else { pos[k] })
}

proof fn lemma_sorted_insert<E>(r0: Seq<(String, E)>, entries: Seq<(String, E)>, i: int, src: Seq<int>, pos: Seq<int>, j: int, pair: (String, E))
    requires
        0 <= i < entries.len(),
        unique_keys(entries),
        sorted_prefix(r0, entries, i, src, pos),
        0 <= j <= r0.len(),
        pair.0@ == entries[i].0@,
        pair.1 == entries[i].1,
        j > 0 ==> chars_le(r0[j - 1].0@, pair.0@),
        forall|a: int| j <= a < r0.len() ==> !chars_le(#[trigger] r0[a].0@, pair.0@),
    ensures
        sorted_prefix(r0.insert(j, pair), entries, i + 1, src.insert(j, i), shifted(pos, j)),
{
    lemma_insert_sorted(r0, j, pair);
    lemma_insert_unique(r0, entries, i, src, j, pair);
    let r = r0.insert(j, pair);
    let s2 = src.insert(j, i);
    let p2 = shifted(pos, j);
    assert forall|a: int| 0 <= a < i + 1 implies 0 <= #[trigger] s2[a] < i + 1 && r[a].0@ == entries[s2[a]].0@
        && r[a].1 == entries[s2[a]].1 by {
        if a < j {
            assert(r[a] == r0[a]);
            assert(s2[a] == src[a]);
        } else if a > j {
            assert(r[a] == r0[a - 1]);
            assert(s2[a] == src[a - 1]);
        }
    }
    assert forall|k: int| 0 <= k < i + 1 implies 0 <= #[trigger] p2[k] < i + 1 && r[p2[k]].0@ == entries[k].0@ by {
        if k < i {
            if pos[k] >= j {
                assert(r[pos[k] + 1] == r0[pos[k]]);
            } else {
                assert(r[pos[k]] == r0[pos[k]]);
            }
        }
    }
}

/// Saved positions by key.
#[derive(Debug)]
pub struct LayoutStore<E> {
    entries: Vec<(String, E)>,
}

impl<E> LayoutStore<E> {
    /// No key is kept twice.
    #[verifier::type_invariant]
    spec fn keys_unique(self) -> bool {
        unique_keys(self.entries@)
    }
}

/// With no key kept twice, the value under each kept key is the one kept
/// with it.
proof fn lemma_lookup_unique<E>(entries: Seq<(String, E)>, j: int)
    requires
        0 <= j < entries.len(),
        forall|a: int, b: int| 0 <= a < b < entries.len() ==> #[trigger] entries[a].0@ != #[trigger] entries[b].0@,
    ensures
        lookup(entries, entries[j].0@) == Some(entries[j].1),
    decreases entries.len(),
{
    if j < entries.len() - 1 {
        let t = entries.drop_last();
        assert forall|a: int, b: int| 0 <= a < b < t.len() implies #[trigger] t[a].0@ != #[trigger] t[b].0@ by {
            assert(t[a] == entries[a]);
            assert(t[b] == entries[b]);
        }
        assert(entries[j].0@ != entries[entries.len() - 1].0@);
        lemma_lookup_unique(t, j);
        assert(t[j] == entries[j]);
    }
}

/// A key is kept exactly when some pair holds it.
proof fn lemma_lookup_some<E>(entries: Seq<(String, E)>, k: Seq<char>)
    ensures
        lookup(entries, k) is Some <==> exists|i: int| 0 <= i < entries.len() && #[trigger] entries[i].0@ == k,
    decreases entries.len(),
{
    if entries.len() > 0 {
        let t = entries.drop_last();
        lemma_lookup_some(t, k);
        if exists|i: int| 0 <= i < entries.len() && #[trigger] entries[i].0@ == k {
            let i = choose|i: int| 0 <= i < entries.len() && #[trigger] entries[i].0@ == k;
            if i < entries.len() - 1 {
                assert(t[i] == entries[i]);
            }
        }
        if exists|i: int| 0 <= i < t.len() && #[trigger] t[i].0@ == k {
            let i = choose|i: int| 0 <= i < t.len() && #[trigger] t[i].0@ == k;
            assert(entries[i] == t[i]);
        }
    }
}

impl<E> View for LayoutStore<E> {
    type V = Map<Seq<char>, E>;

    closed spec fn view(&self) -> Map<Seq<char>, E> {
        Map::new(|k: Seq<char>| lookup(self.entries@, k) is Some, |k: Seq<char>| lookup(self.entries@, k).unwrap())
    }
}

/// The stable id of a node as a value that contracts can speak of.
pub open spec fn id_view(stable_id: Option<&[u8]>) -> Option<Seq<u8>> {
    match stable_id {
        Some(id) => Some(id@),
        None => None,
    }
}

/// What a store answers for a node: the position kept under its stable id
/// if there is one, else the one kept under its path.
pub open spec fn spec_entry_for<E>(m: Map<Seq<char>, E>, stable_id: Option<Seq<u8>>, path: Seq<char>) -> Option<E> {
    let by_path = spec_layout_key(None, path);
    match stable_id {
        Some(id) if m.contains_key(spec_layout_key(Some(id), path)) => Some(m[spec_layout_key(Some(id), path)]),
        _ => if m.contains_key(by_path) { Some(m[by_path]) } else { None },
    }
}

impl<E> Default for LayoutStore<E> {
    /// An empty store.
    fn default() -> (s: Self)
        ensures
            s@ == Map::<Seq<char>, E>::empty(),
    {
        let s = LayoutStore { entries: Vec::new() };
        assert(s@ =~= Map::<Seq<char>, E>::empty());
        s
    }
}

impl<E: Copy> Clone for LayoutStore<E> {
    /// A store with the same positions.
    fn clone(&self) -> (r: Self)
        ensures
            r@ == self@,
    {
        proof {
            use_type_invariant(self);
        }
        let mut entries: Vec<(String, E)> = Vec::new();
        let mut i: usize = 0;
        while i < self.entries.len()
            invariant
                i <= self.entries@.len(),
                entries@.len() == i,
                forall|k: int| 0 <= k < i ==> (#[trigger] entries@[k]).0@ == self.entries@[k].0@
                    && entries@[k].1 == self.entries@[k].1,
            decreases self.entries@.len() - i,
        {
            entries.push((self.entries[i].0.clone(), self.entries[i].1));
            i = i + 1;
        }
        proof {
            assert forall|k: Seq<char>| lookup(entries@, k) == lookup(self.entries@, k) by {
                lemma_lookup_same_keys(entries@, self.entries@, k);
            }
            assert(unique_keys(entries@));
        }
        let r = LayoutStore { entries };
        assert(r@ =~= self@);
        r
    }
}

/// Lists with the same keys and values in the same places look up alike.
proof fn lemma_lookup_same_keys<E>(a: Seq<(String, E)>, b: Seq<(String, E)>, k: Seq<char>)
    requires
        a.len() == b.len(),
        forall|i: int| 0 <= i < a.len() ==> (#[trigger] a[i]).0@ == b[i].0@ && a[i].1 == b[i].1,
    ensures
        lookup(a, k) == lookup(b, k),
    decreases a.len(),
{
    if a.len() > 0 {
        lemma_lookup_same_keys(a.drop_last(), b.drop_last(), k);
        assert(a.last() == a[a.len() - 1]);
        assert(b.last() == b[b.len() - 1]);
    }
}

impl<E: Copy> LayoutStore<E> {
    /// An empty store.
    pub fn new() -> (s: Self)
        ensures
            s@ == Map::<Seq<char>, E>::empty(),
    {
        let s = LayoutStore { entries: Vec::new() };
        assert(s@ =~= Map::<Seq<char>, E>::empty());
        s
    }

    fn find(&self, key: &String) -> (r: Option<E>)
        ensures
            r == lookup(self.entries@, key@),
    {
        let mut i: usize = self.entries.len();
        proof {
            assert(self.entries@.subrange(0, i as int) =~= self.entries@);
        }
        while i > 0
            invariant
                i <= self.entries@.len(),
                lookup(self.entries@, key@) == lookup(self.entries@.subrange(0, i as int), key@),
            decreases i,
        {
            let ghost prefix = self.entries@.subrange(0, i as int);
            proof {
                assert(prefix.drop_last() =~= self.entries@.subrange(0, i - 1));
                assert(prefix.last() == self.entries@[i - 1]);
            }
            if self.entries[i - 1].0 == *key {
                return Some(self.entries[i - 1].1);
            }
            i = i - 1;
        }
        None
    }

    /// The position saved for a node; see `spec_entry_for`.
    pub fn entry_for(&self, stable_id: Option<&[u8]>, path: &str) -> (r: Option<E>)
        ensures
            r == spec_entry_for(self@, id_view(stable_id), path@),
    {
        match stable_id {
            Some(id) => {
                let key = layout_key(Some(id), path);
                let found = self.find(&key);
                if found.is_some() {
                    return found;
                }
            },
            None => {},
        }
        let key = layout_key(None, path);
        self.find(&key)
    }

    /// Drops whatever is kept under `key`.
    fn remove_key(&mut self, key: &String)
        ensures
            final(self)@ == old(self)@.remove(key@),
    {
        proof {
            use_type_invariant(&*self);
        }
        let mut kept: Vec<(String, E)> = Vec::new();
        let mut i: usize = 0;
        while i < self.entries.len()
            invariant
                i <= self.entries@.len(),
                forall|a: int, b: int| 0 <= a < b < self.entries@.len() ==> #[trigger] self.entries@[a].0@ != #[trigger] self.entries@[b].0@,
                forall|k: Seq<char>| #[trigger] lookup(kept@, k)
                    == if k == key@ { None } else { lookup(self.entries@.subrange(0, i as int), k) },
                forall|a: int| 0 <= a < kept@.len() ==> exists|j: int| 0 <= j < i && #[trigger] self.entries@[j].0@ == (#[trigger] kept@[a]).0@,
                forall|a: int, b: int| 0 <= a < b < kept@.len() ==> #[trigger] kept@[a].0@ != #[trigger] kept@[b].0@,
            decreases self.entries@.len() - i,
        {
            let ghost before = kept@;
            let ghost seen = self.entries@.subrange(0, i as int);
            let ghost item = self.entries@[i as int];
            proof {
                assert(self.entries@.subrange(0, (i + 1) as int) =~= seen.push(item));
            }
            if !(self.entries[i].0 == *key) {
                let pair = (self.entries[i].0.clone(), self.entries[i].1);
                kept.push(pair);
                proof {
                    assert forall|a: int| 0 <= a < kept@.len() implies exists|j: int| 0 <= j < i + 1 && #[trigger] self.entries@[j].0@ == (#[trigger] kept@[a]).0@ by {
                        if a < before.len() {
                            assert(kept@[a] == before[a]);
                        } else {
                            assert(self.entries@[i as int].0@ == kept@[a].0@);
                        }
                    }
                    assert forall|a: int, b: int| 0 <= a < b < kept@.len() implies #[trigger] kept@[a].0@ != #[trigger] kept@[b].0@ by {
                        assert(kept@[a] == before[a] || a == before.len());
                        if b == before.len() {
                            assert(kept@[a] == before[a]);
                            let j = choose|j: int| 0 <= j < i && #[trigger] self.entries@[j].0@ == before[a].0@;
                            assert(self.entries@[j].0@ != self.entries@[i as int].0@);
                        } else {
                            assert(kept@[a] == before[a]);
                            assert(kept@[b] == before[b]);
                        }
                    }
                    assert forall|k: Seq<char>| #[trigger] lookup(kept@, k)
                        == if k == key@ { None } else { lookup(seen.push(item), k) } by {
                        lemma_lookup_push(before, pair, k);
                        lemma_lookup_push(seen, item, k);
                    }
                }
            } else {
                proof {
                    assert forall|k: Seq<char>| #[trigger] lookup(kept@, k)
                        == if k == key@ { None } else { lookup(seen.push(item), k) } by {
                        lemma_lookup_push(seen, item, k);
                    }
                    assert forall|a: int| 0 <= a < kept@.len() implies exists|j: int| 0 <= j < i + 1 && #[trigger] self.entries@[j].0@ == (#[trigger] kept@[a]).0@ by {
                        let j = choose|j: int| 0 <= j < i && #[trigger] self.entries@[j].0@ == kept@[a].0@;
                    }
                }
            }
            i = i + 1;
        }
        proof {
            assert(self.entries@.subrange(0, self.entries@.len() as int) =~= self.entries@);
        }
        let ghost pre = self@;
        self.entries = kept;
        proof {
            assert(self@ =~= pre.remove(key@));
        }
    }

    /// Keeps `entry` as the position of a node, under `layout_key`.
    pub fn set(&mut self, stable_id: Option<&[u8]>, path: &str, entry: E)
        ensures
            final(self)@ == old(self)@.insert(spec_layout_key(id_view(stable_id), path@), entry),
    {
        let key = layout_key(stable_id, path);
        self.remove_key(&key);
        proof {
            use_type_invariant(&*self);
            lemma_lookup_some(self.entries@, key@);
            assert(!self@.contains_key(key@));
        }
        let ghost pre = self@;
        let ghost before = self.entries@;
        let mut entries: Vec<(String, E)> = Vec::new();
        std::mem::swap(&mut entries, &mut self.entries);
        entries.push((key, entry));
        self.entries = entries;
        proof {
            assert(self.entries@.drop_last() =~= before);
            assert(self@ =~= pre.insert(spec_layout_key(id_view(stable_id), path@), entry));
        }
    }

    /// Keeps `entry` under a key read from a layout file, in its used form.
    pub fn insert_stored(&mut self, key: &str, entry: E)
        ensures
            final(self)@ == old(self)@.insert(spec_normalize_key(key@), entry),
    {
        let stored = normalize_key(key);
        self.remove_key(&stored);
        proof {
            use_type_invariant(&*self);
            lemma_lookup_some(self.entries@, stored@);
            assert(!self@.contains_key(stored@));
        }
        let ghost pre = self@;
        let ghost before = self.entries@;
        let mut entries: Vec<(String, E)> = Vec::new();
        std::mem::swap(&mut entries, &mut self.entries);
        entries.push((stored, entry));
        self.entries = entries;
        proof {
            assert(self.entries@.drop_last() =~= before);
            assert(self@ =~= pre.insert(spec_normalize_key(key@), entry));
        }
    }

    /// Forgets a node's position; with a stable id, the one kept under its
    /// path goes too.
    pub fn remove(&mut self, stable_id: Option<&[u8]>, path: &str)
        ensures
            final(self)@ == match stable_id {
                Some(id) => old(self)@.remove(spec_layout_key(Some(id@), path@)).remove(spec_layout_key(None, path@)),
                None => old(self)@.remove(spec_layout_key(None, path@)),
            },
    {
        let key = layout_key(stable_id, path);
        self.remove_key(&key);
        if stable_id.is_some() {
            let by_path = layout_key(None, path);
            self.remove_key(&by_path);
        }
    }

    /// Every kept position with its key, ordered by key (as strings
    /// compare), each key once: the order in which a layout file lists them.
    pub fn sorted_entries(&self) -> (r: Vec<(String, E)>)
        ensures
            forall|i: int, j: int| 0 <= i < j < r@.len() ==> chars_le(#[trigger] r@[i].0@, #[trigger] r@[j].0@)
                && r@[i].0@ != r@[j].0@,
            forall|i: int| 0 <= i < r@.len() ==> self@.contains_key((#[trigger] r@[i]).0@) && self@[r@[i].0@] == r@[i].1,
            forall|k: Seq<char>| #[trigger] self@.contains_key(k) ==> exists|i: int| 0 <= i < r@.len() && #[trigger] r@[i].0@ == k,
    {
        proof {
            use_type_invariant(self);
        }
        let mut r: Vec<(String, E)> = Vec::new();
        let mut keys: Vec<Vec<char>> = Vec::new();
        let ghost mut src: Seq<int> = Seq::empty();
        let ghost mut pos: Seq<int> = Seq::empty();
        let mut i: usize = 0;
        while i < self.entries.len()
            invariant
                i <= self.entries@.len(),
                unique_keys(self.entries@),
                keys@.len() == r@.len(),
                forall|a: int| 0 <= a < keys@.len() ==> #[trigger] keys@[a]@ == r@[a].0@,
                sorted_prefix(r@, self.entries@, i as int, src, pos),
            decreases self.entries@.len() - i,
        {
            let key = chars_of(self.entries[i].0.as_str());
            let mut j: usize = r.len();
            while j > 0 && !chars_less_eq(&keys[j - 1], &key)
                invariant
                    j <= r@.len(),
                    keys@.len() == r@.len(),
                    forall|a: int| 0 <= a < keys@.len() ==> #[trigger] keys@[a]@ == r@[a].0@,
                    key@ == self.entries@[i as int].0@,
                    forall|a: int| j <= a < r@.len() ==> !chars_le(#[trigger] r@[a].0@, key@),
                decreases j,
            {
                j = j - 1;
            }
            proof {
                if j > 0 {
                    assert(keys@[j - 1]@ == r@[j - 1].0@);
                }
            }
            let ghost r0 = r@;
            let ghost keys0 = keys@;
            let pair = (self.entries[i].0.clone(), self.entries[i].1);
            r.insert(j, pair);
            keys.insert(j, key);
            proof {
                lemma_sorted_insert(r0, self.entries@, i as int, src, pos, j as int, pair);
                src = src.insert(j as int, i as int);
                pos = shifted(pos, j as int);
                assert forall|a: int| 0 <= a < keys@.len() implies #[trigger] keys@[a]@ == r@[a].0@ by {
                    if a < j {
                        assert(keys@[a] == keys0[a]);
                    } else if a > j {
                        assert(keys@[a] == keys0[a - 1]);
                    }
                }
            }
            i = i + 1;
        }
        proof {
            assert forall|a: int| 0 <= a < r@.len() implies self@.contains_key((#[trigger] r@[a]).0@) && self@[r@[a].0@] == r@[a].1 by {
                lemma_lookup_unique(self.entries@, src[a]);
            }
            assert forall|k: Seq<char>| #[trigger] self@.contains_key(k) implies exists|a: int| 0 <= a < r@.len() && #[trigger] r@[a].0@ == k by {
                lemma_lookup_some(self.entries@, k);
                let jj = choose|jj: int| 0 <= jj < self.entries@.len() && #[trigger] self.entries@[jj].0@ == k;
                assert(r@[pos[jj]].0@ == k);
            }
        }
        r
    }

    /// Forgets every position.
    pub fn remove_all(&mut self)
        ensures
            final(self)@ == Map::<Seq<char>, E>::empty(),
    {
        self.entries = Vec::new();
        assert(self@ =~= Map::<Seq<char>, E>::empty());
    }
}

} // verus!

verus! {

/// A position saved for a node with a stable id is found again by that id,
/// whatever path the node has by then (a renamed file keeps its place).
pub proof fn law_saved_by_id_survives_rename<E>(m: Map<Seq<char>, E>, id: Seq<u8>, path: Seq<char>, renamed: Seq<char>, entry: E)
    ensures
        spec_entry_for(m.insert(spec_layout_key(Some(id), path), entry), Some(id), renamed) == Some(entry),
{
}

/// A position saved for a node without a stable id is found again by its
/// path, written with either kind of slash.
pub proof fn law_saved_by_path_is_found<E>(m: Map<Seq<char>, E>, path: Seq<char>, same: Seq<char>, entry: E)
    requires
        spec_normalize_key(same) == spec_normalize_key(path),
    ensures
        spec_entry_for(m.insert(spec_layout_key(None, path), entry), None, same) == Some(entry),
{
}

/// Where positions are kept both under a node's stable id and under its
/// path, the one under the stable id wins.
pub proof fn law_stable_id_takes_priority<E>(m: Map<Seq<char>, E>, id: Seq<u8>, path: Seq<char>)
    requires
        m.contains_key(spec_layout_key(Some(id), path)),
    ensures
        spec_entry_for(m, Some(id), path) == Some(m[spec_layout_key(Some(id), path)]),
{
}

/// Without a position under its stable id, a node falls back to the one
/// kept under its path.
pub proof fn law_path_fallback<E>(m: Map<Seq<char>, E>, id: Option<Seq<u8>>, path: Seq<char>)
    requires
        match id {
            Some(i) => !m.contains_key(spec_layout_key(Some(i), path)),
            None => true,
        },
    ensures
        spec_entry_for(m, id, path) == (if m.contains_key(spec_layout_key(None, path)) {
            Some(m[spec_layout_key(None, path)])
        } else {
            None
        }),
{
}

/// After a node is removed, the store has no position for it.
pub proof fn law_removed_is_gone<E>(m: Map<Seq<char>, E>, id: Option<Seq<u8>>, path: Seq<char>)
    ensures
        spec_entry_for(
            match id {
                Some(i) => m.remove(spec_layout_key(Some(i), path)).remove(spec_layout_key(None, path)),
                None => m.remove(spec_layout_key(None, path)),
            },
            id,
            path,
        ) is None,
{
}

/// A key made from a stable id depends on the id alone.
pub proof fn law_id_key_ignores_path(id: Seq<u8>, path: Seq<char>, other: Seq<char>)
    ensures
        spec_layout_key(Some(id), path) == spec_layout_key(Some(id), other),
{
}

} // verus!
