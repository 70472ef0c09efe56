//! The structure of the project map drawn from an index: which node sits
//! under which, the order nodes are laid out in, which directories get a
//! frame, which links are routed, and the texts shown. Coordinates and
//! pixels are left to the caller.

use vstd::prelude::*;
use crate::models::NodeKind;
use crate::storage::StoredNode;
use crate::text::{
    chars_equal, chars_le, chars_less_eq, chars_of, decimal_string, forward_slash_chars, forward_slashes,
    digit_char, lemma_chars_le_total, lemma_chars_le_trans, push_str, spec_decimal, string_from_chars,
};

verus! {

/// `s` without the slashes at its end.
pub open spec fn trim_trailing_slashes(s: Seq<char>) -> Seq<char>
    decreases s.len(),
{
    if s.len() > 0 && s.last() == '/' {
        trim_trailing_slashes(s.drop_last())
    } else {
        s
    }
}

/// The form in which display paths are compared: forward slashes, no
/// slash at the end.
pub open spec fn spec_normalize_display(path: Seq<char>) -> Seq<char> {
    trim_trailing_slashes(forward_slashes(path))
}

/// A display path in the form in which paths are compared.
pub fn normalize_display_path(path: &str) -> (s: String)
    ensures
        s@ == spec_normalize_display(path@),
{
    let chars = forward_slash_chars(path);
    let mut n: usize = chars.len();
    proof {
        assert(chars@.subrange(0, n as int) =~= chars@);
    }
    while n > 0 && chars[n - 1] == '/'
        invariant
            n <= chars@.len(),
            trim_trailing_slashes(chars@) == trim_trailing_slashes(chars@.subrange(0, n as int)),
        decreases n,
    {
        proof {
            assert(chars@.subrange(0, n as int).drop_last() =~= chars@.subrange(0, n - 1));
        }
        n = n - 1;
    }
    let mut kept: Vec<char> = Vec::new();
    let mut i: usize = 0;
    while i < n
        invariant
            n <= chars@.len(),
            i <= n,
            kept@ == chars@.subrange(0, i as int),
        decreases n - i,
    {
        kept.push(chars[i]);
        proof {
            assert(chars@.subrange(0, (i + 1) as int) =~= chars@.subrange(0, i as int).push(chars@[i as int]));
        }
        i = i + 1;
    }
    string_from_chars(&kept)
}

/// The position of the last slash of `s`.
pub open spec fn last_slash(s: Seq<char>) -> Option<int>
    decreases s.len(),
{
    if s.len() == 0 {
        None
    } else if s.last() == '/' {
        Some(s.len() - 1)
    } else {
        last_slash(s.drop_last())
    }
}

/// The display path of the directory holding `path`: the compared form of
/// `path` up to its last slash, if it has one.
pub open spec fn spec_parent_display(path: Seq<char>) -> Option<Seq<char>> {
    let n = spec_normalize_display(path);
    match last_slash(n) {
        Some(i) => Some(n.subrange(0, i)),
        None => None,
    }
}

proof fn lemma_last_slash(s: Seq<char>)
    ensures
        match last_slash(s) {
            Some(i) => 0 <= i < s.len() && s[i] == '/' && forall|j: int| i < j < s.len() ==> s[j] != '/',
            None => forall|j: int| 0 <= j < s.len() ==> s[j] != '/',
        },
    decreases s.len(),
{
    if s.len() > 0 && s.last() != '/' {
        lemma_last_slash(s.drop_last());
        assert forall|j: int| 0 <= j < s.len() - 1 implies s[j] == s.drop_last()[j] by {}
    }
}

/// The display path of the directory holding `path`; see
/// `spec_parent_display`.
pub fn parent_display_path(path: &str) -> (p: Option<String>)
    ensures
        match p {
            Some(s) => spec_parent_display(path@) == Some(s@),
            None => spec_parent_display(path@) is None,
        },
{
    let normalized = normalize_display_path(path);
    let chars = chars_of(normalized.as_str());
    let mut i: usize = chars.len();
    proof {
        assert(chars@.subrange(0, i as int) =~= chars@);
    }
    while i > 0 && chars[i - 1] != '/'
        invariant
            i <= chars@.len(),
            last_slash(chars@) == last_slash(chars@.subrange(0, i as int)),
        decreases i,
    {
        proof {
            assert(chars@.subrange(0, i as int).drop_last() =~= chars@.subrange(0, i - 1));
        }
        i = i - 1;
    }
    if i == 0 {
        return None;
    }
    proof {
        assert(chars@.subrange(0, i as int).last() == '/');
    }
    let mut parent: Vec<char> = Vec::new();
    let mut k: usize = 0;
    while k < i - 1
        invariant
            0 < i <= chars@.len(),
            k <= i - 1,
            parent@ == chars@.subrange(0, k as int),
        decreases i - 1 - k,
    {
        parent.push(chars[k]);
        proof {
            assert(chars@.subrange(0, (k + 1) as int) =~= chars@.subrange(0, k as int).push(chars@[k as int]));
        }
        k = k + 1;
    }
    Some(string_from_chars(&parent))
}

/// A label of at most `maximum` characters of `name`, with `...` after it
/// where `name` is longer.
pub open spec fn spec_short_label(name: Seq<char>, maximum: nat) -> Seq<char> {
    if name.len() > maximum {
        name.take(maximum as int) + "..."@
    } else {
        name
    }
}

/// A label of at most `maximum` characters; see `spec_short_label`.
pub fn short_label(name: &str, maximum: usize) -> (s: String)
    ensures
        s@ == spec_short_label(name@, maximum as nat),
{
    let chars = chars_of(name);
    if chars.len() <= maximum {
        return String::from_str(name);
    }
    let mut head: Vec<char> = Vec::new();
    let mut i: usize = 0;
    while i < maximum
        invariant
            maximum < chars@.len(),
            i <= maximum,
            head@ == chars@.take(i as int),
        decreases maximum - i,
    {
        head.push(chars[i]);
        proof {
            assert(chars@.take((i + 1) as int) =~= chars@.take(i as int).push(chars@[i as int]));
        }
        i = i + 1;
    }
    let mut s = string_from_chars(&head);
    push_str(&mut s, "...");
    s
}

/// Digits with a comma before each group of three counted from the right.
pub open spec fn group_thousands(digits: Seq<char>) -> Seq<char>
    decreases digits.len(),
{
    if digits.len() <= 3 {
        digits
    } else {
        group_thousands(digits.take(digits.len() - 3)) + seq![','] + digits.skip(digits.len() - 3)
    }
}

/// `value` in decimal with thousands separated by commas.
pub open spec fn spec_format_number(value: nat) -> Seq<char> {
    group_thousands(spec_decimal(value))
}

/// `value` in decimal with thousands separated by commas.
pub fn format_number(value: usize) -> (s: String)
    ensures
        s@ == spec_format_number(value as nat),
{
    let text = decimal_string(value as u128);
    let digits = chars_of(text.as_str());
    let len = digits.len();
    let mut first = len % 3;
    if first == 0 {
        first = 3;
    }
    if first > len {
        first = len;
    }
    let mut out: Vec<char> = Vec::new();
    let mut i: usize = 0;
    while i < first
        invariant
            first <= len,
            len == digits@.len(),
            i <= first,
            out@ == digits@.take(i as int),
        decreases first - i,
    {
        out.push(digits[i]);
        proof {
            assert(digits@.take((i + 1) as int) =~= digits@.take(i as int).push(digits@[i as int]));
        }
        i = i + 1;
    }
    proof {
        assert(digits@.take(first as int).len() <= 3);
    }
    while i < len
        invariant
            len == digits@.len(),
            first <= i <= len,
            first >= 1 || len == 0,
            (len - i) % 3 == 0,
            out@ == group_thousands(digits@.take(i as int)),
        decreases len - i,
    {
        let ghost before = out@;
        out.push(',');
        out.push(digits[i]);
        out.push(digits[i + 1]);
        out.push(digits[i + 2]);
        proof {
            let t = digits@.take((i + 3) as int);
            assert(t.take(i as int) =~= digits@.take(i as int));
            assert(t.skip(i as int) =~= seq![digits@[i as int], digits@[i + 1], digits@[i + 2]]);
            assert(out@ =~= before + seq![','] + t.skip(i as int));
        }
        i = i + 3;
    }
    proof {
        assert(digits@.take(len as int) =~= digits@);
    }
    string_from_chars(&out)
}

/// Grouping digits, none of them a comma, puts a comma at every fourth
/// place counted from the right and at no other place, and takes nothing
/// else away or in.
proof fn lemma_group_thousands(d: Seq<char>)
    requires
        forall|i: int| 0 <= i < d.len() ==> #[trigger] d[i] != ',',
    ensures
        group_thousands(d).filter(|c: char| c != ',') == d,
        forall|i: int| 0 <= i < group_thousands(d).len()
            ==> ((#[trigger] group_thousands(d)[i] == ',') == ((group_thousands(d).len() - 1 - i) % 4 == 3)),
    decreases d.len(),
{
    let nc = |c: char| c != ',';
    let g = group_thousands(d);
    if d.len() <= 3 {
        lemma_filter_all(d, nc);
    } else {
        let head = d.take(d.len() - 3);
        let tail = d.skip(d.len() - 3);
        assert forall|i: int| 0 <= i < head.len() implies #[trigger] head[i] != ',' by {
            assert(head[i] == d[i]);
        }
        assert forall|i: int| 0 <= i < tail.len() implies #[trigger] tail[i] != ',' by {
            assert(tail[i] == d[i + d.len() - 3]);
        }
        lemma_group_thousands(head);
        let p = group_thousands(head);
        assert(g == p + seq![','] + tail);
        assert forall|i: int| 0 <= i < g.len() implies ((#[trigger] g[i] == ',') == ((g.len() - 1 - i) % 4 == 3)) by {
            if i < p.len() {
                assert(g[i] == p[i]);
                assert((g.len() - 1 - i) % 4 == (p.len() - 1 - i) % 4);
            } else if i == p.len() {
                assert(g[i] == ',');
            } else {
                assert(g[i] == tail[i - p.len() - 1]);
            }
        }
        Seq::filter_distributes_over_add(p + seq![','], tail, nc);
        Seq::filter_distributes_over_add(p, seq![','], nc);
        lemma_filter_all(tail, nc);
        assert(seq![','].filter(nc) =~= Seq::<char>::empty()) by {
            reveal_with_fuel(Seq::filter, 2);
            assert(seq![','].drop_last() =~= Seq::<char>::empty());
        }
        assert(head + tail =~= d);
    }
}

/// A decimal rendering is made of the digits `0` to `9`.
proof fn lemma_decimal_digits(n: nat)
    ensures
        forall|i: int| 0 <= i < spec_decimal(n).len() ==> '0' <= #[trigger] spec_decimal(n)[i] <= '9',
        spec_decimal(n).len() >= 1,
        n < 1000 ==> spec_decimal(n).len() <= 3,
    decreases n,
{
    if n >= 10 {
        lemma_decimal_digits(n / 10);
        let prev = spec_decimal(n / 10);
        assert(spec_decimal(n) == prev.push(digit_char(n % 10)));
        assert forall|i: int| 0 <= i < spec_decimal(n).len() implies '0' <= #[trigger] spec_decimal(n)[i] <= '9' by {
            if i < prev.len() {
                assert(spec_decimal(n)[i] == prev[i]);
            }
        }
        if n < 1000 {
            assert(n / 10 < 100);
            if n / 10 >= 10 {
                assert(n / 10 / 10 < 10);
                assert(spec_decimal(n / 10) == spec_decimal(n / 10 / 10).push(digit_char(n / 10 % 10)));
            }
        }
    }
}

/// Thousands separators: the text of a number with its commas taken out is
/// its plain decimal rendering; a comma stands exactly at every fourth place
/// counted from the right (three digits, then a comma); and a number below a
/// thousand has none.
pub proof fn law_format_number_groups_by_three(value: nat)
    ensures
        spec_format_number(value).filter(|c: char| c != ',') == spec_decimal(value),
        forall|i: int| 0 <= i < spec_format_number(value).len()
            ==> ((#[trigger] spec_format_number(value)[i] == ',') == ((spec_format_number(value).len() - 1 - i) % 4 == 3)),
        value < 1000 ==> spec_format_number(value) == spec_decimal(value),
{
    lemma_decimal_digits(value);
    assert forall|i: int| 0 <= i < spec_decimal(value).len() implies #[trigger] spec_decimal(value)[i] != ',' by {
        assert('0' <= spec_decimal(value)[i]);
    }
    lemma_group_thousands(spec_decimal(value));
}

} // verus!

verus! {

/// Nodes are laid out by depth, then by display path.
pub open spec fn node_before(a: StoredNode, b: StoredNode) -> bool {
    a.depth < b.depth || (a.depth == b.depth && chars_le(a.display_path@, b.display_path@))
}

/// `x` placed after the last position of the ordered `s` whose node does
/// not come after node `x`.
pub open spec fn insert_node(s: Seq<usize>, x: usize, nodes: Seq<StoredNode>) -> Seq<usize>
    decreases s.len(),
{
    if s.len() == 0 {
        seq![x]
    } else if node_before(nodes[s.last() as int], nodes[x as int]) {
        s.push(x)
    } else {
        insert_node(s.drop_last(), x, nodes).push(s.last())
    }
}

/// The first `n` nodes in layout order, as positions in `nodes`: ordered
/// by `node_before`, nodes that tie in their input order.
pub open spec fn spec_scene_order(nodes: Seq<StoredNode>, n: nat) -> Seq<usize>
    decreases n,
{
    if n == 0 {
        Seq::empty()
    } else {
        insert_node(spec_scene_order(nodes, (n - 1) as nat), (n - 1) as usize, nodes)
    }
}

proof fn lemma_insert_node_at(s: Seq<usize>, x: usize, nodes: Seq<StoredNode>, j: int)
    requires
        0 <= j <= s.len(),
        j > 0 ==> node_before(nodes[s[j - 1] as int], nodes[x as int]),
        forall|k: int| j <= k < s.len() ==> !node_before(nodes[#[trigger] s[k] as int], nodes[x as int]),
    ensures
        insert_node(s, x, nodes) == s.insert(j, x),
    decreases s.len(),
{
    if s.len() == 0 {
        assert(s.insert(j, x) =~= seq![x]);
    } else if j == s.len() {
        assert(s.insert(j, x) =~= s.push(x));
    } else {
        assert(!node_before(nodes[s[s.len() - 1] as int], nodes[x as int]));
        let t = s.drop_last();
        assert forall|k: int| j <= k < t.len() implies !node_before(nodes[#[trigger] t[k] as int], nodes[x as int]) by {
            assert(t[k] == s[k]);
        }
        lemma_insert_node_at(t, x, nodes, j);
        assert(s.insert(j, x) =~= t.insert(j, x).push(s.last()));
    }
}

proof fn lemma_insert_node_len(s: Seq<usize>, x: usize, nodes: Seq<StoredNode>)
    ensures
        insert_node(s, x, nodes).len() == s.len() + 1,
        forall|k: int| 0 <= k < insert_node(s, x, nodes).len() ==> (#[trigger] insert_node(s, x, nodes)[k] == x
            || s.contains(insert_node(s, x, nodes)[k])),
    decreases s.len(),
{
    if s.len() > 0 && !node_before(nodes[s.last() as int], nodes[x as int]) {
        lemma_insert_node_len(s.drop_last(), x, nodes);
        let r = insert_node(s.drop_last(), x, nodes);
        assert forall|k: int| 0 <= k < insert_node(s, x, nodes).len() implies (#[trigger] insert_node(s, x, nodes)[k] == x
            || s.contains(insert_node(s, x, nodes)[k])) by {
            if k < r.len() {
                if r[k] != x {
                    let w = choose|w: int| 0 <= w < s.drop_last().len() && s.drop_last()[w] == r[k];
                    assert(s[w] == r[k]);
                }
            } else {
                assert(s[s.len() - 1] == insert_node(s, x, nodes)[k]);
            }
        }
    } else if s.len() > 0 {
        assert forall|k: int| 0 <= k < insert_node(s, x, nodes).len() implies (#[trigger] insert_node(s, x, nodes)[k] == x
            || s.contains(insert_node(s, x, nodes)[k])) by {
            if k < s.len() {
                assert(s[k] == insert_node(s, x, nodes)[k]);
            }
        }
    }
}

proof fn lemma_scene_order_bounds(nodes: Seq<StoredNode>, n: nat)
    ensures
        spec_scene_order(nodes, n).len() == n,
        forall|k: int| 0 <= k < n ==> #[trigger] spec_scene_order(nodes, n)[k] < n,
    decreases n,
{
    if n > 0 {
        let prev = spec_scene_order(nodes, (n - 1) as nat);
        lemma_scene_order_bounds(nodes, (n - 1) as nat);
        lemma_insert_node_len(prev, (n - 1) as usize, nodes);
        assert forall|k: int| 0 <= k < n implies #[trigger] spec_scene_order(nodes, n)[k] < n by {
            let r = spec_scene_order(nodes, n);
            if r[k] != (n - 1) as usize {
                let w = choose|w: int| 0 <= w < prev.len() && prev[w] == r[k];
                assert(prev[w] < n - 1);
            }
        }
    }
}

/// Whether node `a` comes no later than node `b` in the layout.
fn node_before_exec(a: &StoredNode, a_path: &Vec<char>, b: &StoredNode, b_path: &Vec<char>) -> (r: bool)
    requires
        a_path@ == a.display_path@,
        b_path@ == b.display_path@,
    ensures
        r == node_before(*a, *b),
{
    a.depth < b.depth || (a.depth == b.depth && chars_less_eq(a_path, b_path))
}

/// The nodes in layout order, as positions in `nodes`; see
/// `spec_scene_order`.
pub fn scene_order(nodes: &Vec<StoredNode>) -> (order: Vec<usize>)
    ensures
        order@ == spec_scene_order(nodes@, nodes@.len()),
        order@.len() == nodes@.len(),
        forall|k: int| 0 <= k < order@.len() ==> #[trigger] order@[k] < nodes@.len(),
{
    let mut paths: Vec<Vec<char>> = Vec::new();
    let mut i: usize = 0;
    while i < nodes.len()
        invariant
            i <= nodes@.len(),
            paths@.len() == i,
            forall|k: int| 0 <= k < i ==> #[trigger] paths@[k]@ == nodes@[k].display_path@,
        decreases nodes@.len() - i,
    {
        paths.push(chars_of(nodes[i].display_path.as_str()));
        i = i + 1;
    }
    let mut order: Vec<usize> = Vec::new();
    let mut i: usize = 0;
    while i < nodes.len()
        invariant
            i <= nodes@.len(),
            paths@.len() == nodes@.len(),
            forall|k: int| 0 <= k < nodes@.len() ==> #[trigger] paths@[k]@ == nodes@[k].display_path@,
            order@ == spec_scene_order(nodes@, i as nat),
            order@.len() == i,
            forall|k: int| 0 <= k < i ==> #[trigger] order@[k] < i,
        decreases nodes@.len() - i,
    {
        proof {
            lemma_scene_order_bounds(nodes@, i as nat);
            lemma_scene_order_bounds(nodes@, (i + 1) as nat);
        }
        let mut j: usize = order.len();
        while j > 0 && !node_before_exec(&nodes[order[j - 1]], &paths[order[j - 1]], &nodes[i], &paths[i])
            invariant
                j <= order@.len(),
                i < nodes@.len(),
                order@.len() == i,
                paths@.len() == nodes@.len(),
                forall|k: int| 0 <= k < nodes@.len() ==> #[trigger] paths@[k]@ == nodes@[k].display_path@,
                forall|k: int| 0 <= k < i ==> #[trigger] order@[k] < i,
                forall|k: int| j <= k < order@.len() ==> !node_before(nodes@[#[trigger] order@[k] as int], nodes@[i as int]),
            decreases j,
        {
            j = j - 1;
        }
        proof {
            lemma_insert_node_at(order@, i, nodes@, j as int);
        }
        order.insert(j, i);
        i = i + 1;
    }
    proof {
        lemma_scene_order_bounds(nodes@, nodes@.len());
    }
    order
}

} // verus!

verus! {

proof fn lemma_trim_len(s: Seq<char>)
    ensures
        trim_trailing_slashes(s).len() <= s.len(),
    decreases s.len(),
{
    if s.len() > 0 && s.last() == '/' {
        lemma_trim_len(s.drop_last());
    }
}

/// The directory of a path is shorter than the path.
pub proof fn lemma_parent_display_shorter(path: Seq<char>)
    ensures
        match spec_parent_display(path) {
            Some(q) => q.len() < path.len(),
            None => true,
        },
{
    lemma_trim_len(forward_slashes(path));
    lemma_last_slash(spec_normalize_display(path));
}

/// The last position of `paths` holding `q`.
pub open spec fn last_index(paths: Seq<Seq<char>>, q: Seq<char>) -> Option<int>
    decreases paths.len(),
{
    if paths.len() == 0 {
        None
    } else if paths.last() == q {
        Some(paths.len() - 1)
    } else {
        last_index(paths.drop_last(), q)
    }
}

/// The position of the nearest directory above `path` that is among
/// `paths` (the last one where a path occurs twice), walking up one
/// directory at a time.
pub open spec fn spec_ancestor(paths: Seq<Seq<char>>, path: Seq<char>) -> Option<int>
    decreases path.len(),
{
    match spec_parent_display(path) {
        None => None,
        Some(q) => {
            proof {
                lemma_parent_display_shorter(path);
            }
            match last_index(paths, q) {
                Some(j) => Some(j),
                None => spec_ancestor(paths, q),
            }
        },
    }
}

proof fn lemma_last_index_bound(paths: Seq<Seq<char>>, q: Seq<char>)
    ensures
        match last_index(paths, q) {
            Some(j) => 0 <= j < paths.len() && paths[j] == q,
            None => true,
        },
    decreases paths.len(),
{
    if paths.len() > 0 && paths.last() != q {
        lemma_last_index_bound(paths.drop_last(), q);
    }
}

/// The directory found above a path is one of `paths`.
pub proof fn lemma_ancestor_bound(paths: Seq<Seq<char>>, path: Seq<char>)
    ensures
        match spec_ancestor(paths, path) {
            Some(j) => 0 <= j < paths.len(),
            None => true,
        },
    decreases path.len(),
{
    match spec_parent_display(path) {
        None => {},
        Some(q) => {
            lemma_parent_display_shorter(path);
            lemma_last_index_bound(paths, q);
            lemma_ancestor_bound(paths, q);
        },
    }
}

/// The compared forms of the nodes' display paths, in layout order.
pub open spec fn layout_paths(nodes: Seq<StoredNode>, order: Seq<usize>) -> Seq<Seq<char>> {
    order.map_values(|i: usize| spec_normalize_display(nodes[i as int].display_path@))
}

/// The positions, in layout order, whose parent is position `p`, among the
/// first `upto`.
pub open spec fn spec_children(parents: Seq<Option<usize>>, p: int, upto: int) -> Seq<usize>
    decreases upto,
{
    if upto <= 0 {
        Seq::empty()
    } else if parents[upto - 1] == Some(p as usize) {
        spec_children(parents, p, upto - 1).push((upto - 1) as usize)
    } else {
        spec_children(parents, p, upto - 1)
    }
}

/// A hash of a character sequence, used to skip most comparisons of paths.
pub open spec fn spec_chars_hash(s: Seq<char>) -> u64
    decreases s.len(),
{
    if s.len() == 0 {
        0
    } else {
        spec_chars_hash(s.drop_last()).wrapping_mul(31).wrapping_add((s.last() as u32) as u64)
    }
}

fn chars_hash(s: &Vec<char>) -> (h: u64)
    ensures
        h == spec_chars_hash(s@),
{
    let mut h: u64 = 0;
    let mut i: usize = 0;
    while i < s.len()
        invariant
            i <= s@.len(),
            h == spec_chars_hash(s@.subrange(0, i as int)),
        decreases s@.len() - i,
    {
        proof {
            let next = s@.subrange(0, (i + 1) as int);
            assert(next.drop_last() =~= s@.subrange(0, i as int));
            assert(next.last() == s@[i as int]);
        }
        h = h.wrapping_mul(31).wrapping_add((s[i] as u32) as u64);
        i = i + 1;
    }
    proof {
        assert(s@.subrange(0, s@.len() as int) =~= s@);
    }
    h
}

/// The character sequences of `v`.
pub open spec fn char_seqs(v: Seq<Vec<char>>) -> Seq<Seq<char>> {
    v.map_values(|c: Vec<char>| c@)
}

fn lookup_path(paths: &Vec<Vec<char>>, hashes: &Vec<u64>, q: &Vec<char>) -> (r: Option<usize>)
    requires
        hashes@.len() == paths@.len(),
        forall|k: int| 0 <= k < paths@.len() ==> #[trigger] hashes@[k] == spec_chars_hash(paths@[k]@),
    ensures
        match r {
            Some(j) => last_index(char_seqs(paths@), q@) == Some(j as int),
            None => last_index(char_seqs(paths@), q@) is None,
        },
{
    let h = chars_hash(q);
    let mut j: usize = paths.len();
    proof {
        assert(char_seqs(paths@).subrange(0, j as int) =~= char_seqs(paths@));
    }
    while j > 0
        invariant
            j <= paths@.len(),
            hashes@.len() == paths@.len(),
            forall|k: int| 0 <= k < paths@.len() ==> #[trigger] hashes@[k] == spec_chars_hash(paths@[k]@),
            h == spec_chars_hash(q@),
            last_index(char_seqs(paths@), q@) == last_index(char_seqs(paths@).subrange(0, j as int), q@),
        decreases j,
    {
        let ghost prefix = char_seqs(paths@).subrange(0, j as int);
        proof {
            assert(prefix.drop_last() =~= char_seqs(paths@).subrange(0, j - 1));
            assert(prefix.last() == paths@[j - 1]@);
        }
        if hashes[j - 1] == h && chars_equal(&paths[j - 1], q) {
            return Some(j - 1);
        }
        j = j - 1;
    }
    None
}

/// Where the search for the directory above a node goes on.
pub open spec fn ancestor_from(paths: Seq<Seq<char>>, candidate: Option<Seq<char>>) -> Option<int> {
    match candidate {
        None => None,
        Some(c) => match last_index(paths, c) {
            Some(j) => Some(j),
            None => spec_ancestor(paths, c),
        },
    }
}

fn find_ancestor(paths: &Vec<Vec<char>>, hashes: &Vec<u64>, path: &str) -> (r: Option<usize>)
    requires
        hashes@.len() == paths@.len(),
        forall|k: int| 0 <= k < paths@.len() ==> #[trigger] hashes@[k] == spec_chars_hash(paths@[k]@),
    ensures
        match r {
            Some(j) => spec_ancestor(char_seqs(paths@), path@) == Some(j as int),
            None => spec_ancestor(char_seqs(paths@), path@) is None,
        },
{
    let mut candidate = parent_display_path(path);
    let ghost mut cand: Option<Seq<char>> = spec_parent_display(path@);
    loop
        invariant
            hashes@.len() == paths@.len(),
            forall|k: int| 0 <= k < paths@.len() ==> #[trigger] hashes@[k] == spec_chars_hash(paths@[k]@),
            match candidate {
                Some(c) => cand == Some(c@),
                None => cand is None,
            },
            spec_ancestor(char_seqs(paths@), path@) == ancestor_from(char_seqs(paths@), cand),
        decreases match cand {
            Some(c) => c.len() + 1,
            None => 0,
        },
    {
        match candidate {
            None => {
                return None;
            },
            Some(c) => {
                let chars = chars_of(c.as_str());
                match lookup_path(paths, hashes, &chars) {
                    Some(j) => {
                        return Some(j);
                    },
                    None => {
                        proof {
                            lemma_parent_display_shorter(c@);
                            cand = spec_parent_display(c@);
                        }
                        candidate = parent_display_path(c.as_str());
                    },
                }
            },
        }
    }
}

/// How the nodes of a scene hang together: the layout order (positions in
/// the input), and for each position in layout order its parent position
/// and its children positions.
#[derive(Debug)]
pub struct SceneTopology {
    pub order: Vec<usize>,
    pub parents: Vec<Option<usize>>,
    pub children: Vec<Vec<usize>>,
}

/// The node at layout position `p`.
pub open spec fn node_at(nodes: Seq<StoredNode>, order: Seq<usize>, p: int) -> StoredNode {
    nodes[order[p] as int]
}

/// `t` is the topology of `nodes`: the layout order of `spec_scene_order`;
/// each node's parent the nearest directory above it among the nodes (by
/// compared display path); each node's children the nodes whose parent it
/// is, in layout order.
pub open spec fn topology_of(t: SceneTopology, nodes: Seq<StoredNode>) -> bool {
    &&& t.order@ == spec_scene_order(nodes, nodes.len())
    &&& t.parents@.len() == nodes.len()
    &&& t.children@.len() == nodes.len()
    &&& forall|p: int| 0 <= p < nodes.len() ==> (match #[trigger] t.parents@[p] {
        Some(q) => spec_ancestor(layout_paths(nodes, t.order@), node_at(nodes, t.order@, p).display_path@) == Some(q as int),
        None => spec_ancestor(layout_paths(nodes, t.order@), node_at(nodes, t.order@, p).display_path@) is None,
    })
    &&& forall|p: int| 0 <= p < nodes.len() ==> #[trigger] t.children@[p]@ == spec_children(t.parents@, p, nodes.len() as int)
}

/// The topology of a scene's nodes; see `topology_of`.
pub fn build_topology(nodes: &Vec<StoredNode>) -> (t: SceneTopology)
    ensures
        topology_of(t, nodes@),
{
    let order = scene_order(nodes);
    let n = nodes.len();
    let mut paths: Vec<Vec<char>> = Vec::new();
    let mut hashes: Vec<u64> = Vec::new();
    let mut i: usize = 0;
    while i < n
        invariant
            n == nodes@.len(),
            order@.len() == n,
            forall|k: int| 0 <= k < n ==> #[trigger] order@[k] < n,
            i <= n,
            paths@.len() == i,
            hashes@.len() == i,
            forall|k: int| 0 <= k < i ==> #[trigger] paths@[k]@ == layout_paths(nodes@, order@)[k],
            forall|k: int| 0 <= k < i ==> #[trigger] hashes@[k] == spec_chars_hash(paths@[k]@),
        decreases n - i,
    {
        let normalized = normalize_display_path(nodes[order[i]].display_path.as_str());
        let chars = chars_of(normalized.as_str());
        hashes.push(chars_hash(&chars));
        paths.push(chars);
        i = i + 1;
    }
    proof {
        assert(char_seqs(paths@) =~= layout_paths(nodes@, order@));
    }
    let mut parents: Vec<Option<usize>> = Vec::new();
    let mut i: usize = 0;
    while i < n
        invariant
            n == nodes@.len(),
            order@.len() == n,
            forall|k: int| 0 <= k < n ==> #[trigger] order@[k] < n,
            paths@.len() == n,
            hashes@.len() == n,
            char_seqs(paths@) == layout_paths(nodes@, order@),
            forall|k: int| 0 <= k < n ==> #[trigger] hashes@[k] == spec_chars_hash(paths@[k]@),
            i <= n,
            parents@.len() == i,
            forall|p: int| 0 <= p < i ==> (match #[trigger] parents@[p] {
                Some(q) => spec_ancestor(layout_paths(nodes@, order@), node_at(nodes@, order@, p).display_path@) == Some(q as int),
                None => spec_ancestor(layout_paths(nodes@, order@), node_at(nodes@, order@, p).display_path@) is None,
            }),
        decreases n - i,
    {
        let found = find_ancestor(&paths, &hashes, nodes[order[i]].display_path.as_str());
        parents.push(found);
        i = i + 1;
    }
    let mut children: Vec<Vec<usize>> = Vec::new();
    let mut i: usize = 0;
    while i < n
        invariant
            i <= n,
            children@.len() == i,
            forall|p: int| 0 <= p < i ==> (#[trigger] children@[p])@ == Seq::<usize>::empty(),
        decreases n - i,
    {
        children.push(Vec::new());
        i = i + 1;
    }
    proof {
        assert forall|p: int| 0 <= p < n implies (#[trigger] children@[p])@ == spec_children(parents@, p, 0) by {}
    }
    let mut c: usize = 0;
    while c < n
        invariant
            n == nodes@.len(),
            order@.len() == n,
            parents@.len() == n,
            children@.len() == n,
            c <= n,
            forall|p: int| 0 <= p < n ==> spec_ancestor(layout_paths(nodes@, order@), node_at(nodes@, order@, p).display_path@)
                == match #[trigger] parents@[p] { Some(q) => Some(q as int), None => None },
            forall|p: int| 0 <= p < n ==> (#[trigger] children@[p])@ == spec_children(parents@, p, c as int),
        decreases n - c,
    {
        match parents[c] {
            Some(p) => {
                proof {
                    assert(layout_paths(nodes@, order@).len() == n);
                    lemma_ancestor_bound(layout_paths(nodes@, order@), node_at(nodes@, order@, c as int).display_path@);
                }
                let ghost before = children@;
                children[p].push(c);
                proof {
                    assert forall|q: int| 0 <= q < n implies (#[trigger] children@[q])@ == spec_children(parents@, q, c + 1) by {
                        if q != p {
                            assert(children@[q] == before[q]);
                        }
                    }
                }
            },
            None => {},
        }
        c = c + 1;
    }
    SceneTopology { order, parents, children }
}

} // verus!

verus! {

proof fn lemma_normalize_display_len(path: Seq<char>)
    ensures
        spec_normalize_display(path).len() <= path.len(),
{
    lemma_trim_len(forward_slashes(path));
}

/// The directory found above a path is shorter, in compared form, than
/// the path's own compared form.
pub proof fn lemma_ancestor_shorter(paths: Seq<Seq<char>>, path: Seq<char>)
    ensures
        match spec_ancestor(paths, path) {
            Some(j) => 0 <= j < paths.len() && paths[j].len() < spec_normalize_display(path).len(),
            None => true,
        },
    decreases path.len(),
{
    match spec_parent_display(path) {
        None => {},
        Some(q) => {
            lemma_trim_len(forward_slashes(path));
            lemma_last_slash(spec_normalize_display(path));
            lemma_parent_display_shorter(path);
            lemma_last_index_bound(paths, q);
            lemma_ancestor_shorter(paths, q);
            lemma_normalize_display_len(q);
        },
    }
}

/// In a topology, a parent's compared path is shorter than its child's.
pub proof fn lemma_parent_shorter(t: SceneTopology, nodes: Seq<StoredNode>, p: int)
    requires
        topology_of(t, nodes),
        0 <= p < nodes.len(),
    ensures
        match t.parents@[p] {
            Some(q) => q < nodes.len() && layout_paths(nodes, t.order@)[q as int].len()
                < layout_paths(nodes, t.order@)[p].len(),
            None => true,
        },
{
    lemma_scene_order_bounds(nodes, nodes.len());
    lemma_ancestor_shorter(layout_paths(nodes, t.order@), node_at(nodes, t.order@, p).display_path@);
}

/// Position `index` lies below position `ancestor`: walking up parents
/// from it reaches `ancestor`. Each step goes to a shorter compared path,
/// which every topology guarantees.
pub open spec fn spec_is_descendant(parents: Seq<Option<usize>>, paths: Seq<Seq<char>>, index: int, ancestor: int) -> bool
    decreases paths[index].len(),
{
    match parents[index] {
        None => false,
        Some(p) => p == ancestor || (0 <= p < paths.len() && paths[p as int].len() < paths[index].len()
            && spec_is_descendant(parents, paths, p as int, ancestor)),
    }
}

/// The nodes below a node in a topology and the facts that walking up
/// needs.
pub open spec fn topology_ok(t: SceneTopology, paths: Seq<Seq<char>>) -> bool {
    &&& t.parents@.len() == paths.len()
    &&& t.children@.len() == paths.len()
    &&& forall|p: int| 0 <= p < paths.len() ==> match #[trigger] t.parents@[p] {
        Some(q) => q < paths.len() && paths[q as int].len() < paths[p].len(),
        None => true,
    }
}

/// A topology of `nodes` satisfies `topology_ok` over its layout paths.
pub proof fn lemma_topology_ok(t: SceneTopology, nodes: Seq<StoredNode>)
    requires
        topology_of(t, nodes),
    ensures
        topology_ok(t, layout_paths(nodes, t.order@)),
{
    lemma_scene_order_bounds(nodes, nodes.len());
    assert forall|p: int| 0 <= p < nodes.len() implies match #[trigger] t.parents@[p] {
        Some(q) => q < nodes.len() && layout_paths(nodes, t.order@)[q as int].len() < layout_paths(nodes, t.order@)[p].len(),
        None => true,
    } by {
        lemma_parent_shorter(t, nodes, p);
    }
}

/// Whether position `index` lies below position `ancestor`.
fn is_descendant(t: &SceneTopology, paths: Ghost<Seq<Seq<char>>>, index: usize, ancestor: usize) -> (r: bool)
    requires
        topology_ok(*t, paths@),
        index < paths@.len(),
    ensures
        r == spec_is_descendant(t.parents@, paths@, index as int, ancestor as int),
{
    let mut current: usize = index;
    loop
        invariant
            topology_ok(*t, paths@),
            current < paths@.len(),
            spec_is_descendant(t.parents@, paths@, index as int, ancestor as int)
                == spec_is_descendant(t.parents@, paths@, current as int, ancestor as int),
        decreases paths@[current as int].len(),
    {
        match t.parents[current] {
            None => {
                return false;
            },
            Some(p) => {
                if p == ancestor {
                    return true;
                }
                current = p;
            },
        }
    }
}

} // verus!

verus! {

/// Position `p` may get a frame: a directory with at least two children,
/// on the first level below the root in a dense scene, below the root
/// otherwise.
pub open spec fn is_group_candidate(nodes: Seq<StoredNode>, t: SceneTopology, dense: bool, p: int) -> bool {
    let node = node_at(nodes, t.order@, p);
    &&& node.kind == NodeKind::Directory
    &&& (if dense { node.depth == 1 } else { node.depth > 0 })
    &&& t.children@[p]@.len() >= 2
}

/// The candidate positions among the first `upto`, in layout order.
pub open spec fn candidates_upto(nodes: Seq<StoredNode>, t: SceneTopology, dense: bool, upto: int) -> Seq<usize>
    decreases upto,
{
    if upto <= 0 {
        Seq::empty()
    } else if is_group_candidate(nodes, t, dense, upto - 1) {
        candidates_upto(nodes, t, dense, upto - 1).push((upto - 1) as usize)
    } else {
        candidates_upto(nodes, t, dense, upto - 1)
    }
}

/// The directories considered for frames: all candidates, only the first
/// twenty-four in a dense scene.
pub open spec fn group_candidates(nodes: Seq<StoredNode>, t: SceneTopology, dense: bool) -> Seq<usize> {
    let all = candidates_upto(nodes, t, dense, nodes.len() as int);
    if dense && all.len() > 24 { all.take(24) } else { all }
}

/// A candidate gets a frame unless another candidate lies below it, so
/// that only the innermost groups are framed.
pub open spec fn innermost(cands: Seq<usize>, parents: Seq<Option<usize>>, paths: Seq<Seq<char>>, c: usize) -> bool {
    forall|k: int| 0 <= k < cands.len() && cands[k] != c ==> !spec_is_descendant(parents, paths, #[trigger] cands[k] as int, c as int)
}

/// The framed candidates among the first `upto` of `cands`, in order.
pub open spec fn framed_upto(cands: Seq<usize>, parents: Seq<Option<usize>>, paths: Seq<Seq<char>>, upto: int) -> Seq<usize>
    decreases upto,
{
    if upto <= 0 {
        Seq::empty()
    } else if innermost(cands, parents, paths, cands[upto - 1]) {
        framed_upto(cands, parents, paths, upto - 1).push(cands[upto - 1])
    } else {
        framed_upto(cands, parents, paths, upto - 1)
    }
}

/// The directories that get a frame, in layout order.
pub open spec fn spec_framed_groups(nodes: Seq<StoredNode>, t: SceneTopology, dense: bool) -> Seq<usize> {
    let cands = group_candidates(nodes, t, dense);
    framed_upto(cands, t.parents@, layout_paths(nodes, t.order@), cands.len() as int)
}

/// The positions below `index` among the first `upto`, in layout order.
pub open spec fn below_upto(parents: Seq<Option<usize>>, paths: Seq<Seq<char>>, index: int, upto: int) -> Seq<usize>
    decreases upto,
{
    if upto <= 0 {
        Seq::empty()
    } else if upto - 1 != index && spec_is_descendant(parents, paths, upto - 1, index) {
        below_upto(parents, paths, index, upto - 1).push((upto - 1) as usize)
    } else {
        below_upto(parents, paths, index, upto - 1)
    }
}

/// The subtree of `index`: the node itself, then every node below it in
/// layout order.
pub open spec fn spec_subtree(parents: Seq<Option<usize>>, paths: Seq<Seq<char>>, index: int) -> Seq<usize> {
    seq![index as usize] + below_upto(parents, paths, index, paths.len() as int)
}

/// The subtree of `index`; see `spec_subtree`.
fn collect_descendants(t: &SceneTopology, paths: Ghost<Seq<Seq<char>>>, index: usize) -> (r: Vec<usize>)
    requires
        topology_ok(*t, paths@),
        index < paths@.len(),
    ensures
        r@ == spec_subtree(t.parents@, paths@, index as int),
{
    let mut below: Vec<usize> = Vec::new();
    let n = t.parents.len();
    let mut q: usize = 0;
    while q < n
        invariant
            topology_ok(*t, paths@),
            n == paths@.len(),
            index < n,
            q <= n,
            below@ == below_upto(t.parents@, paths@, index as int, q as int),
        decreases n - q,
    {
        if q != index && is_descendant(t, paths, q, index) {
            below.push(q);
        }
        q = q + 1;
    }
    let mut r: Vec<usize> = Vec::new();
    r.push(index);
    let mut k: usize = 0;
    while k < below.len()
        invariant
            k <= below@.len(),
            r@ == seq![index] + below@.take(k as int),
        decreases below@.len() - k,
    {
        r.push(below[k]);
        proof {
            assert(below@.take((k + 1) as int) =~= below@.take(k as int).push(below@[k as int]));
            assert(r@ =~= seq![index] + below@.take((k + 1) as int));
        }
        k = k + 1;
    }
    proof {
        assert(below@.take(below@.len() as int) =~= below@);
    }
    r
}

/// Where `steps` steps up the parent links from position `q` lead: `q`
/// itself after none, nowhere once a position without a parent is passed.
pub open spec fn walk_up(parents: Seq<Option<usize>>, q: int, steps: nat) -> Option<int>
    decreases steps,
{
    if steps == 0 {
        Some(q)
    } else {
        match parents[q] {
            None => None,
            Some(p) => walk_up(parents, p as int, (steps - 1) as nat),
        }
    }
}

/// Position `q` lies below `ancestor` exactly when some number of steps up
/// the parent links, at least one, leads from `q` to `ancestor`.
proof fn lemma_descendant_walks_up(t: SceneTopology, paths: Seq<Seq<char>>, q: int, ancestor: int)
    requires
        topology_ok(t, paths),
        0 <= q < paths.len(),
    ensures
        spec_is_descendant(t.parents@, paths, q, ancestor)
            == exists|k: nat| k >= 1 && #[trigger] walk_up(t.parents@, q, k) == Some(ancestor),
    decreases paths[q].len(),
{
    let parents = t.parents@;
    assert(topology_ok(t, paths) ==> match parents[q] {
        Some(r) => r < paths.len() && paths[r as int].len() < paths[q].len(),
        None => true,
    });
    match parents[q] {
        None => {
            assert forall|k: nat| k >= 1 implies #[trigger] walk_up(parents, q, k) != Some(ancestor) by {}
        },
        Some(p) => {
            lemma_descendant_walks_up(t, paths, p as int, ancestor);
            if spec_is_descendant(parents, paths, q, ancestor) {
                if p == ancestor {
                    assert(walk_up(parents, q, 1) == walk_up(parents, p as int, 0));
                } else {
                    let k = choose|k: nat| k >= 1 && #[trigger] walk_up(parents, p as int, k) == Some(ancestor);
                    assert(walk_up(parents, q, k + 1) == walk_up(parents, p as int, k));
                }
            } else {
                assert forall|k: nat| k >= 1 implies #[trigger] walk_up(parents, q, k) != Some(ancestor) by {
                    assert(walk_up(parents, q, k) == walk_up(parents, p as int, (k - 1) as nat));
                    if k - 1 == 0 {
                        assert(p != ancestor);
                    } else {
                        assert(walk_up(parents, p as int, (k - 1) as nat) != Some(ancestor));
                    }
                }
            }
        },
    }
}

/// The positions collected below `index` among the first `upto` come
/// before `upto`.
proof fn lemma_below_upto_bound(parents: Seq<Option<usize>>, paths: Seq<Seq<char>>, index: int, upto: int)
    requires
        0 <= upto <= usize::MAX,
    ensures
        forall|k: int| 0 <= k < below_upto(parents, paths, index, upto).len()
            ==> #[trigger] below_upto(parents, paths, index, upto)[k] < upto,
    decreases upto,
{
    if upto > 0 {
        lemma_below_upto_bound(parents, paths, index, upto - 1);
        let prev = below_upto(parents, paths, index, upto - 1);
        let cur = below_upto(parents, paths, index, upto);
        assert forall|k: int| 0 <= k < cur.len() implies #[trigger] cur[k] < upto by {
            if k < prev.len() {
                assert(cur[k] == prev[k]);
            }
        }
    }
}

/// A position among the first `upto` is collected below `index` exactly
/// when it is not `index` and lies below it.
proof fn lemma_below_upto_member(parents: Seq<Option<usize>>, paths: Seq<Seq<char>>, index: int, upto: int, q: int)
    requires
        0 <= q < upto <= usize::MAX,
    ensures
        below_upto(parents, paths, index, upto).contains(q as usize)
            == (q != index && spec_is_descendant(parents, paths, q, index)),
    decreases upto,
{
    let cur = below_upto(parents, paths, index, upto);
    let prev = below_upto(parents, paths, index, upto - 1);
    lemma_below_upto_bound(parents, paths, index, upto - 1);
    let added = upto - 1 != index && spec_is_descendant(parents, paths, upto - 1, index);
    if q < upto - 1 {
        lemma_below_upto_member(parents, paths, index, upto - 1, q);
    }
    if added {
        assert(cur == prev.push((upto - 1) as usize));
        if cur.contains(q as usize) {
            let k = choose|k: int| 0 <= k < cur.len() && cur[k] == q as usize;
            if k < prev.len() {
                assert(cur[k] == prev[k]);
                assert(prev[k] < upto - 1);
                assert(prev.contains(q as usize));
            } else {
                assert(q == upto - 1);
            }
        }
        if q < upto - 1 && prev.contains(q as usize) {
            let k = choose|k: int| 0 <= k < prev.len() && prev[k] == q as usize;
            assert(cur[k] == prev[k]);
        }
        if q == upto - 1 {
            assert(cur[prev.len() as int] == q as usize);
        }
    } else {
        assert(cur == prev);
        if q == upto - 1 && prev.contains(q as usize) {
            let k = choose|k: int| 0 <= k < prev.len() && prev[k] == q as usize;
            assert(prev[k] < upto - 1);
        }
    }
}

/// A subtree holds its own root first and then exactly the other
/// positions from which some steps up the parent links, one or more, lead
/// to the root: every node below it at any depth, not only its children.
pub proof fn law_subtree_is_every_descendant(t: SceneTopology, nodes: Seq<StoredNode>, index: int)
    requires
        topology_of(t, nodes),
        0 <= index < nodes.len(),
        nodes.len() <= usize::MAX,
    ensures
        spec_subtree(t.parents@, layout_paths(nodes, t.order@), index)[0] == index,
        forall|k: int| 0 <= k < spec_subtree(t.parents@, layout_paths(nodes, t.order@), index).len()
            ==> #[trigger] spec_subtree(t.parents@, layout_paths(nodes, t.order@), index)[k] < nodes.len(),
        forall|q: int| 0 <= q < nodes.len() && q != index
            ==> (#[trigger] spec_subtree(t.parents@, layout_paths(nodes, t.order@), index).contains(q as usize)
                == exists|k: nat| k >= 1 && #[trigger] walk_up(t.parents@, q, k) == Some(index)),
{
    let paths = layout_paths(nodes, t.order@);
    lemma_topology_ok(t, nodes);
    lemma_scene_order_bounds(nodes, nodes.len());
    assert(paths.len() == nodes.len());
    lemma_below_upto_bound(t.parents@, paths, index, paths.len() as int);
    let below = below_upto(t.parents@, paths, index, paths.len() as int);
    let sub = spec_subtree(t.parents@, paths, index);
    assert(sub[0] == index as usize);
    assert forall|k: int| 0 <= k < sub.len() implies #[trigger] sub[k] < nodes.len() by {
        if k > 0 {
            assert(sub[k] == below[k - 1]);
        }
    }
    assert forall|q: int| 0 <= q < nodes.len() && q != index implies (#[trigger] sub.contains(q as usize)
        == exists|k: nat| k >= 1 && #[trigger] walk_up(t.parents@, q, k) == Some(index)) by {
        lemma_descendant_walks_up(t, paths, q, index);
        lemma_below_upto_member(t.parents@, paths, index, paths.len() as int, q);
        if sub.contains(q as usize) {
            let k = choose|k: int| 0 <= k < sub.len() && sub[k] == q as usize;
            assert(k != 0);
            assert(below[k - 1] == q as usize);
            assert(below.contains(q as usize));
        }
        if below.contains(q as usize) {
            let k = choose|k: int| 0 <= k < below.len() && below[k] == q as usize;
            assert(sub[k + 1] == below[k]);
        }
    }
}

/// A directory that gets a frame, with its subtree.
#[derive(Debug)]
pub struct FramedGroup {
    pub position: usize,
    pub subtree: Vec<usize>,
}

/// The directories that get a frame, each with its subtree; see
/// `spec_framed_groups` and `spec_subtree`.
pub fn framed_groups(nodes: &Vec<StoredNode>, t: &SceneTopology, dense: bool) -> (groups: Vec<FramedGroup>)
    requires
        topology_of(*t, nodes@),
    ensures
        groups@.len() == spec_framed_groups(nodes@, *t, dense).len(),
        forall|i: int| 0 <= i < groups@.len() ==> {
            &&& (#[trigger] groups@[i]).position == spec_framed_groups(nodes@, *t, dense)[i]
            &&& groups@[i].subtree@ == spec_subtree(t.parents@, layout_paths(nodes@, t.order@), groups@[i].position as int)
        },
        forall|i: int, q: int| 0 <= i < groups@.len() && 0 <= q < nodes@.len() && q != groups@[i].position
            ==> (#[trigger] groups@[i].subtree@.contains(q as usize)
                == exists|k: nat| k >= 1 && #[trigger] walk_up(t.parents@, q, k) == Some(groups@[i].position as int)),
{
    let ghost paths = layout_paths(nodes@, t.order@);
    proof {
        lemma_topology_ok(*t, nodes@);
        lemma_scene_order_bounds(nodes@, nodes@.len());
    }
    let n = nodes.len();
    let mut cands: Vec<usize> = Vec::new();
    let mut p: usize = 0;
    while p < n
        invariant
            n == nodes@.len(),
            topology_of(*t, nodes@),
            t.order@.len() == n,
            forall|k: int| 0 <= k < n ==> #[trigger] t.order@[k] < n,
            p <= n,
            cands@ == candidates_upto(nodes@, *t, dense, p as int),
        decreases n - p,
    {
        let node = &nodes[t.order[p]];
        let level_ok = if dense { node.depth == 1 } else { node.depth > 0 };
        if node.kind == NodeKind::Directory && level_ok && t.children[p].len() >= 2 {
            cands.push(p);
        }
        p = p + 1;
    }
    if dense && cands.len() > 24 {
        cands.truncate(24);
    }
    proof {
        assert(cands@ =~= group_candidates(nodes@, *t, dense));
    }
    proof {
        lemma_candidates_bound(nodes@, *t, dense, n as int);
    }
    let mut groups: Vec<FramedGroup> = Vec::new();
    let ghost mut framed: Seq<usize> = Seq::empty();
    let mut i: usize = 0;
    while i < cands.len()
        invariant
            n == nodes@.len(),
            topology_ok(*t, paths),
            paths == layout_paths(nodes@, t.order@),
            paths.len() == n,
            cands@ == group_candidates(nodes@, *t, dense),
            forall|k: int| 0 <= k < cands@.len() ==> #[trigger] cands@[k] < n,
            i <= cands@.len(),
            framed == framed_upto(cands@, t.parents@, paths, i as int),
            groups@.len() == framed.len(),
            forall|k: int| 0 <= k < groups@.len() ==> (#[trigger] groups@[k]).position < n,
            forall|k: int| 0 <= k < groups@.len() ==> {
                &&& (#[trigger] groups@[k]).position == framed[k]
                &&& groups@[k].subtree@ == spec_subtree(t.parents@, paths, groups@[k].position as int)
            },
        decreases cands@.len() - i,
    {
        let c = cands[i];
        let mut nested = false;
        let mut k: usize = 0;
        while k < cands.len()
            invariant
                topology_ok(*t, paths),
                paths.len() == n,
                forall|j: int| 0 <= j < cands@.len() ==> #[trigger] cands@[j] < n,
                k <= cands@.len(),
                c == cands@[i as int],
                i < cands@.len(),
                nested == exists|j: int| 0 <= j < k && cands@[j] != c && spec_is_descendant(t.parents@, paths, #[trigger] cands@[j] as int, c as int),
            decreases cands@.len() - k,
        {
            if cands[k] != c && is_descendant(t, Ghost(paths), cands[k], c) {
                nested = true;
            }
            k = k + 1;
        }
        if !nested {
            let subtree = collect_descendants(t, Ghost(paths), c);
            let ghost before = groups@;
            groups.push(FramedGroup { position: c, subtree });
            proof {
                assert forall|k: int| 0 <= k < groups@.len() implies {
                    &&& (#[trigger] groups@[k]).position == framed.push(c)[k]
                    &&& groups@[k].subtree@ == spec_subtree(t.parents@, paths, groups@[k].position as int)
                } by {
                    if k < before.len() {
                        assert(groups@[k] == before[k]);
                    }
                }
                framed = framed.push(c);
            }
        }
        i = i + 1;
    }
    proof {
        assert forall|i: int, q: int| 0 <= i < groups@.len() && 0 <= q < nodes@.len() && q != groups@[i].position
            implies (#[trigger] groups@[i].subtree@.contains(q as usize)
                == exists|k: nat| k >= 1 && #[trigger] walk_up(t.parents@, q, k) == Some(groups@[i].position as int)) by {
            law_subtree_is_every_descendant(*t, nodes@, groups@[i].position as int);
        }
    }
    groups
}

proof fn lemma_candidates_bound(nodes: Seq<StoredNode>, t: SceneTopology, dense: bool, upto: int)
    ensures
        forall|k: int| 0 <= k < candidates_upto(nodes, t, dense, upto).len()
            ==> #[trigger] candidates_upto(nodes, t, dense, upto)[k] < upto,
    decreases upto,
{
    if upto > 0 {
        lemma_candidates_bound(nodes, t, dense, upto - 1);
        let prev = candidates_upto(nodes, t, dense, upto - 1);
        let cur = candidates_upto(nodes, t, dense, upto);
        assert forall|k: int| 0 <= k < cur.len() implies #[trigger] cur[k] < upto by {
            if k < prev.len() {
                assert(cur[k] == prev[k]);
            }
        }
    }
}

/// A position among the first `upto` is a candidate listed there exactly
/// when it may get a frame.
proof fn lemma_candidates_member(nodes: Seq<StoredNode>, t: SceneTopology, dense: bool, upto: int, p: int)
    requires
        0 <= p < upto <= usize::MAX,
    ensures
        candidates_upto(nodes, t, dense, upto).contains(p as usize) == is_group_candidate(nodes, t, dense, p),
    decreases upto,
{
    let cur = candidates_upto(nodes, t, dense, upto);
    let prev = candidates_upto(nodes, t, dense, upto - 1);
    lemma_candidates_bound(nodes, t, dense, upto - 1);
    if p < upto - 1 {
        lemma_candidates_member(nodes, t, dense, upto - 1, p);
    }
    if is_group_candidate(nodes, t, dense, upto - 1) {
        assert(cur == prev.push((upto - 1) as usize));
        if cur.contains(p as usize) {
            let k = choose|k: int| 0 <= k < cur.len() && cur[k] == p as usize;
            if k < prev.len() {
                assert(cur[k] == prev[k]);
                assert(prev[k] < upto - 1);
                assert(prev.contains(p as usize));
            }
        }
        if p < upto - 1 && prev.contains(p as usize) {
            let k = choose|k: int| 0 <= k < prev.len() && prev[k] == p as usize;
            assert(cur[k] == prev[k]);
        }
        if p == upto - 1 {
            assert(cur[prev.len() as int] == p as usize);
        }
    } else {
        assert(cur == prev);
        if p == upto - 1 && prev.contains(p as usize) {
            let k = choose|k: int| 0 <= k < prev.len() && prev[k] == p as usize;
            assert(prev[k] < upto - 1);
        }
    }
}

/// The framed candidates among the first `upto` of `cands` are innermost
/// candidates, no more of them than `upto`, and every innermost one among
/// the first `upto` is framed.
proof fn lemma_framed_upto_members(cands: Seq<usize>, parents: Seq<Option<usize>>, paths: Seq<Seq<char>>, upto: int)
    requires
        0 <= upto <= cands.len(),
    ensures
        framed_upto(cands, parents, paths, upto).len() <= upto,
        forall|i: int| 0 <= i < framed_upto(cands, parents, paths, upto).len()
            ==> cands.contains(#[trigger] framed_upto(cands, parents, paths, upto)[i])
                && innermost(cands, parents, paths, framed_upto(cands, parents, paths, upto)[i]),
        forall|k: int| 0 <= k < upto && innermost(cands, parents, paths, #[trigger] cands[k])
            ==> framed_upto(cands, parents, paths, upto).contains(cands[k]),
    decreases upto,
{
    if upto > 0 {
        lemma_framed_upto_members(cands, parents, paths, upto - 1);
        let prev = framed_upto(cands, parents, paths, upto - 1);
        let cur = framed_upto(cands, parents, paths, upto);
        if innermost(cands, parents, paths, cands[upto - 1]) {
            assert(cur == prev.push(cands[upto - 1]));
            assert forall|i: int| 0 <= i < cur.len() implies cands.contains(#[trigger] cur[i])
                && innermost(cands, parents, paths, cur[i]) by {
                if i < prev.len() {
                    assert(cur[i] == prev[i]);
                } else {
                    assert(cands[upto - 1] == cur[i]);
                }
            }
            assert forall|k: int| 0 <= k < upto && innermost(cands, parents, paths, #[trigger] cands[k])
                implies cur.contains(cands[k]) by {
                if k < upto - 1 {
                    let w = choose|w: int| 0 <= w < prev.len() && prev[w] == cands[k];
                    assert(cur[w] == prev[w]);
                } else {
                    assert(cur[prev.len() as int] == cands[k]);
                }
            }
        } else {
            assert(cur == prev);
        }
    }
}

/// Which directories get a frame: each framed position is a directory with
/// at least two children, on the first level in a dense scene and below
/// the root otherwise; no framed directory lies below another; a dense
/// scene has at most twenty-four frames; and in a scene that is not dense
/// every such directory with no other such directory below it is framed.
pub proof fn law_frames_go_to_innermost_groups(nodes: Seq<StoredNode>, t: SceneTopology, dense: bool)
    requires
        topology_of(t, nodes),
        nodes.len() <= usize::MAX,
    ensures
        forall|i: int| 0 <= i < spec_framed_groups(nodes, t, dense).len() ==> {
            let p = #[trigger] spec_framed_groups(nodes, t, dense)[i] as int;
            &&& p < nodes.len()
            &&& node_at(nodes, t.order@, p).kind == NodeKind::Directory
            &&& t.children@[p]@.len() >= 2
            &&& if dense { node_at(nodes, t.order@, p).depth == 1 } else { node_at(nodes, t.order@, p).depth > 0 }
        },
        forall|i: int, j: int, k: nat|
            #![trigger spec_framed_groups(nodes, t, dense)[i], walk_up(t.parents@, spec_framed_groups(nodes, t, dense)[j] as int, k)]
            0 <= i < spec_framed_groups(nodes, t, dense).len()
            && 0 <= j < spec_framed_groups(nodes, t, dense).len()
            && spec_framed_groups(nodes, t, dense)[i] != spec_framed_groups(nodes, t, dense)[j] && k >= 1
            ==> walk_up(t.parents@, spec_framed_groups(nodes, t, dense)[j] as int, k)
                != Some(spec_framed_groups(nodes, t, dense)[i] as int),
        dense ==> spec_framed_groups(nodes, t, dense).len() <= 24,
        !dense ==> forall|p: int| 0 <= p < nodes.len()
            && node_at(nodes, t.order@, p).kind == NodeKind::Directory
            && t.children@[p]@.len() >= 2
            && node_at(nodes, t.order@, p).depth > 0
            && (forall|q: int, k: nat| 0 <= q < nodes.len() && q != p
                && node_at(nodes, t.order@, q).kind == NodeKind::Directory
                && t.children@[q]@.len() >= 2
                && node_at(nodes, t.order@, q).depth > 0
                && k >= 1 ==> #[trigger] walk_up(t.parents@, q, k) != Some(p))
            ==> #[trigger] spec_framed_groups(nodes, t, dense).contains(p as usize),
{
    let n = nodes.len() as int;
    let paths = layout_paths(nodes, t.order@);
    lemma_topology_ok(t, nodes);
    lemma_scene_order_bounds(nodes, nodes.len());
    assert(paths.len() == n);
    let all = candidates_upto(nodes, t, dense, n);
    let cands = group_candidates(nodes, t, dense);
    let g = spec_framed_groups(nodes, t, dense);
    lemma_candidates_bound(nodes, t, dense, n);
    lemma_framed_upto_members(cands, t.parents@, paths, cands.len() as int);
    assert forall|x: usize| cands.contains(x) implies x < n && is_group_candidate(nodes, t, dense, x as int) by {
        let k = choose|k: int| 0 <= k < cands.len() && cands[k] == x;
        if dense && all.len() > 24 {
            assert(cands[k] == all[k]);
        }
        assert(all[k] == x);
        assert(all.contains(x));
        lemma_candidates_member(nodes, t, dense, n, x as int);
    }
    assert forall|i: int| 0 <= i < g.len() implies {
        let p = #[trigger] g[i] as int;
        &&& p < nodes.len()
        &&& node_at(nodes, t.order@, p).kind == NodeKind::Directory
        &&& t.children@[p]@.len() >= 2
        &&& if dense { node_at(nodes, t.order@, p).depth == 1 } else { node_at(nodes, t.order@, p).depth > 0 }
    } by {
        assert(cands.contains(g[i]));
    }
    assert forall|i: int, j: int, k: nat| #![trigger g[i], walk_up(t.parents@, g[j] as int, k)]
        0 <= i < g.len() && 0 <= j < g.len() && g[i] != g[j] && k >= 1
        implies walk_up(t.parents@, g[j] as int, k) != Some(g[i] as int) by {
        assert(cands.contains(g[i]) && innermost(cands, t.parents@, paths, g[i]));
        assert(cands.contains(g[j]));
        let w = choose|w: int| 0 <= w < cands.len() && cands[w] == g[j];
        assert(!spec_is_descendant(t.parents@, paths, cands[w] as int, g[i] as int));
        lemma_descendant_walks_up(t, paths, g[j] as int, g[i] as int);
    }
    if !dense {
        assert(cands == all);
        assert forall|p: int| 0 <= p < nodes.len()
            && node_at(nodes, t.order@, p).kind == NodeKind::Directory
            && t.children@[p]@.len() >= 2
            && node_at(nodes, t.order@, p).depth > 0
            && (forall|q: int, k: nat| 0 <= q < nodes.len() && q != p
                && node_at(nodes, t.order@, q).kind == NodeKind::Directory
                && t.children@[q]@.len() >= 2
                && node_at(nodes, t.order@, q).depth > 0
                && k >= 1 ==> #[trigger] walk_up(t.parents@, q, k) != Some(p))
            implies #[trigger] g.contains(p as usize) by {
            lemma_candidates_member(nodes, t, dense, n, p);
            let w = choose|w: int| 0 <= w < cands.len() && cands[w] == p as usize;
            assert forall|k2: int| 0 <= k2 < cands.len() && cands[k2] != p as usize
                implies !spec_is_descendant(t.parents@, paths, #[trigger] cands[k2] as int, p) by {
                let q = cands[k2] as int;
                assert(cands.contains(cands[k2]));
                lemma_descendant_walks_up(t, paths, q, p);
            }
            assert(innermost(cands, t.parents@, paths, cands[w]));
        }
    }
}

/// The text above a frame: the directory's name, a slash, and the size of
/// its subtree.
pub open spec fn spec_group_label(name: Seq<char>, count: nat) -> Seq<char> {
    name + " / "@ + spec_decimal(count)
}

/// The text above a frame; see `spec_group_label`.
pub fn group_label(name: &str, count: usize) -> (s: String)
    ensures
        s@ == spec_group_label(name@, count as nat),
{
    let mut s = String::from_str(name);
    push_str(&mut s, " / ");
    push_str(&mut s, decimal_string(count as u128).as_str());
    s
}

} // verus!

verus! {

/// The deepest depth among the first `upto` nodes, zero with none.
pub open spec fn max_depth_upto(nodes: Seq<StoredNode>, upto: int) -> nat
    decreases upto,
{
    if upto <= 0 {
        0
    } else {
        let rest = max_depth_upto(nodes, upto - 1);
        if nodes[upto - 1].depth > rest { nodes[upto - 1].depth as nat } else { rest }
    }
}

/// How many of the first `upto` layout positions hold a node at `depth`.
pub open spec fn count_at_depth(nodes: Seq<StoredNode>, order: Seq<usize>, depth: nat, upto: int) -> nat
    decreases upto,
{
    if upto <= 0 {
        0
    } else {
        count_at_depth(nodes, order, depth, upto - 1)
            + if node_at(nodes, order, upto - 1).depth == depth { 1nat } else { 0nat }
    }
}

/// How many of the first `upto` layout positions hold a node at `depth`
/// that has a parent, where `depth` is above the deepest level.
pub open spec fn edges_at_depth(nodes: Seq<StoredNode>, t: SceneTopology, depth: nat, upto: int) -> nat
    decreases upto,
{
    if upto <= 0 {
        0
    } else {
        edges_at_depth(nodes, t, depth, upto - 1)
            + if node_at(nodes, t.order@, upto - 1).depth == depth && t.parents@[upto - 1] is Some
                && depth < max_depth_upto(nodes, nodes.len() as int) { 1nat } else { 0nat }
    }
}

/// Per-level facts of a scene: the deepest level, how many nodes and how
/// many linked nodes each level holds, and each node's rank among the
/// nodes of its level in layout order.
#[derive(Debug)]
pub struct SceneLevels {
    pub max_depth: usize,
    pub depth_counts: Vec<usize>,
    pub edge_counts: Vec<usize>,
    pub ranks: Vec<usize>,
}

/// `l` holds the per-level facts of `nodes` under `t`.
pub open spec fn levels_of(l: SceneLevels, nodes: Seq<StoredNode>, t: SceneTopology) -> bool {
    let n = nodes.len() as int;
    &&& l.max_depth == max_depth_upto(nodes, n)
    &&& l.depth_counts@.len() == l.max_depth + 1
    &&& l.edge_counts@.len() == l.max_depth + 1
    &&& l.ranks@.len() == n
    &&& forall|d: int| 0 <= d <= l.max_depth ==> #[trigger] l.depth_counts@[d] == count_at_depth(nodes, t.order@, d as nat, n)
    &&& forall|d: int| 0 <= d <= l.max_depth ==> #[trigger] l.edge_counts@[d] == edges_at_depth(nodes, t, d as nat, n)
    &&& forall|p: int| 0 <= p < n ==> #[trigger] l.ranks@[p] == count_at_depth(nodes, t.order@, node_at(nodes, t.order@, p).depth as nat, p)
}

proof fn lemma_max_depth(nodes: Seq<StoredNode>, upto: int)
    requires
        0 <= upto <= nodes.len(),
    ensures
        forall|k: int| 0 <= k < upto ==> #[trigger] nodes[k].depth <= max_depth_upto(nodes, upto),
        upto > 0 ==> exists|k: int| 0 <= k < upto && #[trigger] nodes[k].depth == max_depth_upto(nodes, upto),
    decreases upto,
{
    if upto > 0 {
        lemma_max_depth(nodes, upto - 1);
        if upto - 1 > 0 && max_depth_upto(nodes, upto) == max_depth_upto(nodes, upto - 1) {
            let k = choose|k: int| 0 <= k < upto - 1 && #[trigger] nodes[k].depth == max_depth_upto(nodes, upto - 1);
            assert(nodes[k].depth == max_depth_upto(nodes, upto));
        } else {
            assert(nodes[upto - 1].depth == max_depth_upto(nodes, upto) || max_depth_upto(nodes, upto) == 0);
        }
    }
}

proof fn lemma_count_le(nodes: Seq<StoredNode>, order: Seq<usize>, depth: nat, upto: int)
    requires
        upto >= 0,
    ensures
        count_at_depth(nodes, order, depth, upto) <= upto,
    decreases upto,
{
    if upto > 0 {
        lemma_count_le(nodes, order, depth, upto - 1);
    }
}

proof fn lemma_edges_le(nodes: Seq<StoredNode>, t: SceneTopology, depth: nat, upto: int)
    requires
        upto >= 0,
    ensures
        edges_at_depth(nodes, t, depth, upto) <= upto,
    decreases upto,
{
    if upto > 0 {
        lemma_edges_le(nodes, t, depth, upto - 1);
    }
}

/// The per-level facts of a scene; see `levels_of`. Depths must leave
/// room for one more level, as the per-level tables have one entry per
/// level up to the deepest.
pub fn scene_levels(nodes: &Vec<StoredNode>, t: &SceneTopology) -> (l: SceneLevels)
    requires
        topology_of(*t, nodes@),
        forall|k: int| 0 <= k < nodes@.len() ==> #[trigger] nodes@[k].depth < usize::MAX,
    ensures
        levels_of(l, nodes@, *t),
{
    proof {
        lemma_scene_order_bounds(nodes@, nodes@.len());
        lemma_max_depth(nodes@, nodes@.len() as int);
    }
    let n = nodes.len();
    let mut max_depth: usize = 0;
    let mut i: usize = 0;
    while i < n
        invariant
            n == nodes@.len(),
            i <= n,
            max_depth == max_depth_upto(nodes@, i as int),
        decreases n - i,
    {
        if nodes[i].depth > max_depth {
            max_depth = nodes[i].depth;
        }
        i = i + 1;
    }
    proof {
        if n > 0 {
            let k = choose|k: int| 0 <= k < n && #[trigger] nodes@[k].depth == max_depth_upto(nodes@, n as int);
            assert(nodes@[k].depth < usize::MAX);
        }
    }
    let levels = max_depth + 1;
    let mut depth_counts: Vec<usize> = Vec::new();
    let mut edge_counts: Vec<usize> = Vec::new();
    let mut d: usize = 0;
    while d < levels
        invariant
            d <= levels,
            depth_counts@.len() == d,
            edge_counts@.len() == d,
            forall|k: int| 0 <= k < d ==> #[trigger] depth_counts@[k] == 0,
            forall|k: int| 0 <= k < d ==> #[trigger] edge_counts@[k] == 0,
        decreases levels - d,
    {
        depth_counts.push(0);
        edge_counts.push(0);
        d = d + 1;
    }
    let mut ranks: Vec<usize> = Vec::new();
    let mut p: usize = 0;
    while p < n
        invariant
            n == nodes@.len(),
            topology_of(*t, nodes@),
            t.order@.len() == n,
            forall|k: int| 0 <= k < n ==> #[trigger] t.order@[k] < n,
            forall|k: int| 0 <= k < n ==> #[trigger] nodes@[k].depth <= max_depth,
            max_depth == max_depth_upto(nodes@, n as int),
            levels == max_depth + 1,
            p <= n,
            depth_counts@.len() == levels,
            edge_counts@.len() == levels,
            ranks@.len() == p,
            forall|e: int| 0 <= e < levels ==> #[trigger] depth_counts@[e] == count_at_depth(nodes@, t.order@, e as nat, p as int),
            forall|e: int| 0 <= e < levels ==> #[trigger] edge_counts@[e] == edges_at_depth(nodes@, *t, e as nat, p as int),
            forall|q: int| 0 <= q < p ==> #[trigger] ranks@[q] == count_at_depth(nodes@, t.order@, node_at(nodes@, t.order@, q).depth as nat, q),
        decreases n - p,
    {
        let depth = nodes[t.order[p]].depth;
        proof {
            lemma_count_le(nodes@, t.order@, depth as nat, p as int);
            lemma_edges_le(nodes@, *t, depth as nat, p as int);
        }
        ranks.push(depth_counts[depth]);
        let ghost counts0 = depth_counts@;
        let ghost edges0 = edge_counts@;
        depth_counts.set(depth, depth_counts[depth] + 1);
        if t.parents[p].is_some() && depth < max_depth {
            edge_counts.set(depth, edge_counts[depth] + 1);
        }
        proof {
            assert forall|e: int| 0 <= e < levels implies #[trigger] depth_counts@[e] == count_at_depth(nodes@, t.order@, e as nat, p + 1) by {
                if e != depth {
                    assert(depth_counts@[e] == counts0[e]);
                }
            }
            assert forall|e: int| 0 <= e < levels implies #[trigger] edge_counts@[e] == edges_at_depth(nodes@, *t, e as nat, p + 1) by {
                if e != depth {
                    assert(edge_counts@[e] == edges0[e]);
                }
            }
        }
        p = p + 1;
    }
    SceneLevels { max_depth, depth_counts, edge_counts, ranks }
}

/// The children of layout position `p` that get a drawn link: all of them,
/// except, in a dense scene, those that are not directories and lie deeper
/// than the first level.
pub open spec fn routed(nodes: Seq<StoredNode>, t: SceneTopology, dense: bool, c: usize) -> bool {
    !(dense && node_at(nodes, t.order@, c as int).kind != NodeKind::Directory && node_at(nodes, t.order@, c as int).depth > 1)
}

/// The linked children of each layout position, in layout order; see
/// `routed`.
pub fn route_children(nodes: &Vec<StoredNode>, t: &SceneTopology, dense: bool) -> (routes: Vec<Vec<usize>>)
    requires
        topology_of(*t, nodes@),
    ensures
        routes@.len() == nodes@.len(),
        forall|p: int| 0 <= p < nodes@.len() ==> (#[trigger] routes@[p])@
            == t.children@[p]@.filter(|c: usize| routed(nodes@, *t, dense, c)),
        forall|p: int, c: usize| 0 <= p < nodes@.len() ==> (#[trigger] routes@[p]@.contains(c)
            == (t.children@[p]@.contains(c) && (!dense || node_at(nodes@, t.order@, c as int).kind == NodeKind::Directory
                || node_at(nodes@, t.order@, c as int).depth <= 1))),
{
    proof {
        lemma_scene_order_bounds(nodes@, nodes@.len());
    }
    let n = nodes.len();
    let mut routes: Vec<Vec<usize>> = Vec::new();
    let mut p: usize = 0;
    while p < n
        invariant
            n == nodes@.len(),
            topology_of(*t, nodes@),
            t.order@.len() == n,
            forall|k: int| 0 <= k < n ==> #[trigger] t.order@[k] < n,
            p <= n,
            routes@.len() == p,
            forall|q: int| 0 <= q < p ==> (#[trigger] routes@[q])@
                == t.children@[q]@.filter(|c: usize| routed(nodes@, *t, dense, c)),
        decreases n - p,
    {
        let kids = &t.children[p];
        let mut kept: Vec<usize> = Vec::new();
        let mut k: usize = 0;
        while k < kids.len()
            invariant
                n == nodes@.len(),
                topology_of(*t, nodes@),
                t.order@.len() == n,
                forall|j: int| 0 <= j < n ==> #[trigger] t.order@[j] < n,
                *kids == t.children@[p as int],
                p < n,
                k <= kids@.len(),
                kept@ == kids@.take(k as int).filter(|c: usize| routed(nodes@, *t, dense, c)),
            decreases kids@.len() - k,
        {
            let c = kids[k];
            proof {
                assert(kids@.take((k + 1) as int).drop_last() =~= kids@.take(k as int));
                reveal_with_fuel(Seq::filter, 1);
                lemma_child_bound(*t, nodes@, p as int, k as int);
            }
            let node = &nodes[t.order[c]];
            if !(dense && node.kind != NodeKind::Directory && node.depth > 1) {
                kept.push(c);
            }
            k = k + 1;
        }
        proof {
            assert(kids@.take(kids@.len() as int) =~= kids@);
        }
        routes.push(kept);
        p = p + 1;
    }
    proof {
        assert forall|p: int, c: usize| 0 <= p < nodes@.len() implies (#[trigger] routes@[p]@.contains(c)
            == (t.children@[p]@.contains(c) && (!dense || node_at(nodes@, t.order@, c as int).kind == NodeKind::Directory
                || node_at(nodes@, t.order@, c as int).depth <= 1))) by {
            law_routes_keep_directories(nodes@, *t, dense, p, c);
        }
    }
    routes
}

/// Which children get a link: a child directory always does, dense scene
/// or not; so does every child in a scene that is not dense, and every
/// child on the first level. Only a child that is not a directory and lies
/// deeper than the first level loses its link, and only in a dense scene.
pub proof fn law_routes_keep_directories(nodes: Seq<StoredNode>, t: SceneTopology, dense: bool, p: int, c: usize)
    ensures
        t.children@[p]@.filter(|c: usize| routed(nodes, t, dense, c)).contains(c)
            == (t.children@[p]@.contains(c) && (!dense || node_at(nodes, t.order@, c as int).kind == NodeKind::Directory
                || node_at(nodes, t.order@, c as int).depth <= 1)),
        node_at(nodes, t.order@, c as int).kind == NodeKind::Directory
            ==> t.children@[p]@.filter(|c: usize| routed(nodes, t, dense, c)).contains(c) == t.children@[p]@.contains(c),
        !dense ==> t.children@[p]@.filter(|c: usize| routed(nodes, t, dense, c)) == t.children@[p]@,
{
    let kids = t.children@[p]@;
    let f = |c: usize| routed(nodes, t, dense, c);
    kids.filter_lemma(f);
    if kids.contains(c) && f(c) {
        let k = choose|k: int| 0 <= k < kids.len() && kids[k] == c;
        assert(kids.filter(f).contains(kids[k]));
    }
    if kids.filter(f).contains(c) {
        kids.lemma_filter_contains_rev(f, c);
        let k = choose|k: int| 0 <= k < kids.filter(f).len() && kids.filter(f)[k] == c;
        assert(f(kids.filter(f)[k]));
    }
    if !dense {
        assert(kids.filter(f) =~= kids) by {
            lemma_filter_all(kids, f);
        }
    }
}

/// Filtering by a predicate that every element meets keeps the sequence.
proof fn lemma_filter_all<A>(s: Seq<A>, f: spec_fn(A) -> bool)
    requires
        forall|i: int| 0 <= i < s.len() ==> f(#[trigger] s[i]),
    ensures
        s.filter(f) == s,
    decreases s.len(),
{
    reveal_with_fuel(Seq::filter, 1);
    if s.len() > 0 {
        lemma_filter_all(s.drop_last(), f);
        assert(s.drop_last().push(s.last()) =~= s);
    }
}

proof fn lemma_children_bound(parents: Seq<Option<usize>>, p: int, upto: int)
    ensures
        forall|k: int| 0 <= k < spec_children(parents, p, upto).len() ==> #[trigger] spec_children(parents, p, upto)[k] < upto,
    decreases upto,
{
    if upto > 0 {
        lemma_children_bound(parents, p, upto - 1);
        let prev = spec_children(parents, p, upto - 1);
        let cur = spec_children(parents, p, upto);
        assert forall|k: int| 0 <= k < cur.len() implies #[trigger] cur[k] < upto by {
            if k < prev.len() {
                assert(cur[k] == prev[k]);
            }
        }
    }
}

/// The children of a position are positions of the scene.
pub proof fn lemma_child_bound(t: SceneTopology, nodes: Seq<StoredNode>, p: int, k: int)
    requires
        topology_of(t, nodes),
        0 <= p < nodes.len(),
        0 <= k < t.children@[p]@.len(),
    ensures
        t.children@[p]@[k] < nodes.len(),
{
    lemma_children_bound(t.parents@, p, nodes.len() as int);
}

} // verus!

verus! {

/// A scene with more nodes than this is laid out in a dense grid.
pub open spec fn spec_is_dense(node_count: nat) -> bool {
    node_count > 360
}

/// Whether a scene of `node_count` nodes is laid out in a dense grid.
pub fn is_dense(node_count: usize) -> (dense: bool)
    ensures
        dense == spec_is_dense(node_count as nat),
{
    node_count > 360
}

/// Whether a node shows its name: every node in a scene of at most eight
/// hundred nodes, only directories in a larger one.
pub fn shows_label(node_count: usize, kind: NodeKind) -> (shown: bool)
    ensures
        shown == (node_count <= 800 || kind == NodeKind::Directory),
{
    node_count <= 800 || kind == NodeKind::Directory
}

/// The kind shown for a selected node.
pub fn kind_text(kind: NodeKind) -> (s: &'static str)
    ensures
        s@ == (if kind == NodeKind::Directory { "Directory"@ } else { "File"@ }),
{
    if kind == NodeKind::Directory {
        "Directory"
    } else {
        "File"
    }
}

/// How many module directories a synthetic scene of `count` nodes has.
pub open spec fn synthetic_modules(count: nat) -> nat {
    if count == 0 { 0 } else if count - 1 < 12 { (count - 1) as nat } else { 12 }
}

/// `n` in decimal, at least two digits.
pub open spec fn two_digits(n: nat) -> Seq<char> {
    crate::text::zero_pad(spec_decimal(n), 2)
}

/// `n` in decimal, at least five digits.
pub open spec fn five_digits(n: nat) -> Seq<char> {
    crate::text::zero_pad(spec_decimal(n), 5)
}

/// `node` is node `index` of a synthetic scene of `count` nodes: the
/// project directory first, then the module directories, then files spread
/// over the modules in turn.
pub open spec fn synthetic_node_is(node: StoredNode, count: nat, index: nat) -> bool {
    let modules = synthetic_modules(count);
    &&& node.stable_id is None
    &&& if index == 0 {
        &&& node.display_path@ == "synthetic:/project"@
        &&& node.display_name@ == "project"@
        &&& node.kind == NodeKind::Directory
        &&& node.depth == 0
        &&& node.size_bytes == 0
    } else if index <= modules {
        &&& node.display_path@ == "synthetic:/project/module-"@ + two_digits((index - 1) as nat)
        &&& node.display_name@ == "module-"@ + two_digits((index - 1) as nat)
        &&& node.kind == NodeKind::Directory
        &&& node.depth == 1
        &&& node.size_bytes == 0
    } else {
        let module = ((index - 1) % (if modules == 0 { 1int } else { modules as int })) as nat;
        &&& node.display_path@ == "synthetic:/project/module-"@ + two_digits(module) + "/node-"@
            + five_digits(index) + ".rs"@
        &&& node.display_name@ == "node-"@ + five_digits(index) + ".rs"@
        &&& node.kind == NodeKind::File
        &&& node.depth == 2
        &&& node.size_bytes == index * 128
    }
}

fn padded(n: usize, width: usize) -> (s: String)
    ensures
        s@ == crate::text::zero_pad(spec_decimal(n as nat), width as nat),
{
    crate::text::zero_padded(decimal_string(n as u128), width)
}

/// The nodes of a synthetic scene of `count` nodes; see
/// `synthetic_node_is`.
pub fn synthetic_nodes(count: usize) -> (nodes: Vec<StoredNode>)
    requires
        count <= usize::MAX / 128,
    ensures
        nodes@.len() == count,
        forall|i: int| 0 <= i < count ==> synthetic_node_is(#[trigger] nodes@[i], count as nat, i as nat),
{
    let mut nodes: Vec<StoredNode> = Vec::new();
    if count == 0 {
        return nodes;
    }
    let module_count: usize = if count - 1 < 12 { count - 1 } else { 12 };
    nodes.push(StoredNode {
        stable_id: None,
        display_path: String::from_str("synthetic:/project"),
        display_name: String::from_str("project"),
        kind: NodeKind::Directory,
        depth: 0,
        size_bytes: 0,
    });
    let mut m: usize = 0;
    while m < module_count
        invariant
            module_count == synthetic_modules(count as nat),
            m <= module_count,
            nodes@.len() == m + 1,
            forall|i: int| 0 <= i < nodes@.len() ==> synthetic_node_is(#[trigger] nodes@[i], count as nat, i as nat),
        decreases module_count - m,
    {
        let digits = padded(m, 2);
        let mut path = String::from_str("synthetic:/project/module-");
        push_str(&mut path, digits.as_str());
        let mut name = String::from_str("module-");
        push_str(&mut name, digits.as_str());
        nodes.push(StoredNode {
            stable_id: None,
            display_path: path,
            display_name: name,
            kind: NodeKind::Directory,
            depth: 1,
            size_bytes: 0,
        });
        m = m + 1;
    }
    let divisor: usize = if module_count == 0 { 1 } else { module_count };
    let mut index: usize = module_count + 1;
    while index < count
        invariant
            count <= usize::MAX / 128,
            module_count == synthetic_modules(count as nat),
            divisor == (if module_count == 0 { 1 } else { module_count }),
            module_count + 1 <= index <= count,
            nodes@.len() == index,
            forall|i: int| 0 <= i < nodes@.len() ==> synthetic_node_is(#[trigger] nodes@[i], count as nat, i as nat),
        decreases count - index,
    {
        let module = (index - 1) % divisor;
        let module_digits = padded(module, 2);
        let index_digits = padded(index, 5);
        let mut path = String::from_str("synthetic:/project/module-");
        push_str(&mut path, module_digits.as_str());
        push_str(&mut path, "/node-");
        push_str(&mut path, index_digits.as_str());
        push_str(&mut path, ".rs");
        let mut name = String::from_str("node-");
        push_str(&mut name, index_digits.as_str());
        push_str(&mut name, ".rs");
        proof {
            assert(index * 128 <= usize::MAX) by (nonlinear_arith)
                requires
                    index < count,
                    count <= usize::MAX / 128,
            ;
        }
        nodes.push(StoredNode {
            stable_id: None,
            display_path: path,
            display_name: name,
            kind: NodeKind::File,
            depth: 2,
            size_bytes: (index * 128) as u64,
        });
        index = index + 1;
    }
    nodes
}

} // verus!

verus! {

proof fn lemma_node_before_total(a: StoredNode, b: StoredNode)
    ensures
        node_before(a, b) || node_before(b, a),
{
    lemma_chars_le_total(a.display_path@, b.display_path@);
}

proof fn lemma_node_before_trans(a: StoredNode, b: StoredNode, c: StoredNode)
    requires
        node_before(a, b),
        node_before(b, c),
    ensures
        node_before(a, c),
{
    if a.depth == b.depth && b.depth == c.depth {
        lemma_chars_le_trans(a.display_path@, b.display_path@, c.display_path@);
    }
}

/// `s` lists positions of `nodes` in layout order.
pub open spec fn layout_sorted(s: Seq<usize>, nodes: Seq<StoredNode>) -> bool {
    forall|i: int, j: int| 0 <= i < j < s.len() ==> node_before(nodes[#[trigger] s[i] as int], nodes[#[trigger] s[j] as int])
}

proof fn lemma_insert_node_sorted(s: Seq<usize>, x: usize, nodes: Seq<StoredNode>)
    requires
        layout_sorted(s, nodes),
    ensures
        layout_sorted(insert_node(s, x, nodes), nodes),
    decreases s.len(),
{
    let r = insert_node(s, x, nodes);
    if s.len() == 0 {
    } else if node_before(nodes[s.last() as int], nodes[x as int]) {
        assert forall|i: int, j: int| 0 <= i < j < r.len()
            implies node_before(nodes[#[trigger] r[i] as int], nodes[#[trigger] r[j] as int]) by {
            if j == r.len() - 1 {
                if i < s.len() - 1 {
                    lemma_node_before_trans(nodes[s[i] as int], nodes[s.last() as int], nodes[x as int]);
                }
            }
        }
    } else {
        let t = s.drop_last();
        lemma_insert_node_sorted(t, x, nodes);
        lemma_insert_node_len(t, x, nodes);
        let it = insert_node(t, x, nodes);
        lemma_node_before_total(nodes[s.last() as int], nodes[x as int]);
        assert forall|i: int, j: int| 0 <= i < j < r.len()
            implies node_before(nodes[#[trigger] r[i] as int], nodes[#[trigger] r[j] as int]) by {
            if j == r.len() - 1 {
                assert(r[i] == it[i]);
                if it[i] != x {
                    let w = choose|w: int| 0 <= w < t.len() && t[w] == it[i];
                    assert(s[w] == t[w]);
                }
            } else {
                assert(r[i] == it[i]);
                assert(r[j] == it[j]);
            }
        }
    }
}

proof fn lemma_insert_node_distinct(s: Seq<usize>, x: usize, nodes: Seq<StoredNode>)
    requires
        forall|i: int, j: int| 0 <= i < j < s.len() ==> #[trigger] s[i] != #[trigger] s[j],
        !s.contains(x),
    ensures
        forall|i: int, j: int| 0 <= i < j < insert_node(s, x, nodes).len()
            ==> #[trigger] insert_node(s, x, nodes)[i] != #[trigger] insert_node(s, x, nodes)[j],
    decreases s.len(),
{
    let r = insert_node(s, x, nodes);
    if s.len() > 0 && !node_before(nodes[s.last() as int], nodes[x as int]) {
        let t = s.drop_last();
        assert(!t.contains(x)) by {
            if t.contains(x) {
                let w = choose|w: int| 0 <= w < t.len() && t[w] == x;
                assert(s[w] == x);
            }
        }
        lemma_insert_node_distinct(t, x, nodes);
        lemma_insert_node_len(t, x, nodes);
        let it = insert_node(t, x, nodes);
        assert forall|i: int, j: int| 0 <= i < j < r.len() implies #[trigger] r[i] != #[trigger] r[j] by {
            if j == r.len() - 1 {
                assert(r[i] == it[i]);
                assert(r[j] == s.last());
                if it[i] == x {
                    assert(s[s.len() - 1] == s.last());
                } else {
                    let w = choose|w: int| 0 <= w < t.len() && t[w] == it[i];
                    assert(s[w] == t[w]);
                }
            } else {
                assert(r[i] == it[i]);
                assert(r[j] == it[j]);
            }
        }
    } else if s.len() > 0 {
        assert forall|i: int, j: int| 0 <= i < j < r.len() implies #[trigger] r[i] != #[trigger] r[j] by {
            if j == r.len() - 1 {
                assert(r[i] == s[i]);
            } else {
                assert(r[i] == s[i]);
                assert(r[j] == s[j]);
            }
        }
    }
}

/// The layout order lists every node exactly once, ordered by depth and
/// then by display path.
pub proof fn law_layout_order_is_sorted_permutation(nodes: Seq<StoredNode>, n: nat)
    requires
        n <= usize::MAX,
    ensures
        spec_scene_order(nodes, n).len() == n,
        forall|k: int| 0 <= k < n ==> #[trigger] spec_scene_order(nodes, n)[k] < n,
        forall|i: int, j: int| 0 <= i < j < n
            ==> #[trigger] spec_scene_order(nodes, n)[i] != #[trigger] spec_scene_order(nodes, n)[j],
        layout_sorted(spec_scene_order(nodes, n), nodes),
    decreases n,
{
    lemma_scene_order_bounds(nodes, n);
    if n > 0 {
        let prev = spec_scene_order(nodes, (n - 1) as nat);
        law_layout_order_is_sorted_permutation(nodes, (n - 1) as nat);
        assert(!prev.contains((n - 1) as usize)) by {
            if prev.contains((n - 1) as usize) {
                let w = choose|w: int| 0 <= w < prev.len() && prev[w] == (n - 1) as usize;
                assert(prev[w] < n - 1);
            }
        }
        lemma_insert_node_distinct(prev, (n - 1) as usize, nodes);
        lemma_insert_node_sorted(prev, (n - 1) as usize, nodes);
    }
}

} // verus!
