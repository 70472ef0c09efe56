//! The snapshot data model: nodes, scan issues and totals.

use vstd::prelude::*;
use crate::text::{
    chars_of, decimal_string, digit_char, lower_hex_string, push_char, push_str, spec_decimal, spec_digits,
    spec_lower_hex, zero_pad, zero_padded,
};

verus! {

/// What a path is, as the file system reported it without following links.
#[derive(Debug, Clone, Copy, PartialEq, Eq, Structural)]
pub enum NodeKind {
    Directory,
    File,
    Symlink,
    Other,
}

/// One visited path of a snapshot.
#[derive(Debug, Clone)]
pub struct SnapshotNode {
    pub path: String,
    pub name: String,
    pub kind: NodeKind,
    pub depth: usize,
    pub size: u64,
    pub modified_unix_ms: Option<u128>,
    pub children: Vec<usize>,
    pub child_count: usize,
    pub truncated: bool,
}

/// A path that could not be read, with the operation that failed.
#[derive(Debug, Clone)]
pub struct ScanIssue {
    pub path: String,
    pub operation: String,
    pub message: String,
}

/// Totals over a snapshot.
#[derive(Debug, Clone, Copy, PartialEq, Eq, Structural)]
pub struct ScanStats {
    pub scanned_nodes: usize,
    pub directory_count: usize,
    pub file_count: usize,
    pub symlink_count: usize,
    pub other_count: usize,
    pub omitted_nodes: usize,
    pub issue_count: usize,
    pub is_truncated: bool,
}

/// The result of one scan of a folder.
#[derive(Debug, Clone)]
pub struct Snapshot {
    pub root: String,
    pub generated_at_unix_ms: u128,
    pub nodes: Vec<SnapshotNode>,
    pub issues: Vec<ScanIssue>,
    pub stats: ScanStats,
}

impl ScanStats {
    /// All totals zero and nothing truncated.
    pub open spec fn is_zero(self) -> bool {
        &&& self.scanned_nodes == 0
        &&& self.directory_count == 0
        &&& self.file_count == 0
        &&& self.symlink_count == 0
        &&& self.other_count == 0
        &&& self.omitted_nodes == 0
        &&& self.issue_count == 0
        &&& !self.is_truncated
    }
}

impl Default for ScanStats {
    fn default() -> (s: Self)
        ensures
            s.is_zero(),
    {
        ScanStats {
            scanned_nodes: 0,
            directory_count: 0,
            file_count: 0,
            symlink_count: 0,
            other_count: 0,
            omitted_nodes: 0,
            issue_count: 0,
            is_truncated: false,
        }
    }
}

impl NodeKind {
    /// The lower-case name used in snapshots.
    pub open spec fn spec_name(self) -> Seq<char> {
        match self {
            NodeKind::Directory => "directory"@,
            NodeKind::File => "file"@,
            NodeKind::Symlink => "symlink"@,
            NodeKind::Other => "other"@,
        }
    }

    /// The lower-case name used in snapshots.
    pub fn as_str(self) -> (s: &'static str)
        ensures
            s@ == self.spec_name(),
    {
        match self {
            NodeKind::Directory => "directory",
            NodeKind::File => "file",
            NodeKind::Symlink => "symlink",
            NodeKind::Other => "other",
        }
    }
}

} // verus!

verus! {

/// A control character: general category Cc, U+0000 to U+001F and U+007F to U+009F.
pub open spec fn is_control(c: char) -> bool {
    (c as u32) <= 0x1f || (0x7f <= (c as u32) && (c as u32) <= 0x9f)
}

/// How one character is written inside a JSON string.
pub open spec fn escape_char(c: char) -> Seq<char> {
    if c == '"' {
        seq!['\\', '"']
    } else if c == '\\' {
        seq!['\\', '\\']
    } else if c == '\n' {
        seq!['\\', 'n']
    } else if c == '\r' {
        seq!['\\', 'r']
    } else if c == '\t' {
        seq!['\\', 't']
    } else if is_control(c) {
        seq!['\\', 'u'] + zero_pad(spec_lower_hex((c as u32) as nat), 4)
    } else {
        seq![c]
    }
}

/// Every character of `s` as it is written inside a JSON string.
pub open spec fn escape_all(s: Seq<char>) -> Seq<char>
    decreases s.len(),
{
    if s.len() == 0 {
        Seq::empty()
    } else {
        escape_all(s.drop_last()) + escape_char(s.last())
    }
}

/// `s` as a JSON string literal.
pub open spec fn spec_quote(s: Seq<char>) -> Seq<char> {
    seq!['"'] + escape_all(s) + seq!['"']
}

/// `\u` and at least four lower-case hexadecimal digits of `code`.
pub open spec fn control_escape(code: u32) -> Seq<char> {
    seq!['\\', 'u'] + zero_pad(spec_lower_hex(code as nat), 4)
}

/// Whether `c` is a control character; see `is_control`.
pub fn char_is_control(c: char) -> (b: bool)
    ensures
        b == is_control(c),
{
    let code = c as u32;
    code <= 0x1f || (0x7f <= code && code <= 0x9f)
}

/// Appends the `\uXXXX` escape of `code`.
pub fn write_control_escape(output: &mut String, code: u32)
    ensures
        final(output)@ == old(output)@ + control_escape(code),
{
    let ghost start = output@;
    push_char(output, '\\');
    push_char(output, 'u');
    let digits = zero_padded(lower_hex_string(code as u128), 4);
    push_str(output, digits.as_str());
    proof {
        assert(output@ =~= start + control_escape(code));
    }
}

/// `value` as a JSON string literal.
pub fn quote(value: &str) -> (s: String)
    ensures
        s@ == spec_quote(value@),
{
    let chars = chars_of(value);
    let mut body = String::new();
    let mut i: usize = 0;
    while i < chars.len()
        invariant
            chars@ == value@,
            i <= chars@.len(),
            body@ == escape_all(value@.subrange(0, i as int)),
        decreases chars@.len() - i,
    {
        let c = chars[i];
        let ghost before = body@;
        if c == '"' {
            push_char(&mut body, '\\');
            push_char(&mut body, '"');
        } else if c == '\\' {
            push_char(&mut body, '\\');
            push_char(&mut body, '\\');
        } else if c == '\n' {
            push_char(&mut body, '\\');
            push_char(&mut body, 'n');
        } else if c == '\r' {
            push_char(&mut body, '\\');
            push_char(&mut body, 'r');
        } else if c == '\t' {
            push_char(&mut body, '\\');
            push_char(&mut body, 't');
        } else if char_is_control(c) {
            write_control_escape(&mut body, c as u32);
        } else {
            push_char(&mut body, c);
        }
        proof {
            let next = value@.subrange(0, (i + 1) as int);
            assert(next.drop_last() =~= value@.subrange(0, i as int));
            assert(next.last() == c);
            assert(body@ =~= before + escape_char(c));
        }
        i = i + 1;
    }
    proof {
        assert(value@.subrange(0, chars@.len() as int) =~= value@);
    }
    let mut s = String::new();
    push_char(&mut s, '"');
    let ghost head = s@;
    push_str(&mut s, body.as_str());
    push_char(&mut s, '"');
    proof {
        assert(s@ =~= spec_quote(value@));
    }
    s
}

/// A number that may be absent, in JSON: its digits, or `null`.
pub open spec fn spec_option_number(value: Option<u128>) -> Seq<char> {
    match value {
        Some(n) => spec_decimal(n as nat),
        None => "null"@,
    }
}

/// A number that may be absent, in JSON.
pub fn option_number(value: Option<u128>) -> (s: String)
    ensures
        s@ == spec_option_number(value),
{
    match value {
        Some(n) => decimal_string(n),
        None => String::from_str("null"),
    }
}

/// The numbers of `values` in decimal, separated by `, `.
pub open spec fn number_list(values: Seq<usize>) -> Seq<char>
    decreases values.len(),
{
    if values.len() == 0 {
        Seq::empty()
    } else if values.len() == 1 {
        spec_decimal(values[0] as nat)
    } else {
        number_list(values.drop_last()) + ", "@ + spec_decimal(values.last() as nat)
    }
}

/// `values` as a JSON array.
pub open spec fn spec_number_array(values: Seq<usize>) -> Seq<char> {
    "["@ + number_list(values) + "]"@
}

/// `values` as a JSON array of numbers.
pub fn number_array(values: &Vec<usize>) -> (s: String)
    ensures
        s@ == spec_number_array(values@),
{
    let mut list = String::new();
    let mut i: usize = 0;
    while i < values.len()
        invariant
            i <= values@.len(),
            list@ == number_list(values@.subrange(0, i as int)),
        decreases values@.len() - i,
    {
        let ghost before = list@;
        let digits = decimal_string(values[i] as u128);
        proof {
            let next = values@.subrange(0, (i + 1) as int);
            assert(next.drop_last() =~= values@.subrange(0, i as int));
            assert(next.last() == values@[i as int]);
            if i == 0 {
                assert(next.len() == 1);
                assert(next[0] == values@[0]);
            }
        }
        if i > 0 {
            push_str(&mut list, ", ");
        }
        push_str(&mut list, digits.as_str());
        proof {
            if i == 0 {
                assert(list@ =~= digits@);
            }
        }
        i = i + 1;
    }
    proof {
        assert(values@.subrange(0, values@.len() as int) =~= values@);
    }
    let mut s = String::from_str("[");
    push_str(&mut s, list.as_str());
    push_str(&mut s, "]");
    s
}

/// `b` in JSON.
pub open spec fn spec_bool(b: bool) -> Seq<char> {
    if b { "true"@ } else { "false"@ }
}

fn bool_text(b: bool) -> (s: &'static str)
    ensures
        s@ == spec_bool(b),
{
    if b { "true" } else { "false" }
}

/// One node of a snapshot as a JSON object on one line.
pub open spec fn node_json(n: SnapshotNode) -> Seq<char> {
    "    {\"path\": "@ + spec_quote(n.path@) + ", \"name\": "@ + spec_quote(n.name@) + ", \"kind\": "@
        + spec_quote(n.kind.spec_name()) + ", \"depth\": "@ + spec_decimal(n.depth as nat) + ", \"size\": "@
        + spec_decimal(n.size as nat) + ", \"modified_unix_ms\": "@ + spec_option_number(n.modified_unix_ms)
        + ", \"children\": "@ + spec_number_array(n.children@) + ", \"child_count\": "@
        + spec_decimal(n.child_count as nat) + ", \"truncated\": "@ + spec_bool(n.truncated) + "}"@
}

/// One issue of a snapshot as a JSON object on one line.
pub open spec fn issue_json(i: ScanIssue) -> Seq<char> {
    "    {\"path\": "@ + spec_quote(i.path@) + ", \"operation\": "@ + spec_quote(i.operation@) + ", \"message\": "@
        + spec_quote(i.message@) + "}"@
}

/// The separator after item `i` of `count`: a comma for all but the last.
pub open spec fn item_end(i: int, count: int) -> Seq<char> {
    if i + 1 == count { "\n"@ } else { ",\n"@ }
}

/// The first `k` nodes as JSON lines.
pub open spec fn node_lines(nodes: Seq<SnapshotNode>, k: nat) -> Seq<char>
    decreases k,
{
    if k == 0 {
        Seq::empty()
    } else {
        node_lines(nodes, (k - 1) as nat) + node_json(nodes[k - 1]) + item_end(k - 1, nodes.len() as int)
    }
}

/// The first `k` issues as JSON lines.
pub open spec fn issue_lines(issues: Seq<ScanIssue>, k: nat) -> Seq<char>
    decreases k,
{
    if k == 0 {
        Seq::empty()
    } else {
        issue_lines(issues, (k - 1) as nat) + issue_json(issues[k - 1]) + item_end(k - 1, issues.len() as int)
    }
}

/// The totals block that closes a snapshot's JSON.
pub open spec fn stats_json(s: ScanStats) -> Seq<char> {
    "  ],\n  \"stats\": {\n    \"scanned_nodes\": "@ + spec_decimal(s.scanned_nodes as nat)
        + ",\n    \"directory_count\": "@ + spec_decimal(s.directory_count as nat)
        + ",\n    \"file_count\": "@ + spec_decimal(s.file_count as nat)
        + ",\n    \"symlink_count\": "@ + spec_decimal(s.symlink_count as nat)
        + ",\n    \"other_count\": "@ + spec_decimal(s.other_count as nat)
        + ",\n    \"omitted_nodes\": "@ + spec_decimal(s.omitted_nodes as nat)
        + ",\n    \"issue_count\": "@ + spec_decimal(s.issue_count as nat)
        + ",\n    \"is_truncated\": "@ + spec_bool(s.is_truncated) + "\n  }\n}\n"@
}

/// A snapshot as indented JSON.
pub open spec fn snapshot_json(s: Snapshot) -> Seq<char> {
    "{\n"@ + "  \"root\": "@ + spec_quote(s.root@) + ",\n  \"generated_at_unix_ms\": "@
        + spec_decimal(s.generated_at_unix_ms as nat) + ",\n  \"nodes\": [\n"@
        + node_lines(s.nodes@, s.nodes@.len()) + "  ],\n  \"issues\": [\n"@
        + issue_lines(s.issues@, s.issues@.len()) + stats_json(s.stats)
}

fn node_to_json(n: &SnapshotNode) -> (s: String)
    ensures
        s@ == node_json(*n),
{
    let mut s = String::from_str("    {\"path\": ");
    push_str(&mut s, quote(n.path.as_str()).as_str());
    push_str(&mut s, ", \"name\": ");
    push_str(&mut s, quote(n.name.as_str()).as_str());
    push_str(&mut s, ", \"kind\": ");
    push_str(&mut s, quote(n.kind.as_str()).as_str());
    push_str(&mut s, ", \"depth\": ");
    push_str(&mut s, decimal_string(n.depth as u128).as_str());
    push_str(&mut s, ", \"size\": ");
    push_str(&mut s, decimal_string(n.size as u128).as_str());
    push_str(&mut s, ", \"modified_unix_ms\": ");
    push_str(&mut s, option_number(n.modified_unix_ms).as_str());
    push_str(&mut s, ", \"children\": ");
    push_str(&mut s, number_array(&n.children).as_str());
    push_str(&mut s, ", \"child_count\": ");
    push_str(&mut s, decimal_string(n.child_count as u128).as_str());
    push_str(&mut s, ", \"truncated\": ");
    push_str(&mut s, bool_text(n.truncated));
    push_str(&mut s, "}");
    s
}

fn issue_to_json(i: &ScanIssue) -> (s: String)
    ensures
        s@ == issue_json(*i),
{
    let mut s = String::from_str("    {\"path\": ");
    push_str(&mut s, quote(i.path.as_str()).as_str());
    push_str(&mut s, ", \"operation\": ");
    push_str(&mut s, quote(i.operation.as_str()).as_str());
    push_str(&mut s, ", \"message\": ");
    push_str(&mut s, quote(i.message.as_str()).as_str());
    push_str(&mut s, "}");
    s
}

fn stats_to_json(st: &ScanStats) -> (s: String)
    ensures
        s@ == stats_json(*st),
{
    let mut s = String::from_str("  ],\n  \"stats\": {\n    \"scanned_nodes\": ");
    push_str(&mut s, decimal_string(st.scanned_nodes as u128).as_str());
    push_str(&mut s, ",\n    \"directory_count\": ");
    push_str(&mut s, decimal_string(st.directory_count as u128).as_str());
    push_str(&mut s, ",\n    \"file_count\": ");
    push_str(&mut s, decimal_string(st.file_count as u128).as_str());
    push_str(&mut s, ",\n    \"symlink_count\": ");
    push_str(&mut s, decimal_string(st.symlink_count as u128).as_str());
    push_str(&mut s, ",\n    \"other_count\": ");
    push_str(&mut s, decimal_string(st.other_count as u128).as_str());
    push_str(&mut s, ",\n    \"omitted_nodes\": ");
    push_str(&mut s, decimal_string(st.omitted_nodes as u128).as_str());
    push_str(&mut s, ",\n    \"issue_count\": ");
    push_str(&mut s, decimal_string(st.issue_count as u128).as_str());
    push_str(&mut s, ",\n    \"is_truncated\": ");
    push_str(&mut s, bool_text(st.is_truncated));
    push_str(&mut s, "\n  }\n}\n");
    s
}

impl Snapshot {
    /// The snapshot as indented JSON, one node or issue per line.
    pub fn to_json_pretty(&self) -> (json: String)
        ensures
            json@ == snapshot_json(*self),
    {
        let mut json = String::from_str("{\n");
        push_str(&mut json, "  \"root\": ");
        push_str(&mut json, quote(self.root.as_str()).as_str());
        push_str(&mut json, ",\n  \"generated_at_unix_ms\": ");
        push_str(&mut json, decimal_string(self.generated_at_unix_ms).as_str());
        push_str(&mut json, ",\n  \"nodes\": [\n");
        let ghost head = json@;
        let mut i: usize = 0;
        while i < self.nodes.len()
            invariant
                i <= self.nodes@.len(),
                json@ == head + node_lines(self.nodes@, i as nat),
            decreases self.nodes@.len() - i,
        {
            push_str(&mut json, node_to_json(&self.nodes[i]).as_str());
            if i + 1 == self.nodes.len() {
                push_str(&mut json, "\n");
            } else {
                push_str(&mut json, ",\n");
            }
            proof {
                assert(json@ =~= head + node_lines(self.nodes@, (i + 1) as nat));
            }
            i = i + 1;
        }
        push_str(&mut json, "  ],\n  \"issues\": [\n");
        let ghost mid = json@;
        let mut k: usize = 0;
        while k < self.issues.len()
            invariant
                k <= self.issues@.len(),
                json@ == mid + issue_lines(self.issues@, k as nat),
            decreases self.issues@.len() - k,
        {
            push_str(&mut json, issue_to_json(&self.issues[k]).as_str());
            if k + 1 == self.issues.len() {
                push_str(&mut json, "\n");
            } else {
                push_str(&mut json, ",\n");
            }
            proof {
                assert(json@ =~= mid + issue_lines(self.issues@, (k + 1) as nat));
            }
            k = k + 1;
        }
        push_str(&mut json, stats_to_json(&self.stats).as_str());
        proof {
            assert(json@ =~= snapshot_json(*self));
        }
        json
    }
}

} // verus!

verus! {

/// The character a short JSON escape `\x` stands for, if `x` names one.
pub open spec fn short_escape_value(x: char) -> Option<char> {
    if x == '"' || x == '\\' || x == '/' {
        Some(x)
    } else if x == 'n' {
        Some('\n')
    } else if x == 'r' {
        Some('\r')
    } else if x == 't' {
        Some('\t')
    } else if x == 'b' {
        Some('\u{8}')
    } else if x == 'f' {
        Some('\u{c}')
    } else {
        None
    }
}

/// A hexadecimal digit, in either case.
pub open spec fn is_hex_digit(d: char) -> bool {
    ('0' <= d && d <= '9') || ('a' <= d && d <= 'f') || ('A' <= d && d <= 'F')
}

/// The value of a hexadecimal digit.
pub open spec fn hex_value(d: char) -> int {
    if '0' <= d && d <= '9' {
        d as int - 48
    } else if 'a' <= d && d <= 'f' {
        d as int - 87
    } else {
        d as int - 55
    }
}

/// The value of the four hexadecimal digits that open `t`.
pub open spec fn hex4_value(t: Seq<char>) -> int {
    hex_value(t[0]) * 4096 + hex_value(t[1]) * 256 + hex_value(t[2]) * 16 + hex_value(t[3])
}

/// Reads the rest of a JSON string literal, just after its opening quote,
/// as RFC 8259 has it: the characters it stands for, and how many characters
/// of `t` it takes up to and including its closing quote. `None` where `t`
/// ends first, holds a raw control character, or an escape that is not one
/// (a `\u` escape is read as the character with that code).
pub open spec fn read_json_string(t: Seq<char>) -> Option<(Seq<char>, nat)>
    decreases t.len(),
{
    if t.len() == 0 {
        None
    } else if t[0] == '"' {
        Some((Seq::empty(), 1))
    } else if t[0] == '\\' {
        if t.len() >= 6 && t[1] == 'u' {
            if is_hex_digit(t[2]) && is_hex_digit(t[3]) && is_hex_digit(t[4]) && is_hex_digit(t[5]) {
                match read_json_string(t.skip(6)) {
                    Some((rest, n)) => Some((seq![hex4_value(t.subrange(2, 6)) as char] + rest, n + 6)),
                    None => None,
                }
            } else {
                None
            }
        } else if t.len() >= 2 && short_escape_value(t[1]) is Some {
            match read_json_string(t.skip(2)) {
                Some((rest, n)) => Some((seq![short_escape_value(t[1])->0] + rest, n + 2)),
                None => None,
            }
        } else {
            None
        }
    } else if (t[0] as u32) < 0x20 {
        None
    } else {
        match read_json_string(t.skip(1)) {
            Some((rest, n)) => Some((seq![t[0]] + rest, n + 1)),
            None => None,
        }
    }
}

/// The value of a run of decimal digits.
pub open spec fn decimal_value(t: Seq<char>) -> int
    decreases t.len(),
{
    if t.len() == 0 {
        0
    } else {
        decimal_value(t.drop_last()) * 10 + (t.last() as int - 48)
    }
}

/// The JSON form of a number reads back as that number: one or more decimal
/// digits, with no leading zero unless the number is zero, whose value is
/// the number.
pub proof fn law_json_numbers_read_back(n: nat)
    ensures
        spec_decimal(n).len() > 0,
        forall|i: int| 0 <= i < spec_decimal(n).len() ==> '0' <= #[trigger] spec_decimal(n)[i] <= '9',
        spec_decimal(n)[0] == '0' ==> n == 0,
        decimal_value(spec_decimal(n)) == n,
    decreases n,
{
    if n >= 10 {
        law_json_numbers_read_back(n / 10);
        let d = spec_digits(n / 10, 10);
        assert(spec_decimal(n) == d.push(digit_char(n % 10)));
        assert(spec_decimal(n).drop_last() =~= d);
        assert(spec_decimal(n)[0] == d[0]);
        assert forall|i: int| 0 <= i < spec_decimal(n).len() implies '0' <= #[trigger] spec_decimal(n)[i] <= '9' by {
            if i < d.len() {
                assert(spec_decimal(n)[i] == d[i]);
            }
        }
        assert(digit_char(n % 10) as int == 48 + n % 10);
        assert(decimal_value(spec_decimal(n)) == decimal_value(d) * 10 + (digit_char(n % 10) as int - 48));
        assert((n / 10) * 10 + n % 10 == n);
        assert(decimal_value(d) == n / 10);
        assert(decimal_value(spec_decimal(n)) == n);
    } else {
        assert(spec_decimal(n) =~= seq![digit_char(n)]);
        assert(spec_decimal(n).drop_last() =~= Seq::<char>::empty());
        assert(digit_char(n) as int == 48 + n);
        assert(decimal_value(Seq::<char>::empty()) == 0);
        assert(decimal_value(spec_decimal(n)) == n);
    }
}

/// `escape_all` read from the front: the first character's escape, then
/// the rest's.
proof fn lemma_escape_front(s: Seq<char>)
    requires
        s.len() > 0,
    ensures
        escape_all(s) == escape_char(s[0]) + escape_all(s.skip(1)),
    decreases s.len(),
{
    if s.len() == 1 {
        assert(s.drop_last() =~= Seq::<char>::empty());
        assert(s.skip(1) =~= Seq::<char>::empty());
        assert(escape_all(s.skip(1)) =~= Seq::<char>::empty());
        assert(escape_all(s) =~= escape_char(s[0]));
    } else {
        let t = s.drop_last();
        lemma_escape_front(t);
        assert(t.skip(1) =~= s.skip(1).drop_last());
        assert(s.skip(1).last() == s.last());
        assert(escape_all(s) =~= escape_char(s[0]) + escape_all(s.skip(1)));
    }
}

/// A digit written by `digit_char` reads back as its value.
proof fn lemma_hex_digit(d: nat)
    requires
        d < 16,
    ensures
        is_hex_digit(digit_char(d)),
        hex_value(digit_char(d)) == d,
{
}

/// The `\u` escape of a control character reads back as that character.
proof fn lemma_control_escape(c: char)
    requires
        is_control(c),
        !(c == '\n' || c == '\r' || c == '\t'),
    ensures
        escape_char(c).len() == 6,
        escape_char(c)[0] == '\\',
        escape_char(c)[1] == 'u',
        is_hex_digit(escape_char(c)[2]) && is_hex_digit(escape_char(c)[3]),
        is_hex_digit(escape_char(c)[4]) && is_hex_digit(escape_char(c)[5]),
        hex4_value(escape_char(c).subrange(2, 6)) as char == c,
{
    let code = (c as u32) as nat;
    let digits = spec_lower_hex(code);
    let e = escape_char(c);
    assert(e == seq!['\\', 'u'] + zero_pad(digits, 4));
    lemma_hex_digit(0);
    if code < 16 {
        assert(digits =~= seq![digit_char(code)]);
        lemma_hex_digit(code);
        assert(zero_pad(digits, 4) =~= seq![digit_char(0), digit_char(0), digit_char(0), digit_char(code)]);
    } else {
        assert(code / 16 < 16);
        assert(spec_digits(code / 16, 16) =~= seq![digit_char(code / 16)]);
        assert(digits =~= seq![digit_char(code / 16), digit_char(code % 16)]);
        lemma_hex_digit(code / 16);
        lemma_hex_digit(code % 16);
        assert(zero_pad(digits, 4) =~= seq![digit_char(0), digit_char(0), digit_char(code / 16), digit_char(code % 16)]);
    }
    assert(hex4_value(e.subrange(2, 6)) == code);
}

/// One escaped character, then more text, reads as that character and then
/// as the text would.
proof fn lemma_read_one(c: char, rest: Seq<char>)
    ensures
        read_json_string(escape_char(c) + rest) == match read_json_string(rest) {
            Some((r, n)) => Some((seq![c] + r, n + escape_char(c).len())),
            None => None::<(Seq<char>, nat)>,
        },
{
    let t = escape_char(c) + rest;
    let k = escape_char(c).len();
    assert(t.skip(k as int) =~= rest);
    if is_control(c) && !(c == '\n' || c == '\r' || c == '\t') {
        lemma_control_escape(c);
        assert(t.subrange(2, 6) =~= escape_char(c).subrange(2, 6));
    }
}

/// The JSON form of a string reads back as that string: after the opening
/// quote, a reader that follows RFC 8259 gives back exactly `s` and stops at
/// the closing quote, whatever follows it.
pub proof fn law_json_strings_read_back(s: Seq<char>, tail: Seq<char>)
    ensures
        read_json_string(escape_all(s) + seq!['"'] + tail) == Some((s, escape_all(s).len() + 1)),
    decreases s.len(),
{
    if s.len() == 0 {
        assert(escape_all(s) + seq!['"'] + tail =~= seq!['"'] + tail);
        assert(s =~= Seq::<char>::empty());
    } else {
        lemma_escape_front(s);
        law_json_strings_read_back(s.skip(1), tail);
        let rest = escape_all(s.skip(1)) + seq!['"'] + tail;
        assert(escape_all(s) + seq!['"'] + tail =~= escape_char(s[0]) + rest);
        lemma_read_one(s[0], rest);
        assert(seq![s[0]] + s.skip(1) =~= s);
    }
}

} // verus!
