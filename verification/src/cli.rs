//! Reading the command lines of the snapshot tool and the storage
//! benchmark.

use vstd::prelude::*;
use crate::text::chars_of;

verus! {

/// The value of a decimal digit character.
pub open spec fn digit_value(c: char) -> int {
    (c as u32) - ('0' as u32)
}

/// Every character of `s` is an ASCII digit.
pub open spec fn all_digits(s: Seq<char>) -> bool {
    forall|i: int| 0 <= i < s.len() ==> '0' <= #[trigger] s[i] <= '9'
}

/// The number written by the decimal digits `s`.
pub open spec fn decimal_value(s: Seq<char>) -> int
    decreases s.len(),
{
    if s.len() == 0 {
        0
    } else {
        decimal_value(s.drop_last()) * 10 + digit_value(s.last())
    }
}

/// The count that `text` writes as `usize` parsing reads it: an optional
/// `+`, then at least one decimal digit, with a value that fits.
pub open spec fn spec_parse_count(text: Seq<char>) -> Option<usize> {
    let digits = if text.len() > 0 && text[0] == '+' { text.skip(1) } else { text };
    if digits.len() > 0 && all_digits(digits) && decimal_value(digits) <= usize::MAX {
        Some(decimal_value(digits) as usize)
    } else {
        None
    }
}

proof fn lemma_decimal_grows(s: Seq<char>, c: char)
    requires
        all_digits(s),
        '0' <= c <= '9',
    ensures
        decimal_value(s.push(c)) == decimal_value(s) * 10 + digit_value(c),
        decimal_value(s) >= 0,
    decreases s.len(),
{
    assert(s.push(c).drop_last() =~= s);
    if s.len() > 0 {
        assert(all_digits(s.drop_last()));
        lemma_decimal_grows(s.drop_last(), s.last());
        assert(s.drop_last().push(s.last()) =~= s);
    }
}

/// Reads a count; see `spec_parse_count`.
pub fn parse_count(text: &str) -> (r: Option<usize>)
    ensures
        r == spec_parse_count(text@),
{
    let chars = chars_of(text);
    let start: usize = if chars.len() > 0 && chars[0] == '+' { 1 } else { 0 };
    let ghost digits = if text@.len() > 0 && text@[0] == '+' { text@.skip(1) } else { text@ };
    if start >= chars.len() {
        proof {
            assert(digits.len() == 0);
        }
        return None;
    }
    let mut value: usize = 0;
    let mut i: usize = start;
    proof {
        assert(digits.subrange(0, 0) =~= Seq::<char>::empty());
    }
    while i < chars.len()
        invariant
            chars@ == text@,
            start <= i <= chars@.len(),
            digits == chars@.skip(start as int),
            digits == (if text@.len() > 0 && text@[0] == '+' { text@.skip(1) } else { text@ }),
            all_digits(digits.subrange(0, i - start)),
            value == decimal_value(digits.subrange(0, i - start)),
        decreases chars@.len() - i,
    {
        let c = chars[i];
        if c < '0' || c > '9' {
            proof {
                assert(digits[i - start] == c);
                assert(!('0' <= digits[i - start] <= '9'));
                assert(!all_digits(digits));
            }
            return None;
        }
        let d = ((c as u32) - 48) as usize;
        proof {
            let prefix = digits.subrange(0, i - start);
            assert(digits.subrange(0, i - start + 1) =~= prefix.push(c));
            lemma_decimal_grows(prefix, c);
        }
        if value > (usize::MAX - d) / 10 {
            proof {
                let prefix = digits.subrange(0, i - start);
                assert(value * 10 + d > usize::MAX) by (nonlinear_arith)
                    requires
                        value > (usize::MAX - d) / 10,
                        d <= 9,
                ;
                let rest = digits.subrange(0, i - start + 1);
                assert(rest =~= prefix.push(c));
                assert(all_digits(rest));
                assert(decimal_value(rest) > usize::MAX);
                lemma_value_monotone(digits, (i - start + 1) as int);
                assert(all_digits(digits) ==> decimal_value(digits) > usize::MAX);
            }
            return None;
        }
        proof {
            assert(value * 10 + d <= usize::MAX) by (nonlinear_arith)
                requires
                    value <= (usize::MAX - d) / 10,
                    d <= 9,
            ;
        }
        value = value * 10 + d;
        i = i + 1;
    }
    proof {
        assert(digits.subrange(0, i - start) =~= digits);
    }
    Some(value)
}

/// Once the digits read so far exceed a bound, all the digits do too.
proof fn lemma_value_monotone(digits: Seq<char>, k: int)
    requires
        0 <= k <= digits.len(),
        all_digits(digits.subrange(0, k)),
    ensures
        all_digits(digits) ==> decimal_value(digits) >= decimal_value(digits.subrange(0, k)),
    decreases digits.len() - k,
{
    if k < digits.len() && all_digits(digits) {
        assert(digits.subrange(0, k + 1) =~= digits.subrange(0, k).push(digits[k]));
        lemma_decimal_grows(digits.subrange(0, k), digits[k]);
        lemma_value_monotone(digits, k + 1);
    } else if k == digits.len() {
        assert(digits.subrange(0, k) =~= digits);
    }
}

/// The position of the first `name` among `args` that has an argument
/// after it.
pub open spec fn option_position(args: Seq<String>, name: Seq<char>) -> Option<int>
    decreases args.len(),
{
    if args.len() < 2 {
        None
    } else {
        match option_position(args.drop_last(), name) {
            Some(i) => Some(i),
            None => if args[args.len() - 2]@ == name { Some(args.len() - 2) } else { None },
        }
    }
}

/// The argument following the first `name` that has one.
pub fn option_value(args: &Vec<String>, name: &str) -> (r: Option<String>)
    ensures
        match option_position(args@, name@) {
            Some(i) => r is Some && r->0@ == args@[i + 1]@,
            None => r is None,
        },
{
    let wanted = String::from_str(name);
    let n = args.len();
    if n < 2 {
        return None;
    }
    let mut i: usize = 0;
    while i < n - 1
        invariant
            wanted@ == name@,
            n == args@.len(),
            n >= 2,
            i + 1 <= n,
            option_position(args@.subrange(0, i as int + 1), name@) is None,
        decreases args@.len() - i,
    {
        proof {
            let t = args@.subrange(0, i + 2);
            assert(t.drop_last() =~= args@.subrange(0, i as int + 1));
        }
        if args[i] == wanted {
            proof {
                lemma_option_position_extends(args@, name@, i as int + 2);
            }
            return Some(args[i + 1].clone());
        }
        i = i + 1;
    }
    proof {
        assert(args@.subrange(0, i as int + 1) =~= args@);
    }
    None
}

/// A position found in a prefix is the position in the whole.
proof fn lemma_option_position_extends(args: Seq<String>, name: Seq<char>, k: int)
    requires
        2 <= k <= args.len(),
        option_position(args.subrange(0, k), name) is Some,
    ensures
        option_position(args, name) == option_position(args.subrange(0, k), name),
    decreases args.len() - k,
{
    if k < args.len() {
        assert(args.subrange(0, k + 1).drop_last() =~= args.subrange(0, k));
        lemma_option_position_extends(args, name, k + 1);
    } else {
        assert(args.subrange(0, k) =~= args);
    }
}

/// What the snapshot tool was asked to do.
#[derive(Debug)]
pub enum SnapshotRequest {
    /// Print the usage; exit with this code.
    Help(u8),
    /// Snapshot `root` within these limits, to `output` or standard output.
    Scan {
        root: String,
        max_nodes: usize,
        max_children: usize,
        output: Option<String>,
    },
}

/// A numeric option's value where it is given and reads as a count, else
/// `default`.
pub open spec fn count_option(args: Seq<String>, name: Seq<char>, default: usize) -> usize {
    match option_position(args, name) {
        Some(i) => match spec_parse_count(args[i + 1]@) {
            Some(n) => n,
            None => default,
        },
        None => default,
    }
}

fn count_or(args: &Vec<String>, name: &str, default: usize) -> (n: usize)
    ensures
        n == count_option(args@, name@, default),
{
    match option_value(args, name) {
        Some(v) => match parse_count(v.as_str()) {
            Some(n) => n,
            None => default,
        },
        None => default,
    }
}

/// `--help` or `-h` is among `args`.
pub open spec fn asks_help(args: Seq<String>) -> bool {
    exists|i: int| 0 <= i < args.len() && (#[trigger] args[i]@ == "--help"@ || args[i]@ == "-h"@)
}

/// Reads the snapshot tool's arguments (without the program name): with
/// none, usage and exit code two; with `--help` or `-h`, usage and exit
/// code zero; otherwise the folder first, `--max-nodes` (default 1600),
/// `--max-children` (default 180) and `--output`.
pub fn snapshot_request(args: &Vec<String>) -> (r: SnapshotRequest)
    ensures
        args@.len() == 0 ==> r == SnapshotRequest::Help(2),
        args@.len() > 0 && asks_help(args@) ==> r == SnapshotRequest::Help(0),
        args@.len() > 0 && !asks_help(args@) ==> match r {
            SnapshotRequest::Scan { root, max_nodes, max_children, output } => {
                &&& root@ == args@[0]@
                &&& max_nodes == count_option(args@, "--max-nodes"@, 1600)
                &&& max_children == count_option(args@, "--max-children"@, 180)
                &&& match option_position(args@, "--output"@) {
                    Some(i) => output is Some && output->0@ == args@[i + 1]@,
                    None => output is None,
                }
            },
            SnapshotRequest::Help(_) => false,
        },
{
    if args.len() == 0 {
        return SnapshotRequest::Help(2);
    }
    let help = String::from_str("--help");
    let short = String::from_str("-h");
    let mut i: usize = 0;
    while i < args.len()
        invariant
            help@ == "--help"@,
            short@ == "-h"@,
            i <= args@.len(),
            forall|j: int| 0 <= j < i ==> !(#[trigger] args@[j]@ == "--help"@ || args@[j]@ == "-h"@),
        decreases args@.len() - i,
    {
        if args[i] == help || args[i] == short {
            return SnapshotRequest::Help(0);
        }
        i = i + 1;
    }
    SnapshotRequest::Scan {
        root: args[0].clone(),
        max_nodes: count_or(args, "--max-nodes", 1600),
        max_children: count_or(args, "--max-children", 180),
        output: option_value(args, "--output"),
    }
}

/// The position of the first argument that reads as a count.
pub open spec fn first_count(args: Seq<String>) -> Option<int>
    decreases args.len(),
{
    if args.len() == 0 {
        None
    } else {
        match first_count(args.drop_last()) {
            Some(i) => Some(i),
            None => if spec_parse_count(args.last()@) is Some { Some(args.len() - 1) } else { None },
        }
    }
}

/// The number of rows the storage benchmark inserts: the first argument
/// that reads as a count, else one hundred thousand.
pub fn benchmark_rows(args: &Vec<String>) -> (rows: usize)
    ensures
        rows == match first_count(args@) {
            Some(i) => spec_parse_count(args@[i]@)->0,
            None => 100_000,
        },
{
    let mut i: usize = 0;
    while i < args.len()
        invariant
            i <= args@.len(),
            first_count(args@.subrange(0, i as int)) is None,
        decreases args@.len() - i,
    {
        proof {
            assert(args@.subrange(0, i + 1).drop_last() =~= args@.subrange(0, i as int));
        }
        match parse_count(args[i].as_str()) {
            Some(n) => {
                proof {
                    lemma_first_count_extends(args@, i as int + 1);
                }
                return n;
            },
            None => {},
        }
        i = i + 1;
    }
    proof {
        assert(args@.subrange(0, i as int) =~= args@);
    }
    100_000
}

proof fn lemma_first_count_extends(args: Seq<String>, k: int)
    requires
        1 <= k <= args.len(),
        first_count(args.subrange(0, k)) is Some,
    ensures
        first_count(args) == first_count(args.subrange(0, k)),
    decreases args.len() - k,
{
    if k < args.len() {
        assert(args.subrange(0, k + 1).drop_last() =~= args.subrange(0, k));
        lemma_first_count_extends(args, k + 1);
    } else {
        assert(args.subrange(0, k) =~= args);
    }
}

} // verus!
