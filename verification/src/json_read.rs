//! Reading JSON text back into values, as RFC 8259 has it for the values
//! this library writes (numbers are non-negative integers), and the law
//! that a snapshot's JSON reads back as its fields.

use vstd::prelude::*;
use crate::models::{
    decimal_value, escape_all, escape_char, is_control, law_json_numbers_read_back, law_json_strings_read_back,
    issue_json, issue_lines, snapshot_json, stats_json, item_end, node_json, node_lines, number_list, read_json_string, spec_bool, spec_number_array, spec_option_number, spec_quote,
    ScanIssue, ScanStats, Snapshot, SnapshotNode,
};
use crate::text::spec_decimal;

verus! {

/// A JSON value.
pub enum JsonValue {
    Null,
    Bool(bool),
    Number(nat),
    Text(Seq<char>),
    Array(Seq<JsonValue>),
    Object(Seq<(Seq<char>, JsonValue)>),
}

/// Whitespace between JSON tokens.
pub open spec fn is_json_space(c: char) -> bool {
    c == ' ' || c == '\n' || c == '\r' || c == '\t'
}

/// A decimal digit.
pub open spec fn is_digit(c: char) -> bool {
    '0' <= c && c <= '9'
}

/// `t` without the whitespace it starts with.
pub open spec fn skip_space(t: Seq<char>) -> Seq<char>
    decreases t.len(),
{
    if t.len() > 0 && is_json_space(t[0]) {
        skip_space(t.skip(1))
    } else {
        t
    }
}

/// How many decimal digits `t` starts with.
pub open spec fn digits_len(t: Seq<char>) -> nat
    decreases t.len(),
{
    if t.len() > 0 && is_digit(t[0]) {
        1 + digits_len(t.skip(1))
    } else {
        0
    }
}

/// Reads one value after optional whitespace: the value and the text after
/// it, or `None` where `t` does not start with one.
#[verifier::opaque]
pub open spec fn read_value(t: Seq<char>) -> Option<(JsonValue, Seq<char>)>
    decreases t.len(), 0nat,
{
    let u = skip_space(t);
    if u.len() == 0 || u.len() > t.len() {
        None
    } else if u[0] == '"' {
        match read_json_string(u.skip(1)) {
            Some((s, n)) => if n <= u.len() - 1 { Some((JsonValue::Text(s), u.skip(1 + n as int))) } else { None },
            None => None,
        }
    } else if u[0] == '[' {
        read_array(u.skip(1))
    } else if u[0] == '{' {
        read_object(u.skip(1))
    } else if is_digit(u[0]) {
        let k = digits_len(u);
        if u[0] == '0' && k > 1 || k > u.len() {
            None
        } else {
            Some((JsonValue::Number(decimal_value(u.subrange(0, k as int)) as nat), u.skip(k as int)))
        }
    } else if u.len() >= 4 && u.subrange(0, 4) == seq!['n', 'u', 'l', 'l'] {
        Some((JsonValue::Null, u.skip(4)))
    } else if u.len() >= 4 && u.subrange(0, 4) == seq!['t', 'r', 'u', 'e'] {
        Some((JsonValue::Bool(true), u.skip(4)))
    } else if u.len() >= 5 && u.subrange(0, 5) == seq!['f', 'a', 'l', 's', 'e'] {
        Some((JsonValue::Bool(false), u.skip(5)))
    } else {
        None
    }
}

/// Reads the rest of an array, just after its `[`.
pub open spec fn read_array(t: Seq<char>) -> Option<(JsonValue, Seq<char>)>
    decreases t.len(), 2nat,
{
    let u = skip_space(t);
    if u.len() > 0 && u.len() <= t.len() && u[0] == ']' {
        Some((JsonValue::Array(Seq::empty()), u.skip(1)))
    } else {
        match read_elements(t) {
            Some((items, rest)) => Some((JsonValue::Array(items), rest)),
            None => None,
        }
    }
}

/// Reads one or more array elements and the closing `]`.
pub open spec fn read_elements(t: Seq<char>) -> Option<(Seq<JsonValue>, Seq<char>)>
    decreases t.len(), 1nat,
{
    match read_value(t) {
        Some((v, r)) => {
            let w = skip_space(r);
            if w.len() == 0 || w.len() >= t.len() {
                None
            } else if w[0] == ']' {
                Some((seq![v], w.skip(1)))
            } else if w[0] == ',' {
                match read_elements(w.skip(1)) {
                    Some((more, rest)) => Some((seq![v] + more, rest)),
                    None => None,
                }
            } else {
                None
            }
        },
        None => None,
    }
}

/// Reads the rest of an object, just after its `{`.
pub open spec fn read_object(t: Seq<char>) -> Option<(JsonValue, Seq<char>)>
    decreases t.len(), 2nat,
{
    let u = skip_space(t);
    if u.len() > 0 && u.len() <= t.len() && u[0] == '}' {
        Some((JsonValue::Object(Seq::empty()), u.skip(1)))
    } else {
        match read_members(t) {
            Some((members, rest)) => Some((JsonValue::Object(members), rest)),
            None => None,
        }
    }
}

/// Reads one or more members `"key": value` and the closing `}`.
pub open spec fn read_members(t: Seq<char>) -> Option<(Seq<(Seq<char>, JsonValue)>, Seq<char>)>
    decreases t.len(), 1nat,
{
    let u = skip_space(t);
    if u.len() == 0 || u.len() > t.len() || u[0] != '"' {
        None
    } else {
        match read_json_string(u.skip(1)) {
            Some((key, n)) => {
                let c = skip_space(u.skip(1 + n as int));
                if n > u.len() - 1 || c.len() == 0 || c.len() >= t.len() || c[0] != ':' {
                    None
                } else {
                    match read_value(c.skip(1)) {
                        Some((v, r)) => {
                            let w = skip_space(r);
                            if w.len() == 0 || w.len() >= t.len() {
                                None
                            } else if w[0] == '}' {
                                Some((seq![(key, v)], w.skip(1)))
                            } else if w[0] == ',' {
                                match read_members(w.skip(1)) {
                                    Some((more, rest)) => Some((seq![(key, v)] + more, rest)),
                                    None => None,
                                }
                            } else {
                                None
                            }
                        },
                        None => None,
                    }
                }
            },
            None => None,
        }
    }
}

/// Leading whitespace is skipped over.
proof fn lemma_skip_spaces(w: Seq<char>, r: Seq<char>)
    requires
        forall|i: int| 0 <= i < w.len() ==> is_json_space(#[trigger] w[i]),
    ensures
        skip_space(w + r) == skip_space(r),
    decreases w.len(),
{
    if w.len() > 0 {
        let x = w.skip(1);
        assert forall|i: int| 0 <= i < x.len() implies is_json_space(#[trigger] x[i]) by {
            assert(x[i] == w[i + 1]);
        }
        lemma_skip_spaces(x, r);
        assert((w + r).skip(1) =~= x + r);
    } else {
        assert(w + r =~= r);
    }
}

/// Skipping whitespace never lengthens the text.
proof fn lemma_skip_shorter(t: Seq<char>)
    ensures
        skip_space(t).len() <= t.len(),
    decreases t.len(),
{
    if t.len() > 0 && is_json_space(t[0]) {
        lemma_skip_shorter(t.skip(1));
    }
}

/// `vt` is the text of `v`: read with any text after it that does not go
/// on with a digit, it gives `v` and leaves that text.
pub open spec fn reads_back(vt: Seq<char>, v: JsonValue) -> bool {
    forall|r: Seq<char>| (r.len() == 0 || !is_digit(r[0])) ==> #[trigger] read_value(vt + r) == Some((v, r))
}

/// A string literal reads back as its text.
pub proof fn lemma_reads_text(x: Seq<char>)
    ensures
        reads_back(spec_quote(x), JsonValue::Text(x)),
{
    reveal(read_value);
    assert forall|r: Seq<char>| (r.len() == 0 || !is_digit(r[0])) implies #[trigger] read_value(spec_quote(x) + r)
        == Some((JsonValue::Text(x), r)) by {
        let t = spec_quote(x) + r;
        assert(t[0] == '"');
        let body = escape_all(x) + seq!['"'] + r;
        assert(t.skip(1) =~= body);
        law_json_strings_read_back(x, r);
        let n = escape_all(x).len() + 1;
        assert(t.skip(1 + n as int) =~= r);
    }
}

/// Digits followed by a non-digit: as many digits as there are.
proof fn lemma_digits_len(d: Seq<char>, r: Seq<char>)
    requires
        forall|i: int| 0 <= i < d.len() ==> is_digit(#[trigger] d[i]),
        r.len() == 0 || !is_digit(r[0]),
    ensures
        digits_len(d + r) == d.len(),
    decreases d.len(),
{
    if d.len() > 0 {
        let x = d.skip(1);
        assert forall|i: int| 0 <= i < x.len() implies is_digit(#[trigger] x[i]) by {
            assert(x[i] == d[i + 1]);
        }
        lemma_digits_len(x, r);
        assert((d + r).skip(1) =~= x + r);
    } else {
        assert(d + r =~= r);
    }
}

/// A number reads back as itself.
pub proof fn lemma_reads_number(n: nat)
    ensures
        reads_back(spec_decimal(n), JsonValue::Number(n)),
{
    reveal(read_value);
    let d = spec_decimal(n);
    law_json_numbers_read_back(n);
    assert forall|i: int| 0 <= i < d.len() implies is_digit(#[trigger] d[i]) by {}
    if d[0] == '0' {
        assert(d.len() == 1);
    }
    assert forall|r: Seq<char>| (r.len() == 0 || !is_digit(r[0])) implies #[trigger] read_value(spec_decimal(n) + r)
        == Some((JsonValue::Number(n), r)) by {
        let t = d + r;
        lemma_digits_len(d, r);
        assert(t[0] == d[0]);
        assert(t.subrange(0, d.len() as int) =~= d);
        assert(t.skip(d.len() as int) =~= r);
    }
}

/// Whitespace before a value changes nothing of how it reads.
proof fn lemma_value_spaces(w: Seq<char>, y: Seq<char>)
    requires
        forall|i: int| 0 <= i < w.len() ==> is_json_space(#[trigger] w[i]),
    ensures
        read_value(w + y) == read_value(y),
{
    reveal(read_value);
    lemma_skip_spaces(w, y);
    lemma_skip_shorter(y);
}

/// `true` and `false` read back as themselves.
pub proof fn lemma_reads_bool(b: bool)
    ensures
        reads_back(spec_bool(b), JsonValue::Bool(b)),
{
    reveal(read_value);
    reveal_strlit("true");
    reveal_strlit("false");
    assert forall|r: Seq<char>| (r.len() == 0 || !is_digit(r[0])) implies #[trigger] read_value(spec_bool(b) + r)
        == Some((JsonValue::Bool(b), r)) by {
        let t = spec_bool(b) + r;
        if b {
            assert(t.subrange(0, 4) =~= seq!['t', 'r', 'u', 'e']);
            assert(t.skip(4) =~= r);
        } else {
            assert(t.subrange(0, 5) =~= seq!['f', 'a', 'l', 's', 'e']);
            assert(t.subrange(0, 4) != seq!['n', 'u', 'l', 'l']) by {
                assert(t.subrange(0, 4)[0] == 'f');
            }
            assert(t.subrange(0, 4) != seq!['t', 'r', 'u', 'e']) by {
                assert(t.subrange(0, 4)[0] == 'f');
            }
            assert(t.skip(5) =~= r);
        }
    }
}

/// A number that may be absent reads back as the number, or as `null`.
pub proof fn lemma_reads_option_number(o: Option<u128>)
    ensures
        reads_back(spec_option_number(o), match o {
            Some(n) => JsonValue::Number(n as nat),
            None => JsonValue::Null,
        }),
{
    reveal(read_value);
    match o {
        Some(n) => lemma_reads_number(n as nat),
        None => {
            reveal_strlit("null");
            assert forall|r: Seq<char>| (r.len() == 0 || !is_digit(r[0])) implies #[trigger] read_value(
                spec_option_number(o) + r) == Some((JsonValue::Null, r)) by {
                let t = spec_option_number(o) + r;
                assert(t.subrange(0, 4) =~= seq!['n', 'u', 'l', 'l']);
                assert(t.skip(4) =~= r);
            }
        },
    }
}

/// The numbers of a list, as JSON values.
pub open spec fn number_values(v: Seq<usize>) -> Seq<JsonValue> {
    v.map_values(|x: usize| JsonValue::Number(x as nat))
}

/// A list of numbers read from the front: the first, then `, ` and the rest.
proof fn lemma_number_list_front(v: Seq<usize>)
    requires
        v.len() > 1,
    ensures
        number_list(v) == spec_decimal(v[0] as nat) + ", "@ + number_list(v.skip(1)),
    decreases v.len(),
{
    if v.len() == 2 {
        assert(v.drop_last().len() == 1);
        assert(v.skip(1).len() == 1);
        assert(v.skip(1)[0] == v.last());
        assert(number_list(v.skip(1)) == spec_decimal(v.last() as nat));
        assert(number_list(v.drop_last()) == spec_decimal(v[0] as nat));
    } else {
        let t = v.drop_last();
        lemma_number_list_front(t);
        assert(t.skip(1) =~= v.skip(1).drop_last());
        assert(v.skip(1).last() == v.last());
        assert(v.skip(1).len() > 1);
        assert(number_list(v) =~= spec_decimal(v[0] as nat) + ", "@ + number_list(v.skip(1)));
    }
}

/// The elements of a number array, after its `[` and any whitespace.
proof fn lemma_reads_number_elements(w: Seq<char>, v: Seq<usize>, r: Seq<char>)
    requires
        v.len() > 0,
        forall|i: int| 0 <= i < w.len() ==> is_json_space(#[trigger] w[i]),
    ensures
        read_elements(w + number_list(v) + seq![']'] + r) == Some((number_values(v), r)),
    decreases v.len(),
{
    reveal(read_value);
    reveal_strlit(", ");
    let t = w + number_list(v) + seq![']'] + r;
    let d = spec_decimal(v[0] as nat);
    lemma_reads_number(v[0] as nat);
    law_json_numbers_read_back(v[0] as nat);
    if v.len() == 1 {
        let x = seq![']'] + r;
        assert(t =~= w + (d + x));
        lemma_value_spaces(w, d + x);
        assert(read_value(d + x) == Some((JsonValue::Number(v[0] as nat), x)));
        assert(skip_space(x) == x);
        assert(x.skip(1) =~= r);
        assert(number_values(v) =~= seq![JsonValue::Number(v[0] as nat)]);
    } else {
        lemma_number_list_front(v);
        let tail = v.skip(1);
        let x = ", "@ + number_list(tail) + seq![']'] + r;
        assert(t =~= w + (d + x));
        lemma_value_spaces(w, d + x);
        assert(x[0] == ',');
        assert(read_value(d + x) == Some((JsonValue::Number(v[0] as nat), x)));
        assert(skip_space(x) == x);
        let sp = seq![' '];
        assert(x.skip(1) =~= sp + number_list(tail) + seq![']'] + r);
        lemma_reads_number_elements(sp, tail, r);
        assert(number_values(v) =~= seq![JsonValue::Number(v[0] as nat)] + number_values(tail));
    }
}

/// A number array reads back as the numbers.
pub proof fn lemma_reads_number_array(v: Seq<usize>)
    ensures
        reads_back(spec_number_array(v), JsonValue::Array(number_values(v))),
{
    reveal(read_value);
    reveal_strlit("[");
    reveal_strlit("]");
    assert forall|r: Seq<char>| (r.len() == 0 || !is_digit(r[0])) implies #[trigger] read_value(
        spec_number_array(v) + r) == Some((JsonValue::Array(number_values(v)), r)) by {
        let t = spec_number_array(v) + r;
        assert(t[0] == '[');
        if v.len() == 0 {
            assert(number_list(v) == Seq::<char>::empty());
            assert(t.skip(1) =~= seq![']'] + r);
            assert(skip_space(t.skip(1)) == t.skip(1));
            assert(t.skip(1).skip(1) =~= r);
            assert(number_values(v) =~= Seq::<JsonValue>::empty());
        } else {
            let e = Seq::<char>::empty();
            assert(t.skip(1) =~= e + number_list(v) + seq![']'] + r);
            lemma_reads_number_elements(e, v, r);
            law_json_numbers_read_back(v[0] as nat);
            if v.len() > 1 {
                lemma_number_list_front(v);
            }
            assert(t.skip(1)[0] == spec_decimal(v[0] as nat)[0]);
            assert(skip_space(t.skip(1)) == t.skip(1));
        }
    }
}

/// All of `w` is whitespace.
pub open spec fn all_space(w: Seq<char>) -> bool {
    forall|i: int| 0 <= i < w.len() ==> is_json_space(#[trigger] w[i])
}

/// The text of the members of an object from member `i` on, and its `}`.
/// A member is whitespace, its key as a JSON string, `:`, whitespace, the
/// text of its value, and whitespace before the `,` or `}` that follows.
pub open spec fn members_text(
    ms: Seq<(Seq<char>, Seq<char>, Seq<char>, Seq<char>, JsonValue, Seq<char>)>,
    i: int,
) -> Seq<char>
    decreases ms.len() - i,
{
    if i < 0 || i >= ms.len() {
        seq!['}']
    } else {
        let m = ms[i];
        m.0 + spec_quote(m.1) + seq![':'] + m.2 + m.3 + m.5 + if i + 1 < ms.len() {
            seq![','] + members_text(ms, i + 1)
        } else {
            seq!['}']
        }
    }
}

/// The keys and values of the members from `i` on.
pub open spec fn member_values(
    ms: Seq<(Seq<char>, Seq<char>, Seq<char>, Seq<char>, JsonValue, Seq<char>)>,
    i: int,
) -> Seq<(Seq<char>, JsonValue)> {
    ms.subrange(i, ms.len() as int).map_values(|m: (Seq<char>, Seq<char>, Seq<char>, Seq<char>, JsonValue, Seq<char>)|
        (m.1, m.4))
}

/// Members whose gaps are whitespace and whose value texts read back.
pub open spec fn members_ok(ms: Seq<(Seq<char>, Seq<char>, Seq<char>, Seq<char>, JsonValue, Seq<char>)>) -> bool {
    forall|k: int| 0 <= k < ms.len() ==> {
        &&& all_space((#[trigger] ms[k]).0)
        &&& all_space(ms[k].2)
        &&& all_space(ms[k].5)
        &&& reads_back(ms[k].3, ms[k].4)
    }
}

/// One member, then the `,` or `}` after it.
proof fn lemma_one_member(
    pre: Seq<char>,
    key: Seq<char>,
    gap: Seq<char>,
    vt: Seq<char>,
    v: JsonValue,
    post: Seq<char>,
    rest: Seq<char>,
)
    requires
        all_space(pre),
        all_space(gap),
        all_space(post),
        reads_back(vt, v),
        rest.len() > 0,
        rest[0] == ',' || rest[0] == '}',
    ensures
        ({
            let t = pre + spec_quote(key) + seq![':'] + gap + vt + post + rest;
            &&& rest[0] == '}' ==> read_members(t) == Some((seq![(key, v)], rest.skip(1)))
            &&& rest[0] == ',' ==> read_members(t) == match read_members(rest.skip(1)) {
                Some((more, rr)) => Some((seq![(key, v)] + more, rr)),
                None => None,
            }
        }),
{
    reveal(read_value);
    let t = pre + spec_quote(key) + seq![':'] + gap + vt + post + rest;
    let after_key = seq![':'] + gap + vt + post + rest;
    let u = seq!['"'] + (escape_all(key) + seq!['"'] + after_key);
    assert(t =~= pre + u);
    lemma_skip_spaces(pre, u);
    assert(skip_space(u) == u);
    assert(u.skip(1) =~= escape_all(key) + seq!['"'] + after_key);
    law_json_strings_read_back(key, after_key);
    let n = escape_all(key).len() + 1;
    assert(u.skip(1 + n as int) =~= after_key);
    assert(skip_space(after_key) == after_key);
    let x = post + rest;
    assert(after_key.skip(1) =~= gap + (vt + x));
    lemma_value_spaces(gap, vt + x);
    if post.len() > 0 {
        assert(x[0] == post[0]);
    } else {
        assert(x[0] == rest[0]);
    }
    assert(read_value(vt + x) == Some((v, x)));
    lemma_skip_spaces(post, rest);
    assert(skip_space(rest) == rest);
    lemma_skip_shorter(rest);
}

/// Members read back as their keys and values.
proof fn lemma_reads_members(
    ms: Seq<(Seq<char>, Seq<char>, Seq<char>, Seq<char>, JsonValue, Seq<char>)>,
    i: int,
    r: Seq<char>,
)
    requires
        0 <= i < ms.len(),
        members_ok(ms),
    ensures
        read_members(members_text(ms, i) + r) == Some((member_values(ms, i), r)),
    decreases ms.len() - i,
{
    let m = ms[i];
    let last = i + 1 >= ms.len();
    let tail = if !last { seq![','] + members_text(ms, i + 1) } else { seq!['}'] };
    assert(members_text(ms, i) + r =~= m.0 + spec_quote(m.1) + seq![':'] + m.2 + m.3 + m.5 + (tail + r));
    lemma_one_member(m.0, m.1, m.2, m.3, m.4, m.5, tail + r);
    let mv = member_values(ms, i);
    if last {
        assert((tail + r).skip(1) =~= r);
        assert(mv =~= seq![(m.1, m.4)]);
    } else {
        lemma_reads_members(ms, i + 1, r);
        assert((tail + r).skip(1) =~= members_text(ms, i + 1) + r);
        assert(mv =~= seq![(m.1, m.4)] + member_values(ms, i + 1));
    }
}

/// An object reads back as its members.
pub proof fn lemma_reads_object(
    w: Seq<char>,
    ms: Seq<(Seq<char>, Seq<char>, Seq<char>, Seq<char>, JsonValue, Seq<char>)>,
)
    requires
        all_space(w),
        ms.len() > 0,
        members_ok(ms),
    ensures
        reads_back(w + seq!['{'] + members_text(ms, 0), JsonValue::Object(member_values(ms, 0))),
{
    reveal(read_value);
    assert forall|r: Seq<char>| (r.len() == 0 || !is_digit(r[0])) implies #[trigger] read_value(
        w + seq!['{'] + members_text(ms, 0) + r) == Some((JsonValue::Object(member_values(ms, 0)), r)) by {
        let body = members_text(ms, 0) + r;
        assert(w + seq!['{'] + members_text(ms, 0) + r =~= w + (seq!['{'] + body));
        lemma_value_spaces(w, seq!['{'] + body);
        assert((seq!['{'] + body).skip(1) =~= body);
        lemma_reads_members(ms, 0, r);
        let m = ms[0];
        assert(all_space(m.0));
        lemma_skip_spaces(m.0, body.skip(m.0.len() as int));
        assert(body =~= m.0 + body.skip(m.0.len() as int));
        assert(body.skip(m.0.len() as int)[0] == '"');
        assert(skip_space(body.skip(m.0.len() as int)) == body.skip(m.0.len() as int));
        lemma_skip_shorter(body);
    }
}

/// The text of the elements of an array from element `i` on, and its `]`.
/// An element is whitespace, the text of its value, and whitespace before
/// the `,` or `]` that follows.
pub open spec fn elements_text(es: Seq<(Seq<char>, Seq<char>, JsonValue, Seq<char>)>, i: int) -> Seq<char>
    decreases es.len() - i,
{
    if i < 0 || i >= es.len() {
        seq![']']
    } else {
        let e = es[i];
        e.0 + e.1 + e.3 + if i + 1 < es.len() {
            seq![','] + elements_text(es, i + 1)
        } else {
            seq![']']
        }
    }
}

/// The values of the elements from `i` on.
pub open spec fn element_values(es: Seq<(Seq<char>, Seq<char>, JsonValue, Seq<char>)>, i: int) -> Seq<JsonValue> {
    es.subrange(i, es.len() as int).map_values(|e: (Seq<char>, Seq<char>, JsonValue, Seq<char>)| e.2)
}

/// Elements whose gaps are whitespace and whose value texts read back.
pub open spec fn elements_ok(es: Seq<(Seq<char>, Seq<char>, JsonValue, Seq<char>)>) -> bool {
    forall|k: int| 0 <= k < es.len() ==> {
        &&& all_space((#[trigger] es[k]).0)
        &&& all_space(es[k].3)
        &&& reads_back(es[k].1, es[k].2)
    }
}

/// One element, then the `,` or `]` after it.
proof fn lemma_one_element(lead: Seq<char>, vt: Seq<char>, v: JsonValue, post: Seq<char>, rest: Seq<char>)
    requires
        all_space(lead),
        all_space(post),
        reads_back(vt, v),
        rest.len() > 0,
        rest[0] == ',' || rest[0] == ']',
    ensures
        ({
            let t = lead + vt + post + rest;
            &&& rest[0] == ']' ==> read_elements(t) == Some((seq![v], rest.skip(1)))
            &&& rest[0] == ',' ==> read_elements(t) == match read_elements(rest.skip(1)) {
                Some((more, rr)) => Some((seq![v] + more, rr)),
                None => None,
            }
        }),
{
    reveal(read_value);
    let t = lead + vt + post + rest;
    let x = post + rest;
    assert(t =~= lead + (vt + x));
    lemma_value_spaces(lead, vt + x);
    if post.len() > 0 {
        assert(x[0] == post[0]);
    } else {
        assert(x[0] == rest[0]);
    }
    assert(read_value(vt + x) == Some((v, x)));
    lemma_skip_spaces(post, rest);
    assert(skip_space(rest) == rest);
    lemma_skip_shorter(rest);
    assert(t.len() > rest.len()) by {
        assert(vt.len() > 0) by {
            if vt.len() == 0 {
                assert(read_value(vt + x) == read_value(x));
                assert(vt + x =~= x);
                lemma_skip_spaces(post, rest);
            }
        }
    }
}

/// Elements read back as their values.
proof fn lemma_reads_elements(es: Seq<(Seq<char>, Seq<char>, JsonValue, Seq<char>)>, i: int, r: Seq<char>)
    requires
        0 <= i < es.len(),
        elements_ok(es),
    ensures
        read_elements(elements_text(es, i) + r) == Some((element_values(es, i), r)),
    decreases es.len() - i,
{
    let e = es[i];
    let last = i + 1 >= es.len();
    let tail = if !last { seq![','] + elements_text(es, i + 1) } else { seq![']'] };
    assert(elements_text(es, i) + r =~= e.0 + e.1 + e.3 + (tail + r));
    lemma_one_element(e.0, e.1, e.2, e.3, tail + r);
    let ev = element_values(es, i);
    if last {
        assert((tail + r).skip(1) =~= r);
        assert(ev =~= seq![e.2]);
    } else {
        lemma_reads_elements(es, i + 1, r);
        assert((tail + r).skip(1) =~= elements_text(es, i + 1) + r);
        assert(ev =~= seq![e.2] + element_values(es, i + 1));
    }
}

/// An array reads back as its elements.
#[verifier::spinoff_prover]
#[verifier::rlimit(100)]
pub proof fn lemma_reads_array(es: Seq<(Seq<char>, Seq<char>, JsonValue, Seq<char>)>)
    requires
        es.len() > 0,
        elements_ok(es),
    ensures
        reads_back(seq!['['] + elements_text(es, 0), JsonValue::Array(element_values(es, 0))),
{
    reveal(read_value);
    assert forall|r: Seq<char>| (r.len() == 0 || !is_digit(r[0])) implies #[trigger] read_value(
        seq!['['] + elements_text(es, 0) + r) == Some((JsonValue::Array(element_values(es, 0)), r)) by {
        let t = seq!['['] + elements_text(es, 0) + r;
        let body = elements_text(es, 0) + r;
        assert(t.skip(1) =~= body);
        lemma_reads_elements(es, 0, r);
        let e = es[0];
        let after = e.1 + e.3 + if 1 < es.len() { seq![','] + elements_text(es, 1) } else { seq![']'] } + r;
        assert(body =~= e.0 + after);
        lemma_skip_spaces(e.0, after);
        assert(skip_space(body) == skip_space(after));
        let tail = if 1 < es.len() { seq![','] + elements_text(es, 1) } else { seq![']'] };
        let x = e.3 + tail + r;
        assert(after =~= e.1 + x);
        if e.3.len() > 0 {
            assert(x[0] == e.3[0]);
        } else {
            assert(x[0] == tail[0]);
        }
        assert(read_value(e.1 + x) is Some);
        let u = skip_space(after);
        if u.len() > 0 && u[0] == ']' {
            assert(u.subrange(0, 4)[0] == ']' || u.len() < 4);
            assert(u.subrange(0, 5)[0] == ']' || u.len() < 5);
            assert(read_value(after) is None);
        }
    }
}

/// An empty array, with whitespace inside, reads back as empty.
pub proof fn lemma_reads_empty_array(w: Seq<char>)
    requires
        all_space(w),
    ensures
        reads_back(seq!['['] + w + seq![']'], JsonValue::Array(Seq::empty())),
{
    reveal(read_value);
    assert forall|r: Seq<char>| (r.len() == 0 || !is_digit(r[0])) implies #[trigger] read_value(
        seq!['['] + w + seq![']'] + r) == Some((JsonValue::Array(Seq::empty()), r)) by {
        let t = seq!['['] + w + seq![']'] + r;
        assert(t.skip(1) =~= w + (seq![']'] + r));
        lemma_skip_spaces(w, seq![']'] + r);
        assert(skip_space(seq![']'] + r) == seq![']'] + r);
        lemma_skip_shorter(t.skip(1));
        assert((seq![']'] + r).skip(1) =~= r);
    }
}

/// A text with no quote, backslash or control character is written as it
/// stands inside a JSON string.
proof fn lemma_escape_plain(x: Seq<char>)
    requires
        forall|i: int| 0 <= i < x.len() ==> (#[trigger] x[i]) != '"' && x[i] != '\\' && !is_control(x[i]),
    ensures
        escape_all(x) == x,
    decreases x.len(),
{
    if x.len() > 0 {
        let y = x.drop_last();
        assert forall|i: int| 0 <= i < y.len() implies (#[trigger] y[i]) != '"' && y[i] != '\\' && !is_control(y[i]) by {
            assert(y[i] == x[i]);
        }
        lemma_escape_plain(y);
        assert(x.last() == x[x.len() - 1]);
        assert(escape_char(x.last()) == seq![x.last()]);
        assert(x =~= y.push(x.last()));
    }
}

/// `"key"` for a key written as it stands.
proof fn lemma_plain_key(key: Seq<char>)
    requires
        forall|i: int| 0 <= i < key.len() ==> ('a' <= #[trigger] key[i] && key[i] <= 'z') || key[i] == '_',
    ensures
        spec_quote(key) == seq!['"'] + key + seq!['"'],
{
    assert forall|i: int| 0 <= i < key.len() implies (#[trigger] key[i]) != '"' && key[i] != '\\'
        && !is_control(key[i]) by {}
    lemma_escape_plain(key);
}

/// The JSON value of a node.
pub open spec fn node_value(n: SnapshotNode) -> JsonValue {
    JsonValue::Object(seq![
        ("path"@, JsonValue::Text(n.path@)),
        ("name"@, JsonValue::Text(n.name@)),
        ("kind"@, JsonValue::Text(n.kind.spec_name())),
        ("depth"@, JsonValue::Number(n.depth as nat)),
        ("size"@, JsonValue::Number(n.size as nat)),
        ("modified_unix_ms"@, match n.modified_unix_ms {
            Some(t) => JsonValue::Number(t as nat),
            None => JsonValue::Null,
        }),
        ("children"@, JsonValue::Array(number_values(n.children@))),
        ("child_count"@, JsonValue::Number(n.child_count as nat)),
        ("truncated"@, JsonValue::Bool(n.truncated)),
    ])
}

/// The members of a node's JSON line.
spec fn node_members(n: SnapshotNode) -> Seq<(Seq<char>, Seq<char>, Seq<char>, Seq<char>, JsonValue, Seq<char>)> {
    let e = Seq::<char>::empty();
    let sp = seq![' '];
    seq![
        (e, "path"@, sp, spec_quote(n.path@), JsonValue::Text(n.path@), e),
        (sp, "name"@, sp, spec_quote(n.name@), JsonValue::Text(n.name@), e),
        (sp, "kind"@, sp, spec_quote(n.kind.spec_name()), JsonValue::Text(n.kind.spec_name()), e),
        (sp, "depth"@, sp, spec_decimal(n.depth as nat), JsonValue::Number(n.depth as nat), e),
        (sp, "size"@, sp, spec_decimal(n.size as nat), JsonValue::Number(n.size as nat), e),
        (sp, "modified_unix_ms"@, sp, spec_option_number(n.modified_unix_ms), match n.modified_unix_ms {
            Some(t) => JsonValue::Number(t as nat),
            None => JsonValue::Null,
        }, e),
        (sp, "children"@, sp, spec_number_array(n.children@), JsonValue::Array(number_values(n.children@)), e),
        (sp, "child_count"@, sp, spec_decimal(n.child_count as nat), JsonValue::Number(n.child_count as nat), e),
        (sp, "truncated"@, sp, spec_bool(n.truncated), JsonValue::Bool(n.truncated), e),
    ]
}

/// A separator fragment `, "key": ` of an inline object.
spec fn inline_head(key: Seq<char>) -> Seq<char> {
    seq![','] + seq![' '] + spec_quote(key) + seq![':'] + seq![' ']
}

/// The fixed fragments of a node's JSON line, taken apart.
proof fn lemma_node_fragments()
    ensures
        "    {\"path\": "@ == seq![' ', ' ', ' ', ' '] + seq!['{'] + spec_quote("path"@) + seq![':'] + seq![' '],
        ", \"name\": "@ == inline_head("name"@),
        ", \"kind\": "@ == inline_head("kind"@),
        ", \"depth\": "@ == inline_head("depth"@),
        ", \"size\": "@ == inline_head("size"@),
        ", \"modified_unix_ms\": "@ == inline_head("modified_unix_ms"@),
        ", \"children\": "@ == inline_head("children"@),
        ", \"child_count\": "@ == inline_head("child_count"@),
        ", \"truncated\": "@ == inline_head("truncated"@),
        "}"@ == seq!['}'],
{
    reveal_strlit("    {\"path\": ");
    reveal_strlit(", \"name\": ");
    reveal_strlit(", \"kind\": ");
    reveal_strlit(", \"depth\": ");
    reveal_strlit(", \"size\": ");
    reveal_strlit(", \"modified_unix_ms\": ");
    reveal_strlit(", \"children\": ");
    reveal_strlit(", \"child_count\": ");
    reveal_strlit(", \"truncated\": ");
    reveal_strlit("}");
    reveal_strlit("path");
    reveal_strlit("name");
    reveal_strlit("kind");
    reveal_strlit("depth");
    reveal_strlit("size");
    reveal_strlit("modified_unix_ms");
    reveal_strlit("children");
    reveal_strlit("child_count");
    reveal_strlit("truncated");
    lemma_plain_key("path"@);
    lemma_plain_key("name"@);
    lemma_plain_key("kind"@);
    lemma_plain_key("depth"@);
    lemma_plain_key("size"@);
    lemma_plain_key("modified_unix_ms"@);
    lemma_plain_key("children"@);
    lemma_plain_key("child_count"@);
    lemma_plain_key("truncated"@);
    assert("    {\"path\": "@ =~= seq![' ', ' ', ' ', ' '] + seq!['{'] + spec_quote("path"@) + seq![':'] + seq![' ']);
    assert(", \"name\": "@ =~= inline_head("name"@));
    assert(", \"kind\": "@ =~= inline_head("kind"@));
    assert(", \"depth\": "@ =~= inline_head("depth"@));
    assert(", \"size\": "@ =~= inline_head("size"@));
    assert(", \"modified_unix_ms\": "@ =~= inline_head("modified_unix_ms"@));
    assert(", \"children\": "@ =~= inline_head("children"@));
    assert(", \"child_count\": "@ =~= inline_head("child_count"@));
    assert(", \"truncated\": "@ =~= inline_head("truncated"@));
}

/// Moving one inline member into the members that follow it.
proof fn lemma_inline_shift(a: Seq<char>, key: Seq<char>, v: Seq<char>, rest: Seq<char>)
    ensures
        a + inline_head(key) + v + rest
            == a + (seq![','] + (seq![' '] + spec_quote(key) + seq![':'] + seq![' '] + v + Seq::<char>::empty() + rest)),
{
    assert(a + inline_head(key) + v + rest
        =~= a + (seq![','] + (seq![' '] + spec_quote(key) + seq![':'] + seq![' '] + v + Seq::<char>::empty() + rest)));
}

/// The members of a node's JSON line, one at a time.
#[verifier::spinoff_prover]
#[verifier::rlimit(100)]
proof fn lemma_node_members_text(n: SnapshotNode)
    ensures
        node_json(n) == seq![' ', ' ', ' ', ' '] + seq!['{'] + members_text(node_members(n), 0),
{
    lemma_node_fragments();
    let ms = node_members(n);
    let sp = seq![' '];
    let e = Seq::<char>::empty();
    let v0 = spec_quote(n.path@);
    let v1 = spec_quote(n.name@);
    let v2 = spec_quote(n.kind.spec_name());
    let v3 = spec_decimal(n.depth as nat);
    let v4 = spec_decimal(n.size as nat);
    let v5 = spec_option_number(n.modified_unix_ms);
    let v6 = spec_number_array(n.children@);
    let v7 = spec_decimal(n.child_count as nat);
    let v8 = spec_bool(n.truncated);
    let l0 = seq![' ', ' ', ' ', ' '] + seq!['{'] + spec_quote("path"@) + seq![':'] + sp;
    let a1 = l0 + v0;
    let a2 = a1 + inline_head("name"@) + v1;
    let a3 = a2 + inline_head("kind"@) + v2;
    let a4 = a3 + inline_head("depth"@) + v3;
    let a5 = a4 + inline_head("size"@) + v4;
    let a6 = a5 + inline_head("modified_unix_ms"@) + v5;
    let a7 = a6 + inline_head("children"@) + v6;
    let a8 = a7 + inline_head("child_count"@) + v7;
    assert(node_json(n) == a8 + inline_head("truncated"@) + v8 + seq!['}']);
    let t8 = members_text(ms, 8);
    assert(t8 == sp + spec_quote("truncated"@) + seq![':'] + sp + v8 + e + seq!['}']);
    lemma_inline_shift(a8, "truncated"@, v8, seq!['}']);
    let t7 = members_text(ms, 7);
    assert(t7 == sp + spec_quote("child_count"@) + seq![':'] + sp + v7 + e + (seq![','] + t8));
    lemma_inline_shift(a7, "child_count"@, v7, seq![','] + t8);
    let t6 = members_text(ms, 6);
    assert(t6 == sp + spec_quote("children"@) + seq![':'] + sp + v6 + e + (seq![','] + t7));
    lemma_inline_shift(a6, "children"@, v6, seq![','] + t7);
    let t5 = members_text(ms, 5);
    assert(t5 == sp + spec_quote("modified_unix_ms"@) + seq![':'] + sp + v5 + e + (seq![','] + t6));
    lemma_inline_shift(a5, "modified_unix_ms"@, v5, seq![','] + t6);
    let t4 = members_text(ms, 4);
    assert(t4 == sp + spec_quote("size"@) + seq![':'] + sp + v4 + e + (seq![','] + t5));
    lemma_inline_shift(a4, "size"@, v4, seq![','] + t5);
    let t3 = members_text(ms, 3);
    assert(t3 == sp + spec_quote("depth"@) + seq![':'] + sp + v3 + e + (seq![','] + t4));
    lemma_inline_shift(a3, "depth"@, v3, seq![','] + t4);
    let t2 = members_text(ms, 2);
    assert(t2 == sp + spec_quote("kind"@) + seq![':'] + sp + v2 + e + (seq![','] + t3));
    lemma_inline_shift(a2, "kind"@, v2, seq![','] + t3);
    let t1 = members_text(ms, 1);
    assert(t1 == sp + spec_quote("name"@) + seq![':'] + sp + v1 + e + (seq![','] + t2));
    lemma_inline_shift(a1, "name"@, v1, seq![','] + t2);
    let t0 = members_text(ms, 0);
    assert(t0 == e + spec_quote("path"@) + seq![':'] + sp + v0 + e + (seq![','] + t1));
    assert(a1 + (seq![','] + t1) =~= seq![' ', ' ', ' ', ' '] + seq!['{'] + t0);
}

/// The members of a node's JSON line each read back.
#[verifier::spinoff_prover]
proof fn lemma_node_members_ok(n: SnapshotNode)
    ensures
        members_ok(node_members(n)),
{
    let ms = node_members(n);
    lemma_reads_text(n.path@);
    lemma_reads_text(n.name@);
    lemma_reads_text(n.kind.spec_name());
    lemma_reads_number(n.depth as nat);
    lemma_reads_number(n.size as nat);
    lemma_reads_option_number(n.modified_unix_ms);
    lemma_reads_number_array(n.children@);
    lemma_reads_number(n.child_count as nat);
    lemma_reads_bool(n.truncated);
    assert(all_space(Seq::<char>::empty()));
    assert(all_space(seq![' ']));
    assert forall|k: int| 0 <= k < ms.len() implies {
        &&& all_space((#[trigger] ms[k]).0)
        &&& all_space(ms[k].2)
        &&& all_space(ms[k].5)
        &&& reads_back(ms[k].3, ms[k].4)
    } by {
        if k == 0 {
        } else if k == 1 {
        } else if k == 2 {
        } else if k == 3 {
        } else if k == 4 {
        } else if k == 5 {
        } else if k == 6 {
        } else if k == 7 {
        } else {
        }
    }
}

/// A node's JSON line reads back as the node's fields.
pub proof fn lemma_reads_node(n: SnapshotNode)
    ensures
        reads_back(node_json(n), node_value(n)),
{
    lemma_node_members_text(n);
    lemma_node_members_ok(n);
    assert(all_space(seq![' ', ' ', ' ', ' ']));
    lemma_reads_object(seq![' ', ' ', ' ', ' '], node_members(n));
    let ms = node_members(n);
    assert(member_values(ms, 0) =~= match node_value(n) {
        JsonValue::Object(m) => m,
        _ => Seq::empty(),
    });
}

/// The first `k` of `count` lines, each a text and the end of its line.
pub open spec fn lines_upto(texts: Seq<Seq<char>>, k: nat, count: int) -> Seq<char>
    decreases k,
{
    if k == 0 {
        Seq::empty()
    } else {
        lines_upto(texts, (k - 1) as nat, count) + texts[k - 1] + item_end(k - 1, count)
    }
}

/// The lines from `i` on.
pub open spec fn lines_from(texts: Seq<Seq<char>>, i: int) -> Seq<char>
    decreases texts.len() - i,
{
    if i < 0 || i >= texts.len() {
        Seq::empty()
    } else {
        texts[i] + item_end(i, texts.len() as int) + lines_from(texts, i + 1)
    }
}

/// Lines built from the back are the lines read from the front.
proof fn lemma_lines_front(texts: Seq<Seq<char>>, k: nat)
    requires
        k <= texts.len(),
    ensures
        lines_upto(texts, k, texts.len() as int) + lines_from(texts, k as int) == lines_from(texts, 0),
    decreases k,
{
    if k == 0 {
        assert(Seq::<char>::empty() + lines_from(texts, 0) =~= lines_from(texts, 0));
    } else {
        lemma_lines_front(texts, (k - 1) as nat);
        let a = lines_upto(texts, (k - 1) as nat, texts.len() as int);
        assert(lines_upto(texts, k, texts.len() as int) + lines_from(texts, k as int)
            =~= a + lines_from(texts, k - 1));
    }
}

/// The elements of an array written one per line, each after a newline,
/// the last one followed by a newline and two spaces of indent.
pub open spec fn line_elements(texts: Seq<Seq<char>>, values: Seq<JsonValue>) -> Seq<(Seq<char>, Seq<char>, JsonValue, Seq<char>)> {
    Seq::new(texts.len(), |i: int| (
        seq!['\n'],
        texts[i],
        values[i],
        if i + 1 < texts.len() { Seq::<char>::empty() } else { seq!['\n', ' ', ' '] },
    ))
}

/// Lines from `i` on, closed by `  ]`, are the elements from `i` on.
proof fn lemma_lines_elements(texts: Seq<Seq<char>>, values: Seq<JsonValue>, i: int)
    requires
        0 <= i < texts.len(),
        values.len() == texts.len(),
    ensures
        seq!['\n'] + lines_from(texts, i) + seq![' ', ' ', ']'] == elements_text(line_elements(texts, values), i),
    decreases texts.len() - i,
{
    reveal_strlit("\n");
    reveal_strlit(",\n");
    let es = line_elements(texts, values);
    if i + 1 < texts.len() {
        lemma_lines_elements(texts, values, i + 1);
        assert(item_end(i, texts.len() as int) == seq![','] + seq!['\n']);
        assert(seq!['\n'] + lines_from(texts, i) + seq![' ', ' ', ']']
            =~= es[i].0 + es[i].1 + es[i].3 + (seq![','] + elements_text(es, i + 1)));
    } else {
        assert(item_end(i, texts.len() as int) == seq!['\n']);
        assert(lines_from(texts, i + 1) == Seq::<char>::empty());
        assert(seq!['\n'] + lines_from(texts, i) + seq![' ', ' ', ']']
            =~= es[i].0 + es[i].1 + es[i].3 + seq![']']);
    }
}

/// An array written one element per line reads back as its elements.
pub proof fn lemma_reads_lines(texts: Seq<Seq<char>>, values: Seq<JsonValue>)
    requires
        values.len() == texts.len(),
        forall|i: int| 0 <= i < texts.len() ==> reads_back(#[trigger] texts[i], values[i]),
    ensures
        reads_back(seq!['[', '\n'] + lines_upto(texts, texts.len(), texts.len() as int) + seq![' ', ' ', ']'],
            JsonValue::Array(values)),
{
    let text = seq!['[', '\n'] + lines_upto(texts, texts.len(), texts.len() as int) + seq![' ', ' ', ']'];
    lemma_lines_front(texts, texts.len());
    assert(lines_from(texts, texts.len() as int) == Seq::<char>::empty());
    assert(lines_upto(texts, texts.len(), texts.len() as int) =~= lines_from(texts, 0));
    if texts.len() == 0 {
        assert(text =~= seq!['['] + seq!['\n', ' ', ' '] + seq![']']);
        assert(all_space(seq!['\n', ' ', ' ']));
        lemma_reads_empty_array(seq!['\n', ' ', ' ']);
        assert(values =~= Seq::<JsonValue>::empty());
    } else {
        let es = line_elements(texts, values);
        lemma_lines_elements(texts, values, 0);
        assert(text =~= seq!['['] + elements_text(es, 0));
        assert(all_space(seq!['\n']));
        assert(all_space(seq!['\n', ' ', ' ']));
        assert(all_space(Seq::<char>::empty()));
        assert forall|k: int| 0 <= k < es.len() implies {
            &&& all_space((#[trigger] es[k]).0)
            &&& all_space(es[k].3)
            &&& reads_back(es[k].1, es[k].2)
        } by {
            assert(reads_back(texts[k], values[k]));
        }
        lemma_reads_array(es);
        assert(element_values(es, 0) =~= values);
    }
}

/// A snapshot's node lines are lines of node texts.
proof fn lemma_node_lines(nodes: Seq<SnapshotNode>, k: nat)
    requires
        k <= nodes.len(),
    ensures
        node_lines(nodes, k) == lines_upto(nodes.map_values(|n: SnapshotNode| node_json(n)), k, nodes.len() as int),
    decreases k,
{
    if k > 0 {
        lemma_node_lines(nodes, (k - 1) as nat);
    }
}

/// The JSON value of an issue.
pub open spec fn issue_value(i: ScanIssue) -> JsonValue {
    JsonValue::Object(seq![
        ("path"@, JsonValue::Text(i.path@)),
        ("operation"@, JsonValue::Text(i.operation@)),
        ("message"@, JsonValue::Text(i.message@)),
    ])
}

/// The members of an issue's JSON line.
spec fn issue_members(i: ScanIssue) -> Seq<(Seq<char>, Seq<char>, Seq<char>, Seq<char>, JsonValue, Seq<char>)> {
    let e = Seq::<char>::empty();
    let sp = seq![' '];
    seq![
        (e, "path"@, sp, spec_quote(i.path@), JsonValue::Text(i.path@), e),
        (sp, "operation"@, sp, spec_quote(i.operation@), JsonValue::Text(i.operation@), e),
        (sp, "message"@, sp, spec_quote(i.message@), JsonValue::Text(i.message@), e),
    ]
}

/// An issue's JSON line reads back as the issue's fields.
#[verifier::spinoff_prover]
#[verifier::rlimit(100)]
pub proof fn lemma_reads_issue(i: ScanIssue)
    ensures
        reads_back(issue_json(i), issue_value(i)),
{
    lemma_node_fragments();
    reveal_strlit(", \"operation\": ");
    reveal_strlit(", \"message\": ");
    reveal_strlit("operation");
    reveal_strlit("message");
    lemma_plain_key("operation"@);
    lemma_plain_key("message"@);
    assert(", \"operation\": "@ =~= inline_head("operation"@));
    assert(", \"message\": "@ =~= inline_head("message"@));
    let ms = issue_members(i);
    let sp = seq![' '];
    let e = Seq::<char>::empty();
    let v0 = spec_quote(i.path@);
    let v1 = spec_quote(i.operation@);
    let v2 = spec_quote(i.message@);
    let a1 = seq![' ', ' ', ' ', ' '] + seq!['{'] + spec_quote("path"@) + seq![':'] + sp + v0;
    let a2 = a1 + inline_head("operation"@) + v1;
    assert(issue_json(i) == a2 + inline_head("message"@) + v2 + seq!['}']);
    let t2 = members_text(ms, 2);
    assert(t2 == sp + spec_quote("message"@) + seq![':'] + sp + v2 + e + seq!['}']);
    lemma_inline_shift(a2, "message"@, v2, seq!['}']);
    let t1 = members_text(ms, 1);
    assert(t1 == sp + spec_quote("operation"@) + seq![':'] + sp + v1 + e + (seq![','] + t2));
    lemma_inline_shift(a1, "operation"@, v1, seq![','] + t2);
    let t0 = members_text(ms, 0);
    assert(t0 == e + spec_quote("path"@) + seq![':'] + sp + v0 + e + (seq![','] + t1));
    assert(issue_json(i) =~= seq![' ', ' ', ' ', ' '] + seq!['{'] + t0);
    lemma_reads_text(i.path@);
    lemma_reads_text(i.operation@);
    lemma_reads_text(i.message@);
    assert(all_space(e));
    assert(all_space(sp));
    assert forall|k: int| 0 <= k < ms.len() implies {
        &&& all_space((#[trigger] ms[k]).0)
        &&& all_space(ms[k].2)
        &&& all_space(ms[k].5)
        &&& reads_back(ms[k].3, ms[k].4)
    } by {
        if k == 0 {
        } else if k == 1 {
        } else {
        }
    }
    assert(all_space(seq![' ', ' ', ' ', ' ']));
    lemma_reads_object(seq![' ', ' ', ' ', ' '], ms);
    assert(member_values(ms, 0) =~= match issue_value(i) {
        JsonValue::Object(m) => m,
        _ => Seq::empty(),
    });
}

/// A snapshot's issue lines are lines of issue texts.
proof fn lemma_issue_lines(issues: Seq<ScanIssue>, k: nat)
    requires
        k <= issues.len(),
    ensures
        issue_lines(issues, k) == lines_upto(issues.map_values(|i: ScanIssue| issue_json(i)), k, issues.len() as int),
    decreases k,
{
    if k > 0 {
        lemma_issue_lines(issues, (k - 1) as nat);
    }
}

/// A member's head on a line of its own: a newline, the indent, the key,
/// `:` and a space.
spec fn line_head(indent: Seq<char>, key: Seq<char>) -> Seq<char> {
    seq!['\n'] + indent + spec_quote(key) + seq![':'] + seq![' ']
}

/// Two spaces of indent.
spec fn indent2() -> Seq<char> {
    seq![' ', ' ']
}

/// Four spaces of indent.
spec fn indent4() -> Seq<char> {
    seq![' ', ' ', ' ', ' ']
}

/// The fixed fragments of a snapshot's JSON, taken apart.
#[verifier::spinoff_prover]
#[verifier::rlimit(100)]
proof fn lemma_document_fragments()
    ensures
        "{\n"@ + "  \"root\": "@ == seq!['{'] + line_head(indent2(), "root"@),
        ",\n  \"generated_at_unix_ms\": "@ == seq![','] + line_head(indent2(), "generated_at_unix_ms"@),
        ",\n  \"nodes\": [\n"@ == seq![','] + line_head(indent2(), "nodes"@) + seq!['[', '\n'],
        "  ],\n  \"issues\": [\n"@ == seq![' ', ' ', ']'] + seq![','] + line_head(indent2(), "issues"@)
            + seq!['[', '\n'],
        "  ],\n  \"stats\": {\n    \"scanned_nodes\": "@ == seq![' ', ' ', ']'] + seq![',']
            + line_head(indent2(), "stats"@) + seq!['{'] + line_head(indent4(), "scanned_nodes"@),
        ",\n    \"directory_count\": "@ == seq![','] + line_head(indent4(), "directory_count"@),
        ",\n    \"file_count\": "@ == seq![','] + line_head(indent4(), "file_count"@),
        ",\n    \"symlink_count\": "@ == seq![','] + line_head(indent4(), "symlink_count"@),
        ",\n    \"other_count\": "@ == seq![','] + line_head(indent4(), "other_count"@),
        ",\n    \"omitted_nodes\": "@ == seq![','] + line_head(indent4(), "omitted_nodes"@),
        ",\n    \"issue_count\": "@ == seq![','] + line_head(indent4(), "issue_count"@),
        ",\n    \"is_truncated\": "@ == seq![','] + line_head(indent4(), "is_truncated"@),
        "\n  }\n}\n"@ == seq!['\n', ' ', ' ', '}', '\n', '}', '\n'],
{
    reveal_strlit("{\n");
    reveal_strlit("  \"root\": ");
    reveal_strlit(",\n  \"generated_at_unix_ms\": ");
    reveal_strlit(",\n  \"nodes\": [\n");
    reveal_strlit("  ],\n  \"issues\": [\n");
    reveal_strlit("  ],\n  \"stats\": {\n    \"scanned_nodes\": ");
    reveal_strlit(",\n    \"directory_count\": ");
    reveal_strlit(",\n    \"file_count\": ");
    reveal_strlit(",\n    \"symlink_count\": ");
    reveal_strlit(",\n    \"other_count\": ");
    reveal_strlit(",\n    \"omitted_nodes\": ");
    reveal_strlit(",\n    \"issue_count\": ");
    reveal_strlit(",\n    \"is_truncated\": ");
    reveal_strlit("\n  }\n}\n");
    reveal_strlit("scanned_nodes");
    lemma_plain_key("scanned_nodes"@);
    reveal_strlit("directory_count");
    lemma_plain_key("directory_count"@);
    reveal_strlit("file_count");
    lemma_plain_key("file_count"@);
    reveal_strlit("symlink_count");
    lemma_plain_key("symlink_count"@);
    reveal_strlit("other_count");
    lemma_plain_key("other_count"@);
    reveal_strlit("omitted_nodes");
    lemma_plain_key("omitted_nodes"@);
    reveal_strlit("issue_count");
    lemma_plain_key("issue_count"@);
    reveal_strlit("is_truncated");
    lemma_plain_key("is_truncated"@);
    reveal_strlit("root");
    lemma_plain_key("root"@);
    reveal_strlit("generated_at_unix_ms");
    lemma_plain_key("generated_at_unix_ms"@);
    reveal_strlit("nodes");
    lemma_plain_key("nodes"@);
    reveal_strlit("issues");
    lemma_plain_key("issues"@);
    reveal_strlit("stats");
    lemma_plain_key("stats"@);
    assert("{\n"@ + "  \"root\": "@ =~= seq!['{'] + line_head(indent2(), "root"@));
    assert(",\n  \"generated_at_unix_ms\": "@ =~= seq![','] + line_head(indent2(), "generated_at_unix_ms"@));
    assert(",\n  \"nodes\": [\n"@ =~= seq![','] + line_head(indent2(), "nodes"@) + seq!['[', '\n']);
    assert("  ],\n  \"issues\": [\n"@ =~= seq![' ', ' ', ']'] + seq![','] + line_head(indent2(), "issues"@)
        + seq!['[', '\n']);
    assert("  ],\n  \"stats\": {\n    \"scanned_nodes\": "@ =~= seq![' ', ' ', ']'] + seq![',']
        + line_head(indent2(), "stats"@) + seq!['{'] + line_head(indent4(), "scanned_nodes"@));
    assert(",\n    \"directory_count\": "@ =~= seq![','] + line_head(indent4(), "directory_count"@));
    assert(",\n    \"file_count\": "@ =~= seq![','] + line_head(indent4(), "file_count"@));
    assert(",\n    \"symlink_count\": "@ =~= seq![','] + line_head(indent4(), "symlink_count"@));
    assert(",\n    \"other_count\": "@ =~= seq![','] + line_head(indent4(), "other_count"@));
    assert(",\n    \"omitted_nodes\": "@ =~= seq![','] + line_head(indent4(), "omitted_nodes"@));
    assert(",\n    \"issue_count\": "@ =~= seq![','] + line_head(indent4(), "issue_count"@));
    assert(",\n    \"is_truncated\": "@ =~= seq![','] + line_head(indent4(), "is_truncated"@));
    assert("\n  }\n}\n"@ =~= seq!['\n', ' ', ' ', '}', '\n', '}', '\n']);
}

/// The JSON value of a snapshot's totals.
pub open spec fn stats_value(st: ScanStats) -> JsonValue {
    JsonValue::Object(seq![
        ("scanned_nodes"@, JsonValue::Number(st.scanned_nodes as nat)),
        ("directory_count"@, JsonValue::Number(st.directory_count as nat)),
        ("file_count"@, JsonValue::Number(st.file_count as nat)),
        ("symlink_count"@, JsonValue::Number(st.symlink_count as nat)),
        ("other_count"@, JsonValue::Number(st.other_count as nat)),
        ("omitted_nodes"@, JsonValue::Number(st.omitted_nodes as nat)),
        ("issue_count"@, JsonValue::Number(st.issue_count as nat)),
        ("is_truncated"@, JsonValue::Bool(st.is_truncated)),
    ])
}

/// The members of the totals block.
spec fn stats_members(st: ScanStats) -> Seq<(Seq<char>, Seq<char>, Seq<char>, Seq<char>, JsonValue, Seq<char>)> {
    let e = Seq::<char>::empty();
    let sp = seq![' '];
    let lead = seq!['\n'] + indent4();
    seq![
        (lead, "scanned_nodes"@, sp, spec_decimal(st.scanned_nodes as nat), JsonValue::Number(st.scanned_nodes as nat), e),
        (lead, "directory_count"@, sp, spec_decimal(st.directory_count as nat), JsonValue::Number(st.directory_count as nat), e),
        (lead, "file_count"@, sp, spec_decimal(st.file_count as nat), JsonValue::Number(st.file_count as nat), e),
        (lead, "symlink_count"@, sp, spec_decimal(st.symlink_count as nat), JsonValue::Number(st.symlink_count as nat), e),
        (lead, "other_count"@, sp, spec_decimal(st.other_count as nat), JsonValue::Number(st.other_count as nat), e),
        (lead, "omitted_nodes"@, sp, spec_decimal(st.omitted_nodes as nat), JsonValue::Number(st.omitted_nodes as nat), e),
        (lead, "issue_count"@, sp, spec_decimal(st.issue_count as nat), JsonValue::Number(st.issue_count as nat), e),
        (lead, "is_truncated"@, sp, spec_bool(st.is_truncated), JsonValue::Bool(st.is_truncated), seq!['\n', ' ', ' ']),
    ]
}

/// One step of taking a block of members on their own lines apart.
proof fn lemma_line_step(a: Seq<char>, indent: Seq<char>, key: Seq<char>, v: Seq<char>, rest: Seq<char>,
    z: Seq<char>, t: Seq<char>)
    requires
        t == (seq!['\n'] + indent) + spec_quote(key) + seq![':'] + seq![' '] + v + Seq::<char>::empty()
            + (seq![','] + rest),
    ensures
        a + (seq![','] + line_head(indent, key)) + v + (seq![','] + rest + z) == a + (seq![','] + t + z),
{
    assert(a + (seq![','] + line_head(indent, key)) + v + (seq![','] + rest + z) =~= a + (seq![','] + t + z));
}

/// The totals block, member by member.
#[verifier::spinoff_prover]
#[verifier::rlimit(100)]
proof fn lemma_stats_members_text(st: ScanStats)
    ensures
        stats_json(st) == seq![' ', ' ', ']'] + seq![','] + line_head(indent2(), "stats"@) + seq!['{']
            + members_text(stats_members(st), 0) + seq!['\n', '}', '\n'],
{
    lemma_document_fragments();
    let ms = stats_members(st);
    let sp = seq![' '];
    let e = Seq::<char>::empty();
    let lead = seq!['\n'] + indent4();
    let z = seq!['\n', '}', '\n'];
    let d0 = spec_decimal(st.scanned_nodes as nat);
    let d1 = spec_decimal(st.directory_count as nat);
    let d2 = spec_decimal(st.file_count as nat);
    let d3 = spec_decimal(st.symlink_count as nat);
    let d4 = spec_decimal(st.other_count as nat);
    let d5 = spec_decimal(st.omitted_nodes as nat);
    let d6 = spec_decimal(st.issue_count as nat);
    let b = spec_bool(st.is_truncated);
    let open = seq![' ', ' ', ']'] + seq![','] + line_head(indent2(), "stats"@) + seq!['{'];
    let a1 = open + line_head(indent4(), "scanned_nodes"@) + d0;
    let a2 = a1 + (seq![','] + line_head(indent4(), "directory_count"@)) + d1;
    let a3 = a2 + (seq![','] + line_head(indent4(), "file_count"@)) + d2;
    let a4 = a3 + (seq![','] + line_head(indent4(), "symlink_count"@)) + d3;
    let a5 = a4 + (seq![','] + line_head(indent4(), "other_count"@)) + d4;
    let a6 = a5 + (seq![','] + line_head(indent4(), "omitted_nodes"@)) + d5;
    let a7 = a6 + (seq![','] + line_head(indent4(), "issue_count"@)) + d6;
    assert(stats_json(st) == a7 + (seq![','] + line_head(indent4(), "is_truncated"@)) + b
        + seq!['\n', ' ', ' ', '}', '\n', '}', '\n']);
    let t7 = members_text(ms, 7);
    assert(t7 == lead + spec_quote("is_truncated"@) + seq![':'] + sp + b + seq!['\n', ' ', ' '] + seq!['}']);
    assert(a7 + (seq![','] + line_head(indent4(), "is_truncated"@)) + b + seq!['\n', ' ', ' ', '}', '\n', '}', '\n']
        =~= a7 + (seq![','] + t7 + z));
    let t6 = members_text(ms, 6);
    assert(t6 == lead + spec_quote("issue_count"@) + seq![':'] + sp + d6 + e + (seq![','] + t7));
    lemma_line_step(a6, indent4(), "issue_count"@, d6, t7, z, t6);
    let t5 = members_text(ms, 5);
    assert(t5 == lead + spec_quote("omitted_nodes"@) + seq![':'] + sp + d5 + e + (seq![','] + t6));
    lemma_line_step(a5, indent4(), "omitted_nodes"@, d5, t6, z, t5);
    let t4 = members_text(ms, 4);
    assert(t4 == lead + spec_quote("other_count"@) + seq![':'] + sp + d4 + e + (seq![','] + t5));
    lemma_line_step(a4, indent4(), "other_count"@, d4, t5, z, t4);
    let t3 = members_text(ms, 3);
    assert(t3 == lead + spec_quote("symlink_count"@) + seq![':'] + sp + d3 + e + (seq![','] + t4));
    lemma_line_step(a3, indent4(), "symlink_count"@, d3, t4, z, t3);
    let t2 = members_text(ms, 2);
    assert(t2 == lead + spec_quote("file_count"@) + seq![':'] + sp + d2 + e + (seq![','] + t3));
    lemma_line_step(a2, indent4(), "file_count"@, d2, t3, z, t2);
    let t1 = members_text(ms, 1);
    assert(t1 == lead + spec_quote("directory_count"@) + seq![':'] + sp + d1 + e + (seq![','] + t2));
    lemma_line_step(a1, indent4(), "directory_count"@, d1, t2, z, t1);
    let t0 = members_text(ms, 0);
    assert(t0 == lead + spec_quote("scanned_nodes"@) + seq![':'] + sp + d0 + e + (seq![','] + t1));
    assert(a1 + (seq![','] + t1 + z) =~= open + t0 + z);
}

/// The totals block reads back as the totals.
#[verifier::spinoff_prover]
proof fn lemma_reads_stats(st: ScanStats)
    ensures
        reads_back(seq!['{'] + members_text(stats_members(st), 0), stats_value(st)),
{
    let ms = stats_members(st);
    lemma_reads_number(st.scanned_nodes as nat);
    lemma_reads_number(st.directory_count as nat);
    lemma_reads_number(st.file_count as nat);
    lemma_reads_number(st.symlink_count as nat);
    lemma_reads_number(st.other_count as nat);
    lemma_reads_number(st.omitted_nodes as nat);
    lemma_reads_number(st.issue_count as nat);
    lemma_reads_bool(st.is_truncated);
    assert(all_space(Seq::<char>::empty()));
    assert(all_space(seq![' ']));
    assert(all_space(seq!['\n'] + indent4()));
    assert(all_space(seq!['\n', ' ', ' ']));
    assert forall|k: int| 0 <= k < ms.len() implies {
        &&& all_space((#[trigger] ms[k]).0)
        &&& all_space(ms[k].2)
        &&& all_space(ms[k].5)
        &&& reads_back(ms[k].3, ms[k].4)
    } by {
        if k == 0 {
        } else if k == 1 {
        } else if k == 2 {
        } else if k == 3 {
        } else if k == 4 {
        } else if k == 5 {
        } else if k == 6 {
        } else {
        }
    }
    let e = Seq::<char>::empty();
    lemma_reads_object(e, ms);
    assert(e + seq!['{'] + members_text(ms, 0) =~= seq!['{'] + members_text(ms, 0));
    assert(member_values(ms, 0) =~= match stats_value(st) {
        JsonValue::Object(m) => m,
        _ => Seq::empty(),
    });
}

/// The texts of the nodes' lines.
spec fn node_texts(s: Snapshot) -> Seq<Seq<char>> {
    s.nodes@.map_values(|n: SnapshotNode| node_json(n))
}

/// The texts of the issues' lines.
spec fn issue_texts(s: Snapshot) -> Seq<Seq<char>> {
    s.issues@.map_values(|i: ScanIssue| issue_json(i))
}

/// The JSON value of a snapshot: one object whose members are its fields.
pub open spec fn snapshot_value(s: Snapshot) -> JsonValue {
    JsonValue::Object(seq![
        ("root"@, JsonValue::Text(s.root@)),
        ("generated_at_unix_ms"@, JsonValue::Number(s.generated_at_unix_ms as nat)),
        ("nodes"@, JsonValue::Array(s.nodes@.map_values(|n: SnapshotNode| node_value(n)))),
        ("issues"@, JsonValue::Array(s.issues@.map_values(|i: ScanIssue| issue_value(i)))),
        ("stats"@, stats_value(s.stats)),
    ])
}

/// The members of a snapshot's JSON object.
spec fn snapshot_members(s: Snapshot) -> Seq<(Seq<char>, Seq<char>, Seq<char>, Seq<char>, JsonValue, Seq<char>)> {
    let e = Seq::<char>::empty();
    let sp = seq![' '];
    let lead = seq!['\n'] + indent2();
    seq![
        (lead, "root"@, sp, spec_quote(s.root@), JsonValue::Text(s.root@), e),
        (lead, "generated_at_unix_ms"@, sp, spec_decimal(s.generated_at_unix_ms as nat),
            JsonValue::Number(s.generated_at_unix_ms as nat), e),
        (lead, "nodes"@, sp, seq!['[', '\n'] + lines_upto(node_texts(s), s.nodes@.len(), s.nodes@.len() as int)
            + seq![' ', ' ', ']'], JsonValue::Array(s.nodes@.map_values(|n: SnapshotNode| node_value(n))), e),
        (lead, "issues"@, sp, seq!['[', '\n'] + lines_upto(issue_texts(s), s.issues@.len(), s.issues@.len() as int)
            + seq![' ', ' ', ']'], JsonValue::Array(s.issues@.map_values(|i: ScanIssue| issue_value(i))), e),
        (lead, "stats"@, sp, seq!['{'] + members_text(stats_members(s.stats), 0), stats_value(s.stats), seq!['\n']),
    ]
}

/// A snapshot's JSON with its fixed fragments taken apart.
#[verifier::spinoff_prover]
#[verifier::rlimit(100)]
proof fn lemma_snapshot_fragments(s: Snapshot)
    ensures
        snapshot_json(s) == seq!['{'] + line_head(indent2(), "root"@) + spec_quote(s.root@)
            + (seq![','] + line_head(indent2(), "generated_at_unix_ms"@)) + spec_decimal(s.generated_at_unix_ms as nat)
            + (seq![','] + line_head(indent2(), "nodes"@) + seq!['[', '\n']) + node_lines(s.nodes@, s.nodes@.len())
            + (seq![' ', ' ', ']'] + seq![','] + line_head(indent2(), "issues"@) + seq!['[', '\n'])
            + issue_lines(s.issues@, s.issues@.len())
            + (seq![' ', ' ', ']'] + seq![','] + line_head(indent2(), "stats"@) + seq!['{']
                + members_text(stats_members(s.stats), 0) + seq!['\n', '}', '\n']),
{
    lemma_document_fragments();
    lemma_stats_members_text(s.stats);
}

/// Regrouping the tail of a snapshot's JSON around its last two members.
proof fn lemma_regroup_tail(p: Seq<char>, il: Seq<char>, sm: Seq<char>, t3: Seq<char>, t4: Seq<char>)
    requires
        t4 == seq!['\n'] + indent2() + spec_quote("stats"@) + seq![':'] + seq![' '] + (seq!['{'] + sm)
            + seq!['\n'] + seq!['}'],
        t3 == seq!['\n'] + indent2() + spec_quote("issues"@) + seq![':'] + seq![' ']
            + (seq!['[', '\n'] + il + seq![' ', ' ', ']']) + Seq::<char>::empty() + (seq![','] + t4),
    ensures
        p + (seq![' ', ' ', ']'] + seq![','] + line_head(indent2(), "issues"@) + seq!['[', '\n']) + il
            + (seq![' ', ' ', ']'] + seq![','] + line_head(indent2(), "stats"@) + seq!['{'] + sm
                + seq!['\n', '}', '\n'])
            == p + seq![' ', ' ', ']'] + (seq![','] + t3 + seq!['\n']),
{
    assert(p + (seq![' ', ' ', ']'] + seq![','] + line_head(indent2(), "issues"@) + seq!['[', '\n']) + il
        + (seq![' ', ' ', ']'] + seq![','] + line_head(indent2(), "stats"@) + seq!['{'] + sm
            + seq!['\n', '}', '\n'])
        =~= p + seq![' ', ' ', ']'] + (seq![','] + t3 + seq!['\n']));
}

/// Regrouping around the nodes member.
proof fn lemma_regroup_nodes(p: Seq<char>, nl: Seq<char>, t3: Seq<char>, t2: Seq<char>)
    requires
        t2 == seq!['\n'] + indent2() + spec_quote("nodes"@) + seq![':'] + seq![' ']
            + (seq!['[', '\n'] + nl + seq![' ', ' ', ']']) + Seq::<char>::empty() + (seq![','] + t3),
    ensures
        p + (seq![','] + line_head(indent2(), "nodes"@) + seq!['[', '\n']) + nl + seq![' ', ' ', ']']
            + (seq![','] + t3 + seq!['\n']) == p + (seq![','] + t2 + seq!['\n']),
{
    assert(p + (seq![','] + line_head(indent2(), "nodes"@) + seq!['[', '\n']) + nl + seq![' ', ' ', ']']
        + (seq![','] + t3 + seq!['\n']) =~= p + (seq![','] + t2 + seq!['\n']));
}

/// Regrouping around the first member.
proof fn lemma_regroup_first(q: Seq<char>, t1: Seq<char>, t0: Seq<char>)
    requires
        t0 == seq!['\n'] + indent2() + spec_quote("root"@) + seq![':'] + seq![' '] + q + Seq::<char>::empty()
            + (seq![','] + t1),
    ensures
        seq!['{'] + line_head(indent2(), "root"@) + q + (seq![','] + t1 + seq!['\n'])
            == seq!['{'] + t0 + seq!['\n'],
{
    assert(seq!['{'] + line_head(indent2(), "root"@) + q + (seq![','] + t1 + seq!['\n'])
        =~= seq!['{'] + t0 + seq!['\n']);
}

/// The members of a snapshot's JSON object, one at a time.
#[verifier::spinoff_prover]
#[verifier::rlimit(100)]
proof fn lemma_snapshot_member_parts(s: Snapshot)
    ensures
        ({
            let ms = snapshot_members(s);
            let e = Seq::<char>::empty();
            let sp = seq![' '];
            let lead = seq!['\n'] + indent2();
            &&& members_text(ms, 4) == lead + spec_quote("stats"@) + seq![':'] + sp
                + (seq!['{'] + members_text(stats_members(s.stats), 0)) + seq!['\n'] + seq!['}']
            &&& members_text(ms, 3) == lead + spec_quote("issues"@) + seq![':'] + sp
                + (seq!['[', '\n'] + issue_lines(s.issues@, s.issues@.len()) + seq![' ', ' ', ']']) + e
                + (seq![','] + members_text(ms, 4))
            &&& members_text(ms, 2) == lead + spec_quote("nodes"@) + seq![':'] + sp
                + (seq!['[', '\n'] + node_lines(s.nodes@, s.nodes@.len()) + seq![' ', ' ', ']']) + e
                + (seq![','] + members_text(ms, 3))
            &&& members_text(ms, 1) == lead + spec_quote("generated_at_unix_ms"@) + seq![':'] + sp
                + spec_decimal(s.generated_at_unix_ms as nat) + e + (seq![','] + members_text(ms, 2))
            &&& members_text(ms, 0) == lead + spec_quote("root"@) + seq![':'] + sp + spec_quote(s.root@) + e
                + (seq![','] + members_text(ms, 1))
        }),
{
    lemma_node_lines(s.nodes@, s.nodes@.len());
    lemma_issue_lines(s.issues@, s.issues@.len());
}

/// A snapshot's JSON, member by member.
#[verifier::spinoff_prover]
#[verifier::rlimit(100)]
proof fn lemma_snapshot_members_text(s: Snapshot)
    ensures
        snapshot_json(s) == seq!['{'] + members_text(snapshot_members(s), 0) + seq!['\n'],
{
    let ms = snapshot_members(s);
    lemma_snapshot_fragments(s);
    lemma_snapshot_member_parts(s);
    let q = spec_quote(s.root@);
    let dec = spec_decimal(s.generated_at_unix_ms as nat);
    let nl = node_lines(s.nodes@, s.nodes@.len());
    let il = issue_lines(s.issues@, s.issues@.len());
    let sm0 = members_text(stats_members(s.stats), 0);
    let f12 = seq!['{'] + line_head(indent2(), "root"@);
    let p2 = f12 + q + (seq![','] + line_head(indent2(), "generated_at_unix_ms"@)) + dec;
    let p3 = p2 + (seq![','] + line_head(indent2(), "nodes"@) + seq!['[', '\n']) + nl;
    lemma_regroup_tail(p3, il, sm0, members_text(ms, 3), members_text(ms, 4));
    lemma_regroup_nodes(p2, nl, members_text(ms, 3), members_text(ms, 2));
    lemma_line_step(f12 + q, indent2(), "generated_at_unix_ms"@, dec, members_text(ms, 2), seq!['\n'],
        members_text(ms, 1));
    lemma_regroup_first(q, members_text(ms, 1), members_text(ms, 0));
}

/// The members of a snapshot's JSON object each read back.
#[verifier::spinoff_prover]
#[verifier::rlimit(100)]
proof fn lemma_snapshot_members_ok(s: Snapshot)
    ensures
        members_ok(snapshot_members(s)),
{
    let ms = snapshot_members(s);
    let nt = node_texts(s);
    let nv = s.nodes@.map_values(|n: SnapshotNode| node_value(n));
    assert forall|i: int| 0 <= i < nt.len() implies reads_back(#[trigger] nt[i], nv[i]) by {
        lemma_reads_node(s.nodes@[i]);
    }
    lemma_reads_lines(nt, nv);
    let it = issue_texts(s);
    let iv = s.issues@.map_values(|i: ScanIssue| issue_value(i));
    assert forall|i: int| 0 <= i < it.len() implies reads_back(#[trigger] it[i], iv[i]) by {
        lemma_reads_issue(s.issues@[i]);
    }
    lemma_reads_lines(it, iv);
    lemma_reads_text(s.root@);
    lemma_reads_number(s.generated_at_unix_ms as nat);
    lemma_reads_stats(s.stats);
    assert(all_space(Seq::<char>::empty()));
    assert(all_space(seq![' ']));
    assert(all_space(seq!['\n']));
    assert(all_space(seq!['\n'] + indent2()));
    assert forall|k: int| 0 <= k < ms.len() implies {
        &&& all_space((#[trigger] ms[k]).0)
        &&& all_space(ms[k].2)
        &&& all_space(ms[k].5)
        &&& reads_back(ms[k].3, ms[k].4)
    } by {
        if k == 0 {
        } else if k == 1 {
        } else if k == 2 {
        } else if k == 3 {
        } else {
        }
    }
}

/// A snapshot's JSON reads back, as RFC 8259 has it, as one object whose
/// members are the snapshot's fields in order: `root`,
/// `generated_at_unix_ms`, `nodes` (each node an object of its fields,
/// `null` for a missing time), `issues` (each an object of its fields) and
/// `stats` (an object of the eight totals); nothing but whitespace follows.
#[verifier::spinoff_prover]
#[verifier::rlimit(100)]
pub proof fn law_snapshot_json_reads_back(s: Snapshot)
    ensures
        read_value(snapshot_json(s)) == Some((snapshot_value(s), seq!['\n'])),
        skip_space(seq!['\n']).len() == 0,
{
    lemma_snapshot_members_text(s);
    let ms = snapshot_members(s);
    lemma_reads_snapshot_object(ms, s);
    let doc = snapshot_json(s);
    assert(doc == seq!['{'] + members_text(ms, 0) + seq!['\n']);
    assert(seq!['\n'].skip(1) =~= Seq::<char>::empty());
    assert(skip_space(Seq::<char>::empty()) == Seq::<char>::empty());
    assert(skip_space(seq!['\n']) == skip_space(seq!['\n'].skip(1)));
}

/// The object of a snapshot's members reads back, followed by a newline.
#[verifier::spinoff_prover]
#[verifier::rlimit(100)]
proof fn lemma_reads_snapshot_object(
    ms: Seq<(Seq<char>, Seq<char>, Seq<char>, Seq<char>, JsonValue, Seq<char>)>,
    s: Snapshot,
)
    requires
        ms == snapshot_members(s),
    ensures
        read_value(seq!['{'] + members_text(ms, 0) + seq!['\n']) == Some((snapshot_value(s), seq!['\n'])),
{
    lemma_snapshot_members_ok(s);
    let e = Seq::<char>::empty();
    lemma_reads_object(e, ms);
    let r = seq!['\n'];
    let mt = members_text(ms, 0);
    assert(!is_digit(r[0]));
    assert(read_value(e + seq!['{'] + mt + r) == Some((JsonValue::Object(member_values(ms, 0)), r)));
    assert(e + seq!['{'] + mt =~= seq!['{'] + mt);
    assert(member_values(ms, 0) =~= match snapshot_value(s) {
        JsonValue::Object(m) => m,
        _ => Seq::empty(),
    });
}

} // verus!
