//! Character-level building blocks: decimal and hexadecimal rendering and
//! the string helpers that the rest of the library is written with.

use vstd::prelude::*;

verus! {

/// Appends one character, as `String::push` does.
#[verifier::external_body]
pub fn push_char(s: &mut String, c: char)
    ensures
        final(s)@ == old(s)@.push(c),
{
    s.push(c);
}

/// The digit for a value below sixteen: `0`-`9`, then `a`-`f`.
pub open spec fn digit_char(d: nat) -> char {
    if d < 10 { (48 + d) as char } else { (87 + d) as char }
}

/// `n` written in `base` (at most sixteen), without sign or leading zeros.
pub open spec fn spec_digits(n: nat, base: nat) -> Seq<char>
    decreases n,
{
    if base < 2 || n < base {
        seq![digit_char(n)]
    } else {
        proof {
            assert(n / base < n) by (nonlinear_arith)
                requires
                    n >= base,
                    base >= 2,
            ;
        }
        spec_digits(n / base, base).push(digit_char(n % base))
    }
}

/// The decimal rendering of `n`.
pub open spec fn spec_decimal(n: nat) -> Seq<char> {
    spec_digits(n, 10)
}

/// The lower-case hexadecimal rendering of `n`.
pub open spec fn spec_lower_hex(n: nat) -> Seq<char> {
    spec_digits(n, 16)
}

/// `s` with zeros in front up to `width` characters.
pub open spec fn zero_pad(s: Seq<char>, width: nat) -> Seq<char> {
    if s.len() >= width {
        s
    } else {
        Seq::new((width - s.len()) as nat, |i: int| '0') + s
    }
}

/// The digit character for a value below sixteen.
pub fn digit(d: u128) -> (c: char)
    requires
        d < 16,
    ensures
        c == digit_char(d as nat),
{
    if d < 10 {
        ((d as u8) + 48) as char
    } else {
        ((d as u8) + 87) as char
    }
}

/// Renders `n` in `base`.
pub fn radix_string(n: u128, base: u128) -> (s: String)
    requires
        2 <= base <= 16,
    ensures
        s@ == spec_digits(n as nat, base as nat),
{
    let mut digits: Vec<char> = Vec::new();
    let mut m: u128 = n;
    let ghost mut rest: Seq<char> = Seq::empty();
    while m >= base
        invariant
            2 <= base <= 16,
            spec_digits(n as nat, base as nat) == spec_digits(m as nat, base as nat) + rest,
            digits@.len() == rest.len(),
            forall|i: int| 0 <= i < rest.len() ==> #[trigger] rest[i] == digits@[rest.len() - 1 - i],
        decreases m,
    {
        let d = digit(m % base);
        digits.push(d);
        proof {
            assert(spec_digits(m as nat, base as nat) == spec_digits((m / base) as nat, base as nat).push(digit_char((m % base) as nat)));
            assert(spec_digits(m as nat, base as nat) + rest == spec_digits((m / base) as nat, base as nat) + (seq![d] + rest));
            rest = seq![d] + rest;
        }
        m = m / base;
    }
    digits.push(digit(m));
    proof {
        assert(spec_digits(m as nat, base as nat) + rest == seq![digit_char(m as nat)] + rest);
        rest = seq![digit_char(m as nat)] + rest;
    }
    let mut s = String::new();
    let mut k: usize = digits.len();
    while k > 0
        invariant
            k <= digits@.len(),
            digits@.len() == rest.len(),
            forall|i: int| 0 <= i < rest.len() ==> #[trigger] rest[i] == digits@[rest.len() - 1 - i],
            s@ == rest.subrange(0, (rest.len() - k) as int),
        decreases k,
    {
        k = k - 1;
        push_char(&mut s, digits[k]);
        proof {
            assert(rest.subrange(0, (rest.len() - k) as int) == rest.subrange(0, (rest.len() - k - 1) as int).push(rest[rest.len() - k - 1]));
        }
    }
    proof {
        assert(rest.subrange(0, rest.len() as int) == rest);
    }
    s
}

/// Renders `n` in decimal.
pub fn decimal_string(n: u128) -> (s: String)
    ensures
        s@ == spec_decimal(n as nat),
{
    radix_string(n, 10)
}

/// Renders `n` in lower-case hexadecimal.
pub fn lower_hex_string(n: u128) -> (s: String)
    ensures
        s@ == spec_lower_hex(n as nat),
{
    radix_string(n, 16)
}

/// `s` with zeros in front up to `width` characters.
pub fn zero_padded(s: String, width: usize) -> (r: String)
    ensures
        r@ == zero_pad(s@, width as nat),
{
    let len = s.as_str().unicode_len();
    if len >= width {
        return s;
    }
    let mut r = String::new();
    let mut i: usize = 0;
    while i < width - len
        invariant
            len == s@.len(),
            len < width,
            i <= width - len,
            r@ == Seq::new(i as nat, |j: int| '0'),
        decreases width - len - i,
    {
        push_char(&mut r, '0');
        proof {
            assert(r@ =~= Seq::new((i + 1) as nat, |j: int| '0'));
        }
        i = i + 1;
    }
    push_str(&mut r, s.as_str());
    r
}

} // verus!

verus! {

/// The characters of `s`, in order.
pub fn chars_of(s: &str) -> (v: Vec<char>)
    ensures
        v@ == s@,
{
    let mut v: Vec<char> = Vec::new();
    for c in it: s.chars()
        invariant
            v@ == it.seq().subrange(0, it.index() as int),
    {
        v.push(c);
    }
    v
}

} // verus!

verus! {

/// Builds a `String` holding exactly the characters of `v`.
pub fn string_from_chars(v: &Vec<char>) -> (s: String)
    ensures
        s@ == v@,
{
    let mut s = String::new();
    let mut i: usize = 0;
    while i < v.len()
        invariant
            i <= v@.len(),
            s@ == v@.subrange(0, i as int),
        decreases v@.len() - i,
    {
        push_char(&mut s, v[i]);
        proof {
            assert(v@.subrange(0, (i + 1) as int) == v@.subrange(0, i as int).push(v@[i as int]));
        }
        i = i + 1;
    }
    proof {
        assert(v@.subrange(0, v@.len() as int) == v@);
    }
    s
}

/// Appends the characters of `t` to `s`.
pub fn push_str(s: &mut String, t: &str)
    ensures
        final(s)@ == old(s)@ + t@,
{
    s.append(t);
}

/// Appends every character of `v` to `s`.
pub fn push_chars(s: &mut String, v: &Vec<char>)
    ensures
        final(s)@ == old(s)@ + v@,
{
    let ghost start = s@;
    let mut i: usize = 0;
    while i < v.len()
        invariant
            i <= v@.len(),
            s@ == start + v@.subrange(0, i as int),
        decreases v@.len() - i,
    {
        push_char(s, v[i]);
        proof {
            assert(v@.subrange(0, (i + 1) as int) == v@.subrange(0, i as int).push(v@[i as int]));
        }
        i = i + 1;
    }
    proof {
        assert(v@.subrange(0, v@.len() as int) == v@);
    }
}

/// `p` is a prefix of `s`.
pub open spec fn has_prefix(s: Seq<char>, p: Seq<char>) -> bool {
    p.len() <= s.len() && s.subrange(0, p.len() as int) == p
}

/// `p` is a suffix of `s`.
pub open spec fn has_suffix(s: Seq<char>, p: Seq<char>) -> bool {
    p.len() <= s.len() && s.subrange(s.len() - p.len(), s.len() as int) == p
}

/// Whether `s` begins with `p`.
pub fn starts_with_chars(s: &Vec<char>, p: &Vec<char>) -> (b: bool)
    ensures
        b == has_prefix(s@, p@),
{
    if p.len() > s.len() {
        return false;
    }
    let mut i: usize = 0;
    while i < p.len()
        invariant
            p@.len() <= s@.len(),
            i <= p@.len(),
            forall|j: int| 0 <= j < i ==> s@[j] == p@[j],
        decreases p@.len() - i,
    {
        if s[i] != p[i] {
            assert(s@.subrange(0, p@.len() as int)[i as int] != p@[i as int]);
            return false;
        }
        i = i + 1;
    }
    assert(s@.subrange(0, p@.len() as int) =~= p@);
    true
}

/// Whether `s` ends with `p`.
pub fn ends_with_chars(s: &Vec<char>, p: &Vec<char>) -> (b: bool)
    ensures
        b == has_suffix(s@, p@),
{
    if p.len() > s.len() {
        return false;
    }
    let offset = s.len() - p.len();
    let mut i: usize = 0;
    while i < p.len()
        invariant
            p@.len() <= s@.len(),
            offset == s@.len() - p@.len(),
            s@.len() == s.len(),
            i <= p@.len(),
            forall|j: int| 0 <= j < i ==> s@[offset + j] == p@[j],
        decreases p@.len() - i,
    {
        if s[offset + i] != p[i] {
            assert(s@.subrange(s@.len() - p@.len(), s@.len() as int)[i as int] != p@[i as int]);
            return false;
        }
        i = i + 1;
    }
    assert(s@.subrange(s@.len() - p@.len(), s@.len() as int) =~= p@);
    true
}

/// Whether two character sequences are equal.
pub fn chars_equal(a: &Vec<char>, b: &Vec<char>) -> (r: bool)
    ensures
        r == (a@ == b@),
{
    if a.len() != b.len() {
        return false;
    }
    let mut i: usize = 0;
    while i < a.len()
        invariant
            a@.len() == b@.len(),
            i <= a@.len(),
            forall|j: int| 0 <= j < i ==> a@[j] == b@[j],
        decreases a@.len() - i,
    {
        if a[i] != b[i] {
            return false;
        }
        i = i + 1;
    }
    assert(a@ =~= b@);
    true
}

/// `s` with every backslash turned into a forward slash.
pub open spec fn forward_slashes(s: Seq<char>) -> Seq<char> {
    s.map_values(|c: char| if c == '\\' { '/' } else { c })
}

/// The characters of `s` with every backslash turned into a forward slash.
pub fn forward_slash_chars(s: &str) -> (v: Vec<char>)
    ensures
        v@ == forward_slashes(s@),
{
    let chars = chars_of(s);
    let mut v: Vec<char> = Vec::new();
    let mut i: usize = 0;
    while i < chars.len()
        invariant
            chars@ == s@,
            i <= chars@.len(),
            v@ == forward_slashes(s@).subrange(0, i as int),
        decreases chars@.len() - i,
    {
        let c = chars[i];
        v.push(if c == '\\' { '/' } else { c });
        proof {
            assert(forward_slashes(s@).subrange(0, (i + 1) as int)
                == forward_slashes(s@).subrange(0, i as int).push(forward_slashes(s@)[i as int]));
        }
        i = i + 1;
    }
    proof {
        assert(forward_slashes(s@).subrange(0, chars@.len() as int) == forward_slashes(s@));
    }
    v
}

/// The prefix `//?/UNC/` of an extended-length UNC path, written with forward slashes.
pub open spec fn unc_prefix() -> Seq<char> {
    seq!['/', '/', '?', '/', 'U', 'N', 'C', '/']
}

/// The prefix `//?/` of an extended-length path, written with forward slashes.
pub open spec fn verbatim_prefix() -> Seq<char> {
    seq!['/', '/', '?', '/']
}

/// The display form of a path: forward slashes, and the Windows
/// extended-length prefixes `\\?\UNC\` and `\\?\` taken off (a UNC path keeps
/// its leading `//`).
pub open spec fn spec_normalize_path(path: Seq<char>) -> Seq<char> {
    let n = forward_slashes(path);
    if has_prefix(n, unc_prefix()) {
        seq!['/', '/'] + n.subrange(8, n.len() as int)
    } else if has_prefix(n, verbatim_prefix()) {
        n.subrange(4, n.len() as int)
    } else {
        n
    }
}

/// The display form of `path`; see `spec_normalize_path`.
pub fn normalize_path(path: &str) -> (s: String)
    ensures
        s@ == spec_normalize_path(path@),
{
    let n = forward_slash_chars(path);
    let unc: Vec<char> = vec!['/', '/', '?', '/', 'U', 'N', 'C', '/'];
    let verbatim: Vec<char> = vec!['/', '/', '?', '/'];
    proof {
        assert(unc@ =~= unc_prefix());
        assert(verbatim@ =~= verbatim_prefix());
    }
    let mut out: Vec<char> = Vec::new();
    let start: usize;
    if starts_with_chars(&n, &unc) {
        out.push('/');
        out.push('/');
        start = 8;
    } else if starts_with_chars(&n, &verbatim) {
        start = 4;
    } else {
        start = 0;
    }
    let ghost head = out@;
    let mut i: usize = start;
    while i < n.len()
        invariant
            start <= i <= n@.len(),
            out@ == head + n@.subrange(start as int, i as int),
        decreases n@.len() - i,
    {
        out.push(n[i]);
        proof {
            assert(n@.subrange(start as int, (i + 1) as int)
                == n@.subrange(start as int, i as int).push(n@[i as int]));
        }
        i = i + 1;
    }
    proof {
        if start == 8 {
            assert(head =~= seq!['/', '/']);
        } else if start == 4 {
            assert(head =~= Seq::<char>::empty());
            assert(out@ =~= n@.subrange(4, n@.len() as int));
        } else {
            assert(out@ =~= n@);
        }
    }
    string_from_chars(&out)
}

} // verus!

verus! {

/// `c` with `A`..`Z` turned into `a`..`z`.
pub open spec fn spec_ascii_lower(c: char) -> char {
    if 'A' <= c && c <= 'Z' { ((c as u32) + 32) as char } else { c }
}

/// `s` with every ASCII upper-case letter turned into lower case.
pub open spec fn spec_ascii_lowercase(s: Seq<char>) -> Seq<char> {
    s.map_values(|c: char| spec_ascii_lower(c))
}

fn ascii_lower(c: char) -> (r: char)
    ensures
        r == spec_ascii_lower(c),
{
    if 'A' <= c && c <= 'Z' {
        let code: u32 = (c as u32) + 32;
        proof {
            assert(0x61 <= code <= 0x7a);
        }
        char_from_ascii(code)
    } else {
        c
    }
}

fn char_from_ascii(code: u32) -> (c: char)
    requires
        code < 128,
    ensures
        c == code as char,
{
    (code as u8) as char
}

/// The characters of `s` with ASCII letters in lower case.
pub fn ascii_lowercase_chars(s: &str) -> (v: Vec<char>)
    ensures
        v@ == spec_ascii_lowercase(s@),
{
    let chars = chars_of(s);
    let mut v: Vec<char> = Vec::new();
    let mut i: usize = 0;
    while i < chars.len()
        invariant
            chars@ == s@,
            i <= chars@.len(),
            v@ == spec_ascii_lowercase(s@).subrange(0, i as int),
        decreases chars@.len() - i,
    {
        v.push(ascii_lower(chars[i]));
        proof {
            assert(spec_ascii_lowercase(s@).subrange(0, (i + 1) as int)
                == spec_ascii_lowercase(s@).subrange(0, i as int).push(spec_ascii_lowercase(s@)[i as int]));
        }
        i = i + 1;
    }
    proof {
        assert(spec_ascii_lowercase(s@).subrange(0, chars@.len() as int) == spec_ascii_lowercase(s@));
    }
    v
}

/// Lexicographic order on character sequences by code point, the order in
/// which Rust compares strings.
pub open spec fn chars_le(a: Seq<char>, b: Seq<char>) -> bool
    decreases a.len(),
{
    if a.len() == 0 {
        true
    } else if b.len() == 0 {
        false
    } else if a[0] != b[0] {
        (a[0] as u32) < (b[0] as u32)
    } else {
        chars_le(a.drop_first(), b.drop_first())
    }
}

/// Whether `a` sorts at or before `b`; see `chars_le`.
pub fn chars_less_eq(a: &Vec<char>, b: &Vec<char>) -> (r: bool)
    ensures
        r == chars_le(a@, b@),
{
    let mut i: usize = 0;
    proof {
        assert(a@.skip(0) =~= a@);
        assert(b@.skip(0) =~= b@);
    }
    while i < a.len() && i < b.len()
        invariant
            i <= a@.len(),
            i <= b@.len(),
            chars_le(a@, b@) == chars_le(a@.skip(i as int), b@.skip(i as int)),
        decreases a@.len() - i,
    {
        if a[i] != b[i] {
            proof {
                assert(a@.skip(i as int)[0] == a@[i as int]);
                assert(b@.skip(i as int)[0] == b@[i as int]);
            }
            return (a[i] as u32) < (b[i] as u32);
        }
        proof {
            assert(a@.skip(i as int).drop_first() =~= a@.skip(i + 1));
            assert(b@.skip(i as int).drop_first() =~= b@.skip(i + 1));
        }
        i = i + 1;
    }
    if i == a.len() {
        proof {
            assert(a@.skip(i as int).len() == 0);
        }
        true
    } else {
        proof {
            assert(b@.skip(i as int).len() == 0);
            assert(a@.skip(i as int).len() > 0);
        }
        false
    }
}

/// A character's code, read as a `u32`, is the character's value.
pub proof fn lemma_char_code(c: char)
    ensures
        (c as u32) as int == c as int,
{
}

/// Any two character sequences are ordered one way or the other.
pub proof fn lemma_chars_le_total(a: Seq<char>, b: Seq<char>)
    ensures
        chars_le(a, b) || chars_le(b, a),
    decreases a.len(),
{
    if a.len() > 0 && b.len() > 0 {
        if a[0] == b[0] {
            lemma_chars_le_total(a.drop_first(), b.drop_first());
        } else {
            lemma_char_code(a[0]);
            lemma_char_code(b[0]);
        }
    }
}

/// The order on character sequences is transitive.
pub proof fn lemma_chars_le_trans(a: Seq<char>, b: Seq<char>, c: Seq<char>)
    requires
        chars_le(a, b),
        chars_le(b, c),
    ensures
        chars_le(a, c),
    decreases a.len(),
{
    if a.len() > 0 && b.len() > 0 && c.len() > 0 && a[0] == b[0] && b[0] == c[0] {
        lemma_chars_le_trans(a.drop_first(), b.drop_first(), c.drop_first());
    }
}

} // verus!
