use vstd::prelude::*;
use vstd::string::StrSliceExecFns;
use vstd::string::StringSliceAdditionalSpecFns;
use vstd::utf8::{decode_utf8, encode_utf8, is_char_boundary};
use crate::bytes::str_equal;
use crate::search::{chars_of, has_sub, spec_utf8_lossy, tag_texts, text_contains, utf8_lossy};
use crate::unit::DataUnit;

verus! {

/// A condition of the query language. Numbers are kept as they were
/// written; they are checked to be floating-point literals when parsed.
#[derive(Debug)]
pub enum Condition {
    /// `tag:x`, or any text without an operator: a tag equal to it, or the
    /// key or the value containing it.
    TagMatch(String),
    /// `field>number`
    FieldGt(String, String),
    /// `field<number`
    FieldLt(String, String),
    /// `field=value`
    FieldEq(String, String),
    /// `time>...` or `created>...`
    TimeAfter(String),
    /// `time<...` or `created<...`
    TimeBefore(String),
    And(Box<Condition>, Box<Condition>),
    Or(Box<Condition>, Box<Condition>),
}

/// What a condition says, over texts.
pub enum QueryForm {
    TagMatch(Seq<char>),
    FieldGt(Seq<char>, Seq<char>),
    FieldLt(Seq<char>, Seq<char>),
    FieldEq(Seq<char>, Seq<char>),
    TimeAfter(Seq<char>),
    TimeBefore(Seq<char>),
    And(Box<QueryForm>, Box<QueryForm>),
    Or(Box<QueryForm>, Box<QueryForm>),
}

/// The texts a condition holds.
pub open spec fn form_of(c: Condition) -> QueryForm
    decreases c,
{
    match c {
        Condition::TagMatch(t) => QueryForm::TagMatch(t@),
        Condition::FieldGt(f, v) => QueryForm::FieldGt(f@, v@),
        Condition::FieldLt(f, v) => QueryForm::FieldLt(f@, v@),
        Condition::FieldEq(f, v) => QueryForm::FieldEq(f@, v@),
        Condition::TimeAfter(t) => QueryForm::TimeAfter(t@),
        Condition::TimeBefore(t) => QueryForm::TimeBefore(t@),
        Condition::And(l, r) => QueryForm::And(Box::new(form_of(*l)), Box::new(form_of(*r))),
        Condition::Or(l, r) => QueryForm::Or(Box::new(form_of(*l)), Box::new(form_of(*r))),
    }
}

/// Unicode white space (the `White_Space` property, as `char::is_whitespace`).
pub open spec fn is_ws(c: char) -> bool {
    let v = c as u32;
    (9 <= v <= 13) || v == 32 || v == 0x85 || v == 0xA0 || v == 0x1680 || (0x2000 <= v <= 0x200A) || v
        == 0x2028 || v == 0x2029 || v == 0x202F || v == 0x205F || v == 0x3000
}

/// The first position from `i` on that holds no white space (or the end).
pub open spec fn lead_from(s: Seq<char>, i: int) -> int
    decreases s.len() - i,
{
    if 0 <= i < s.len() && is_ws(s[i]) {
        lead_from(s, i + 1)
    } else {
        i
    }
}

/// The end of `s.subrange(lo, j)` once trailing white space is dropped.
pub open spec fn trail_to(s: Seq<char>, lo: int, j: int) -> int
    decreases j - lo,
{
    if lo < j && j <= s.len() && is_ws(s[j - 1]) {
        trail_to(s, lo, j - 1)
    } else {
        j
    }
}

/// A text without its leading and trailing white space (`str::trim`).
pub open spec fn trim_spec(s: Seq<char>) -> Seq<char> {
    let a = lead_from(s, 0);
    s.subrange(a, trail_to(s, a, s.len() as int))
}



/// Whether `c` is white space.
pub fn is_ws_char(c: char) -> (r: bool)
    ensures
        r == is_ws(c),
{
    let v = c as u32;
    (9 <= v && v <= 13) || v == 32 || v == 0x85 || v == 0xA0 || v == 0x1680 || (0x2000 <= v && v <= 0x200A)
        || v == 0x2028 || v == 0x2029 || v == 0x202F || v == 0x205F || v == 0x3000
}

/// `s` without its leading and trailing white space.
pub fn trim_text(s: &str) -> (t: String)
    ensures
        t@ == trim_spec(s@),
{
    let v = chars_of(s);
    let n = v.len();
    let mut a: usize = 0;
    while a < n && is_ws_char(v[a])
        invariant
            v@ == s@,
            n == v@.len(),
            a <= n,
            lead_from(s@, a as int) == lead_from(s@, 0),
        decreases n - a,
    {
        a = a + 1;
    }
    let mut b: usize = n;
    while b > a && is_ws_char(v[b - 1])
        invariant
            v@ == s@,
            n == v@.len(),
            a <= b <= n,
            a == lead_from(s@, 0),
            trail_to(s@, a as int, b as int) == trail_to(s@, a as int, n as int),
        decreases b - a,
    {
        b = b - 1;
    }
    let part = s.substring_char(a, b);
    part.to_owned()
}

/// The first position from `i` on that holds `c`.
pub open spec fn find_char_from(s: Seq<char>, c: char, i: int) -> Option<int>
    decreases s.len() - i,
{
    if i < 0 || i >= s.len() {
        None
    } else if s[i] == c {
        Some(i)
    } else {
        find_char_from(s, c, i + 1)
    }
}

pub proof fn lemma_find_char_bounds(s: Seq<char>, c: char, i: int)
    requires
        0 <= i,
    ensures
        find_char_from(s, c, i) matches Some(k) ==> i <= k < s.len() && s[k] == c,
    decreases s.len() - i,
{
    if i < s.len() && s[i] != c {
        lemma_find_char_bounds(s, c, i + 1);
    }
}

/// The first position in `v` that holds `c`.
fn find_char(v: &Vec<char>, c: char) -> (r: Option<usize>)
    ensures
        match r {
            Some(k) => find_char_from(v@, c, 0) == Some(k as int),
            None => find_char_from(v@, c, 0) is None,
        },
{
    let mut i: usize = 0;
    while i < v.len()
        invariant
            i <= v@.len(),
            find_char_from(v@, c, i as int) == find_char_from(v@, c, 0),
        decreases v@.len() - i,
    {
        if v[i] == c {
            return Some(i);
        }
        i = i + 1;
    }
    None
}

/// An ASCII digit.
pub open spec fn is_digit(c: char) -> bool {
    48 <= c as u32 <= 57
}

/// The end of the run of digits that starts at `i`.
pub open spec fn digits_end(s: Seq<char>, i: int) -> int
    decreases s.len() - i,
{
    if 0 <= i < s.len() && is_digit(s[i]) {
        digits_end(s, i + 1)
    } else {
        i
    }
}

/// `c` is the lower-case ASCII letter `l` in either case.
pub open spec fn same_letter(c: char, l: char) -> bool {
    c == l || c as u32 + 32 == l as u32
}

/// `s` spells the lower-case ASCII word `w`, ignoring case.
pub open spec fn word_ci(s: Seq<char>, w: Seq<char>) -> bool {
    s.len() == w.len() && forall|i: int| 0 <= i < s.len() ==> same_letter(#[trigger] s[i], w[i])
}

/// `+` or `-`.
pub open spec fn is_sign(c: char) -> bool {
    c == '+' || c == '-'
}

/// From `j` on: an optional sign, then one or more digits up to the end.
pub open spec fn exponent_digits(t: Seq<char>, j: int) -> bool {
    let k = if j < t.len() && is_sign(t[j]) { j + 1 } else { j };
    digits_end(t, k) > k && digits_end(t, k) == t.len()
}

/// A decimal number: digits with an optional point (digits on at least one
/// side), then an optional exponent `e` (either case), sign and digits.
pub open spec fn number_form(t: Seq<char>) -> bool {
    let a = digits_end(t, 0);
    let point = a < t.len() && t[a] == '.';
    let b = if point { digits_end(t, a + 1) } else { a };
    let has_digits = if point { a > 0 || b > a + 1 } else { a > 0 };
    has_digits && (b == t.len() || (same_letter(t[b], 'e') && exponent_digits(t, b + 1)))
}

/// The texts that parse as a floating-point number (`f64::from_str`): an
/// optional sign, then `inf`, `infinity` or `nan` in any case, or a decimal
/// number.
pub open spec fn float_literal(s: Seq<char>) -> bool {
    let t = if s.len() > 0 && is_sign(s[0]) { s.skip(1) } else { s };
    word_ci(t, "inf"@) || word_ci(t, "infinity"@) || word_ci(t, "nan"@) || number_form(t)
}


/// Where the run of digits from `i` ends.
fn scan_digits(t: &Vec<char>, i: usize) -> (e: usize)
    requires
        i <= t@.len(),
    ensures
        e == digits_end(t@, i as int),
        i <= e <= t@.len(),
{
    let mut k = i;
    while k < t.len() && 48 <= (t[k] as u32) && (t[k] as u32) <= 57
        invariant
            i <= k <= t@.len(),
            digits_end(t@, k as int) == digits_end(t@, i as int),
        decreases t@.len() - k,
    {
        k = k + 1;
    }
    k
}

/// Whether `c` is the lower-case ASCII letter `l` in either case.
fn same_letter_exec(c: char, l: char) -> (r: bool)
    requires
        97 <= l as u32 <= 122,
    ensures
        r == same_letter(c, l),
{
    c == l || (c as u32) + 32 == (l as u32)
}

/// Whether the characters of `t` from `from` on spell the word `w`, ignoring case.
fn word_ci_from(t: &Vec<char>, from: usize, w: &str) -> (r: bool)
    requires
        from <= t@.len(),
        forall|i: int| 0 <= i < w@.len() ==> 97 <= #[trigger] w@[i] as u32 <= 122,
    ensures
        r == word_ci(t@.skip(from as int), w@),
{
    let n = w.unicode_len();
    if t.len() - from != n {
        return false;
    }
    let mut i: usize = 0;
    while i < n
        invariant
            n == w@.len(),
            t@.len() - from == n,
            from <= t@.len(),
            t@.len() <= usize::MAX,
            i <= n,
            forall|j: int| 0 <= j < w@.len() ==> 97 <= #[trigger] w@[j] as u32 <= 122,
            forall|j: int| 0 <= j < i ==> same_letter(#[trigger] t@.skip(from as int)[j], w@[j]),
        decreases n - i,
    {
        let c = w.get_char(i);
        if !same_letter_exec(t[from + i], c) {
            assert(!same_letter(t@.skip(from as int)[i as int], w@[i as int]));
            return false;
        }
        i = i + 1;
    }
    true
}

/// Whether the characters of `t` from `from` on form a decimal number.
fn number_form_from(t: &Vec<char>, from: usize) -> (r: bool)
    requires
        from <= t@.len(),
    ensures
        r == number_form(t@.skip(from as int)),
{
    let ghost u = t@.skip(from as int);
    let a = scan_digits(t, from);
    proof {
        lemma_digits_shift(t@, from as int, from as int);
    }
    let point = a < t.len() && t[a] == '.';
    let b = if point {
        let b = scan_digits(t, a + 1);
        proof {
            lemma_digits_shift(t@, from as int, a + 1);
        }
        b
    } else {
        a
    };
    let has_digits = if point { a > from || b > a + 1 } else { a > from };
    if !has_digits {
        return false;
    }
    if b == t.len() {
        return true;
    }
    if !same_letter_exec(t[b], 'e') {
        return false;
    }
    let j = b + 1;
    let k = if j < t.len() && (t[j] == '+' || t[j] == '-') { j + 1 } else { j };
    let m = scan_digits(t, k);
    proof {
        lemma_digits_shift(t@, from as int, k as int);
    }
    m > k && m == t.len()
}

/// Counting digits in a suffix counts them in the whole text, shifted.
proof fn lemma_digits_shift(s: Seq<char>, from: int, i: int)
    requires
        0 <= from <= i <= s.len(),
    ensures
        digits_end(s.skip(from), i - from) == digits_end(s, i) - from,
    decreases s.len() - i,
{
    if i < s.len() && is_digit(s[i]) {
        lemma_digits_shift(s, from, i + 1);
    }
}

/// Whether `s` parses as a floating-point number (see `float_literal`).
pub fn is_float_literal(s: &str) -> (r: bool)
    ensures
        r == float_literal(s@),
{
    let t = chars_of(s);
    let from: usize = if t.len() > 0 && (t[0] == '+' || t[0] == '-') { 1 } else { 0 };
    assert(t@.skip(0) =~= t@);
    proof {
        reveal_strlit("inf");
        reveal_strlit("infinity");
        reveal_strlit("nan");
    }
    word_ci_from(&t, from, "inf") || word_ci_from(&t, from, "infinity") || word_ci_from(&t, from, "nan")
        || number_form_from(&t, from)
}

/// `s` opens with `p`.
pub open spec fn opens_with(s: Seq<char>, p: Seq<char>) -> bool {
    p.len() <= s.len() && s.take(p.len() as int) == p
}

/// The field names compared as times.
pub open spec fn is_time_field(f: Seq<char>) -> bool {
    f == "time"@ || f == "created"@
}

/// The comparison around the first `op` in `e`, where one applies: a time
/// field gives a time bound, a number a field comparison; anything else
/// gives none.
pub open spec fn compare_form(e: Seq<char>, op: char, after: bool) -> Option<QueryForm> {
    match find_char_from(e, op, 0) {
        Some(k) => {
            let f = trim_spec(e.take(k));
            let v = trim_spec(e.skip(k + 1));
            if is_time_field(f) {
                Some(
                    if after {
                        QueryForm::TimeAfter(v)
                    } else {
                        QueryForm::TimeBefore(v)
                    },
                )
            } else if float_literal(v) {
                Some(
                    if after {
                        QueryForm::FieldGt(f, v)
                    } else {
                        QueryForm::FieldLt(f, v)
                    },
                )
            } else {
                None
            }
        },
        None => None,
    }
}

/// The condition one term of a query reads as: `tag:x`; else the first `>`
/// comparison that applies; else the first `<` one; else `field=value` at
/// the first `=`; else the whole term as a tag.
pub open spec fn simple_form(e: Seq<char>) -> QueryForm {
    if opens_with(e, "tag:"@) {
        QueryForm::TagMatch(e.skip(4))
    } else {
        match compare_form(e, '>', true) {
            Some(f) => f,
            None => match compare_form(e, '<', false) {
                Some(f) => f,
                None => match find_char_from(e, '=', 0) {
                    Some(k) => QueryForm::FieldEq(trim_spec(e.take(k)), trim_spec(e.skip(k + 1))),
                    None => QueryForm::TagMatch(e),
                },
            },
        }
    }
}

/// The first position of `c` in `s` from `i` on is `k` when `s[k]` is `c`
/// and no position in between holds `c`.
proof fn lemma_find_char_first(s: Seq<char>, c: char, i: int, k: int)
    requires
        0 <= i <= k < s.len(),
        s[k] == c,
        forall|j: int| i <= j < k ==> s[j] != c,
    ensures
        find_char_from(s, c, i) == Some(k),
    decreases k - i,
{
    if i < k {
        lemma_find_char_first(s, c, i + 1, k);
    }
}

/// No position of `s` from `i` on holds `c`.
proof fn lemma_find_char_none(s: Seq<char>, c: char, i: int)
    requires
        0 <= i,
        forall|j: int| i <= j < s.len() ==> s[j] != c,
    ensures
        find_char_from(s, c, i) is None,
    decreases s.len() - i,
{
    if i < s.len() {
        lemma_find_char_none(s, c, i + 1);
    }
}

/// A term that does not open with "tag:" and whose first '>' stands at `k`
/// after the field "time" or "created" (surrounding white space aside) is a
/// lower time bound on the trimmed text after the '>'.
pub proof fn lemma_time_after_fields(e: Seq<char>, k: int)
    requires
        0 <= k < e.len(),
        e[k] == '>',
        forall|j: int| 0 <= j < k ==> e[j] != '>',
        !(e.len() >= 4 && e[0] == 't' && e[1] == 'a' && e[2] == 'g' && e[3] == ':'),
        trim_spec(e.take(k)) == "time"@ || trim_spec(e.take(k)) == "created"@,
    ensures
        simple_form(e) == QueryForm::TimeAfter(trim_spec(e.skip(k + 1))),
{
    reveal_strlit("tag:");
    reveal_strlit("time");
    reveal_strlit("created");
    lemma_find_char_first(e, '>', 0, k);
    if opens_with(e, "tag:"@) {
        assert(e.take(4)[0] == e[0] && e.take(4)[1] == e[1] && e.take(4)[2] == e[2] && e.take(4)[3] == e[3]);
    }
}

/// A term that does not open with "tag:", holds no '>', and whose first '<'
/// stands at `k` after the field "time" or "created" (surrounding white
/// space aside) is an upper time bound on the trimmed text after the '<'.
pub proof fn lemma_time_before_fields(e: Seq<char>, k: int)
    requires
        0 <= k < e.len(),
        e[k] == '<',
        forall|j: int| 0 <= j < k ==> e[j] != '<',
        forall|j: int| 0 <= j < e.len() ==> e[j] != '>',
        !(e.len() >= 4 && e[0] == 't' && e[1] == 'a' && e[2] == 'g' && e[3] == ':'),
        trim_spec(e.take(k)) == "time"@ || trim_spec(e.take(k)) == "created"@,
    ensures
        simple_form(e) == QueryForm::TimeBefore(trim_spec(e.skip(k + 1))),
{
    reveal_strlit("tag:");
    reveal_strlit("time");
    reveal_strlit("created");
    lemma_find_char_first(e, '<', 0, k);
    lemma_find_char_none(e, '>', 0);
    if opens_with(e, "tag:"@) {
        assert(e.take(4)[0] == e[0] && e.take(4)[1] == e[1] && e.take(4)[2] == e[2] && e.take(4)[3] == e[3]);
    }
}

/// The comparison around the first `op`, where one applies.
fn compare_cond(e: &str, v: &Vec<char>, op: char, after: bool) -> (r: Option<Condition>)
    requires
        v@ == e@,
    ensures
        match r {
            Some(c) => compare_form(e@, op, after) == Some(form_of(c)),
            None => compare_form(e@, op, after) is None,
        },
{
    let k = match find_char(v, op) {
        Some(k) => k,
        None => {
            return None;
        },
    };
    proof {
        lemma_find_char_bounds(e@, op, 0);
    }
    let n = v.len();
    let field = trim_text(e.substring_char(0, k));
    let val = trim_text(e.substring_char(k + 1, n));
    assert(e@.subrange(0, k as int) =~= e@.take(k as int));
    assert(e@.subrange(k + 1, n as int) =~= e@.skip(k + 1));
    proof {
        reveal_strlit("time");
        reveal_strlit("created");
    }
    if str_equal(field.as_str(), "time") || str_equal(field.as_str(), "created") {
        if after {
            Some(Condition::TimeAfter(val))
        } else {
            Some(Condition::TimeBefore(val))
        }
    } else if is_float_literal(val.as_str()) {
        if after {
            Some(Condition::FieldGt(field, val))
        } else {
            Some(Condition::FieldLt(field, val))
        }
    } else {
        None
    }
}

/// The condition one term reads as (see `simple_form`).
pub fn parse_simple(expr: &str) -> (c: Condition)
    ensures
        form_of(c) == simple_form(expr@),
{
    let v = chars_of(expr);
    let n = v.len();
    proof {
        reveal_strlit("tag:");
    }
    if n >= 4 && v[0] == 't' && v[1] == 'a' && v[2] == 'g' && v[3] == ':' {
        assert(expr@.take(4) =~= "tag:"@);
        let rest = expr.substring_char(4, n);
        assert(rest@ =~= expr@.skip(4));
        return Condition::TagMatch(rest.to_owned());
    }
    assert(!opens_with(expr@, "tag:"@)) by {
        if opens_with(expr@, "tag:"@) {
            assert(expr@.take(4)[0] == 't');
            assert(expr@.take(4)[1] == 'a');
            assert(expr@.take(4)[2] == 'g');
            assert(expr@.take(4)[3] == ':');
        }
    }
    if let Some(c) = compare_cond(expr, &v, '>', true) {
        return c;
    }
    if let Some(c) = compare_cond(expr, &v, '<', false) {
        return c;
    }
    match find_char(&v, '=') {
        Some(k) => {
            proof {
                lemma_find_char_bounds(expr@, '=', 0);
            }
            let field = trim_text(expr.substring_char(0, k));
            let val = trim_text(expr.substring_char(k + 1, n));
            assert(expr@.subrange(0, k as int) =~= expr@.take(k as int));
            assert(expr@.subrange(k + 1, n as int) =~= expr@.skip(k + 1));
            Condition::FieldEq(field, val)
        },
        None => Condition::TagMatch(expr.to_owned()),
    }
}

/// The first position from `i` on where `p` occurs in `h`.
pub open spec fn find_bytes_from(h: Seq<u8>, p: Seq<u8>, i: int) -> Option<int>
    decreases h.len() + 1 - i,
{
    if i < 0 || i + p.len() > h.len() {
        None
    } else if h.subrange(i, i + p.len()) == p {
        Some(i)
    } else {
        find_bytes_from(h, p, i + 1)
    }
}

proof fn lemma_find_bytes_bounds(h: Seq<u8>, p: Seq<u8>, i: int)
    requires
        0 <= i,
    ensures
        find_bytes_from(h, p, i) matches Some(k) ==> i <= k && k + p.len() <= h.len(),
    decreases h.len() + 1 - i,
{
    if i + p.len() <= h.len() && h.subrange(i, i + p.len()) != p {
        lemma_find_bytes_bounds(h, p, i + 1);
    }
}

/// The first position where `p` occurs in `h`.
fn find_bytes(h: &[u8], p: &[u8]) -> (r: Option<usize>)
    ensures
        match r {
            Some(k) => find_bytes_from(h@, p@, 0) == Some(k as int),
            None => find_bytes_from(h@, p@, 0) is None,
        },
{
    let hl = h.len();
    let pl = p.len();
    if pl > hl {
        return None;
    }
    let last = hl - pl;
    let mut i: usize = 0;
    while i <= last
        invariant
            hl == h@.len(),
            pl == p@.len(),
            last == hl - pl,
            i <= last + 1,
            find_bytes_from(h@, p@, i as int) == find_bytes_from(h@, p@, 0),
        decreases last + 1 - i,
    {
        let mut j: usize = 0;
        while j < pl && h[i + j] == p[j]
            invariant
                hl == h@.len(),
                pl == p@.len(),
                i + pl <= hl,
                j <= pl,
                forall|t: int| 0 <= t < j ==> h@[i + t] == p@[t],
            decreases pl - j,
        {
            j = j + 1;
        }
        if j == pl {
            assert(h@.subrange(i as int, i + pl) =~= p@);
            return Some(i);
        }
        assert(h@.subrange(i as int, i + pl) != p@) by {
            assert(h@.subrange(i as int, i + pl)[j as int] == h@[i + j]);
        }
        i = i + 1;
    }
    None
}

/// The bytes of " AND ".
pub open spec fn and_bytes() -> Seq<u8> {
    seq![32u8, 65u8, 78u8, 68u8, 32u8]
}

/// The bytes of " OR ".
pub open spec fn or_bytes() -> Seq<u8> {
    seq![32u8, 79u8, 82u8, 32u8]
}

/// The text of `e` before byte `pos` and after byte `pos + width`, where
/// both fall between characters.
pub open spec fn cut_around(e: Seq<char>, pos: int, width: int) -> Option<(Seq<char>, Seq<char>)> {
    let b = encode_utf8(e);
    if is_char_boundary(b, pos) && is_char_boundary(b, pos + width) {
        Some((decode_utf8(b.take(pos)), decode_utf8(b.skip(pos + width))))
    } else {
        None
    }
}

/// A query `e` whose upper-case form is `u`: split in two terms at the
/// first " AND " of `u` (else at its first " OR "), found by byte position
/// in `u` and cut at that byte position in `e`; else one term. Each term is
/// trimmed. `None` where the cut does not fall between characters of `e`.
pub open spec fn joined_form(e: Seq<char>, u: Seq<char>) -> Option<QueryForm> {
    let ub = encode_utf8(u);
    match find_bytes_from(ub, and_bytes(), 0) {
        Some(pos) => match cut_around(e, pos, 5) {
            Some((l, r)) => Some(
                QueryForm::And(Box::new(simple_form(trim_spec(l))), Box::new(simple_form(trim_spec(r)))),
            ),
            None => None,
        },
        None => match find_bytes_from(ub, or_bytes(), 0) {
            Some(pos) => match cut_around(e, pos, 4) {
                Some((l, r)) => Some(
                    QueryForm::Or(Box::new(simple_form(trim_spec(l))), Box::new(simple_form(trim_spec(r)))),
                ),
                None => None,
            },
            None => Some(simple_form(trim_spec(e))),
        },
    }
}

/// Both terms around byte `pos`, parsed, where the cut is between
/// characters.
fn cut_terms(expr: &str, pos: usize, width: usize) -> (r: Option<(Condition, Condition)>)
    requires
        pos + width <= usize::MAX,
    ensures
        match r {
            Some((a, b)) => cut_around(expr@, pos as int, width as int) matches Some((l, t)) && form_of(a)
                == simple_form(trim_spec(l)) && form_of(b) == simple_form(trim_spec(t)),
            None => cut_around(expr@, pos as int, width as int) is None,
        },
{
    if !expr.is_char_boundary(pos) || !expr.is_char_boundary(pos + width) {
        return None;
    }
    let (left, _tail) = expr.split_at(pos);
    let (_head, right) = expr.split_at(pos + width);
    proof {
        vstd::utf8::encode_utf8_decode_utf8(left@);
        vstd::utf8::encode_utf8_decode_utf8(right@);
        assert(left.spec_bytes() == encode_utf8(left@));
        assert(right.spec_bytes() == encode_utf8(right@));
        assert(encode_utf8(expr@).take(pos as int) == left.spec_bytes());
        assert(encode_utf8(expr@).skip(pos + width) == right.spec_bytes());
    }
    let a = parse_simple(trim_text(left).as_str());
    let b = parse_simple(trim_text(right).as_str());
    Some((a, b))
}

/// Parses a query given its upper-case form `upper` (see `joined_form`).
pub fn parse_query_upper(expr: &str, upper: &str) -> (r: Option<Condition>)
    ensures
        match r {
            Some(c) => joined_form(expr@, upper@) == Some(form_of(c)),
            None => joined_form(expr@, upper@) is None,
        },
{
    let ub = upper.as_bytes();
    let ulen = ub.len();
    assert(ub@.len() == ulen);
    let and_pat: Vec<u8> = vec![32u8, 65u8, 78u8, 68u8, 32u8];
    let or_pat: Vec<u8> = vec![32u8, 79u8, 82u8, 32u8];
    assert(and_pat@ =~= and_bytes());
    assert(or_pat@ =~= or_bytes());
    match find_bytes(ub, and_pat.as_slice()) {
        Some(pos) => {
            proof {
                lemma_find_bytes_bounds(ub@, and_bytes(), 0);
            }
            match cut_terms(expr, pos, 5) {
                Some((a, b)) => Some(Condition::And(Box::new(a), Box::new(b))),
                None => None,
            }
        },
        None => match find_bytes(ub, or_pat.as_slice()) {
            Some(pos) => {
                proof {
                    lemma_find_bytes_bounds(ub@, or_bytes(), 0);
                }
                match cut_terms(expr, pos, 4) {
                    Some((a, b)) => Some(Condition::Or(Box::new(a), Box::new(b))),
                    None => None,
                }
            },
            None => Some(parse_simple(trim_text(expr).as_str())),
        },
    }
}

/// The Unicode upper-case form of a text (`str::to_uppercase`); a fixed
/// function of the text.
pub uninterp spec fn spec_uppercase(s: Seq<char>) -> Seq<char>;

/// `str::to_uppercase`: the named `spec_uppercase` of the text.
#[verifier::external_body]
fn uppercase(s: &str) -> (r: String)
    ensures
        r@ == spec_uppercase(s@),
{
    s.to_uppercase()
}

/// Parses a query (see `joined_form`, with the text's upper-case form).
/// `None` where the split point found in the upper-case form does not fall
/// between characters of the query itself.
pub fn parse_query(expr: &str) -> (r: Option<Condition>)
    ensures
        match r {
            Some(c) => joined_form(expr@, spec_uppercase(expr@)) == Some(form_of(c)),
            None => joined_form(expr@, spec_uppercase(expr@)) is None,
        },
{
    let upper = uppercase(expr);
    parse_query_upper(expr, upper.as_str())
}

/// A tag condition: a tag equal to `tag`, or `tag` inside the key or the
/// value text.
pub open spec fn tag_match_spec(tag: Seq<char>, name: Seq<char>, payload: Seq<char>, tags: Seq<Seq<char>>) -> bool {
    tags.contains(tag) || has_sub(name, tag) || has_sub(payload, tag)
}

/// Whether a unit with key `name`, value text `payload` and `tags` meets
/// the tag condition `tag`.
pub fn tag_matches(tag: &str, name: &str, payload: &str, tags: &Vec<String>) -> (r: bool)
    ensures
        r == tag_match_spec(tag@, name@, payload@, tag_texts(tags@)),
{
    let mut i: usize = 0;
    while i < tags.len()
        invariant
            i <= tags@.len(),
            forall|j: int| 0 <= j < i ==> tags@[j]@ != tag@,
        decreases tags@.len() - i,
    {
        if str_equal(tags[i].as_str(), tag) {
            assert(tag_texts(tags@)[i as int] == tag@);
            return true;
        }
        i = i + 1;
    }
    assert(!tag_texts(tags@).contains(tag@)) by {
        if tag_texts(tags@).contains(tag@) {
            let j = choose|j: int| 0 <= j < tag_texts(tags@).len() && tag_texts(tags@)[j] == tag@;
            assert(tags@[j]@ == tag@);
        }
    }
    text_contains(name, tag) || text_contains(payload, tag)
}

/// Whether unit `u` meets the tag condition `tag`, its value read as UTF-8
/// text with invalid sequences replaced.
pub fn unit_matches_tag(u: &DataUnit, tag: &str) -> (r: bool)
    ensures
        r == tag_match_spec(tag@, u.yang.name@, spec_utf8_lossy(u.yin.payload@), tag_texts(u.yang.tags@)),
{
    let payload = utf8_lossy(u.yin.payload.as_slice());
    tag_matches(tag, u.yang.name.as_str(), payload.as_str(), &u.yang.tags)
}

/// The first position from `i` on that holds no double quote (or the end).
pub open spec fn quote_lead(s: Seq<char>, i: int) -> int
    decreases s.len() - i,
{
    if 0 <= i < s.len() && s[i] == '"' {
        quote_lead(s, i + 1)
    } else {
        i
    }
}

/// The end of `s.subrange(lo, j)` once trailing double quotes are dropped.
pub open spec fn quote_trail(s: Seq<char>, lo: int, j: int) -> int
    decreases j - lo,
{
    if lo < j && j <= s.len() && s[j - 1] == '"' {
        quote_trail(s, lo, j - 1)
    } else {
        j
    }
}

/// A text without its leading and trailing double quotes
/// (`str::trim_matches('"')`).
pub open spec fn trim_quotes_spec(s: Seq<char>) -> Seq<char> {
    let a = quote_lead(s, 0);
    s.subrange(a, quote_trail(s, a, s.len() as int))
}

/// `s` without its leading and trailing double quotes.
pub fn trim_quotes(s: &str) -> (t: String)
    ensures
        t@ == trim_quotes_spec(s@),
{
    let v = chars_of(s);
    let n = v.len();
    let mut a: usize = 0;
    while a < n && v[a] == '"'
        invariant
            v@ == s@,
            n == v@.len(),
            a <= n,
            quote_lead(s@, a as int) == quote_lead(s@, 0),
        decreases n - a,
    {
        a = a + 1;
    }
    let mut b: usize = n;
    while b > a && v[b - 1] == '"'
        invariant
            v@ == s@,
            n == v@.len(),
            a <= b <= n,
            a == quote_lead(s@, 0),
            quote_trail(s@, a as int, b as int) == quote_trail(s@, a as int, n as int),
        decreases b - a,
    {
        b = b - 1;
    }
    let part = s.substring_char(a, b);
    part.to_owned()
}

/// What `text`, read as a JSON document, holds under key `field`: the
/// value's string content when it is a JSON string, and its JSON text;
/// `None` when the text is no JSON, or no object, or has no such key. A
/// fixed function of the two texts.
pub uninterp spec fn spec_json_field(text: Seq<char>, field: Seq<char>) -> Option<(Option<Seq<char>>, Seq<char>)>;

/// `serde_json::from_str::<serde_json::Value>`, `Value::get`, `Value::as_str`
/// and `Value::to_string`: the named `spec_json_field`.
#[verifier::external_body]
fn json_field(text: &str, field: &str) -> (r: Option<(Option<String>, String)>)
    ensures
        match r {
            Some((s, j)) => spec_json_field(text@, field@) == Some(
                (
                    match s {
                        Some(x) => Some(x@),
                        None => None,
                    },
                    j@,
                ),
            ),
            None => spec_json_field(text@, field@) is None,
        },
{
    let json = serde_json::from_str::<serde_json::Value>(text).ok()?;
    let value = json.get(field)?;
    Some((value.as_str().map(String::from), value.to_string()))
}

/// Whether the value text `payload` meets `field=val`: the field's string
/// content, or its JSON text without surrounding quotes, equals `val`.
pub open spec fn field_eq_holds(payload: Seq<char>, field: Seq<char>, val: Seq<char>) -> bool {
    match spec_json_field(payload, field) {
        Some((content, json)) => content == Some(val) || trim_quotes_spec(json) == val,
        None => false,
    }
}

/// Whether the value text `payload` meets `field=val` (see `field_eq_holds`).
pub fn field_eq_matches(payload: &str, field: &str, val: &str) -> (r: bool)
    ensures
        r == field_eq_holds(payload@, field@, val@),
{
    match json_field(payload, field) {
        Some((content, json)) => {
            let same = match &content {
                Some(c) => str_equal(c.as_str(), val),
                None => false,
            };
            if same {
                return true;
            }
            let bare = trim_quotes(json.as_str());
            str_equal(bare.as_str(), val)
        },
        None => false,
    }
}

/// The conditions of `f` that compare a field of the value read as JSON
/// with a number (`field>n`, `field<n`), from left to right.
pub open spec fn field_leaves(f: QueryForm) -> Seq<QueryForm>
    decreases f,
{
    match f {
        QueryForm::FieldGt(_, _) => seq![f],
        QueryForm::FieldLt(_, _) => seq![f],
        QueryForm::And(l, r) => field_leaves(*l) + field_leaves(*r),
        QueryForm::Or(l, r) => field_leaves(*l) + field_leaves(*r),
        _ => Seq::empty(),
    }
}

/// Whether a unit with key `name`, value text `payload` and `tags` meets
/// `f`, where `leaves` gives, in the order of `field_leaves`, whether it
/// meets each numeric field condition: tag conditions as `tag_match_spec`,
/// `field=v` as `field_eq_holds`, time conditions always, `and` and `or` as
/// their parts.
pub open spec fn eval_form(f: QueryForm, name: Seq<char>, payload: Seq<char>, tags: Seq<Seq<char>>, leaves: Seq<bool>) -> bool
    decreases f,
{
    match f {
        QueryForm::TagMatch(t) => tag_match_spec(t, name, payload, tags),
        QueryForm::FieldGt(_, _) => leaves.len() > 0 && leaves[0],
        QueryForm::FieldLt(_, _) => leaves.len() > 0 && leaves[0],
        QueryForm::FieldEq(fld, v) => field_eq_holds(payload, fld, v),
        QueryForm::TimeAfter(_) => true,
        QueryForm::TimeBefore(_) => true,
        QueryForm::And(l, r) => eval_form(*l, name, payload, tags, leaves) && eval_form(
            *r,
            name,
            payload,
            tags,
            leaves.skip(field_leaves(*l).len() as int),
        ),
        QueryForm::Or(l, r) => eval_form(*l, name, payload, tags, leaves) || eval_form(
            *r,
            name,
            payload,
            tags,
            leaves.skip(field_leaves(*l).len() as int),
        ),
    }
}

/// The numeric field conditions of `cond`, from left to right (see
/// `field_leaves`).
pub fn field_conditions(cond: &Condition) -> (v: Vec<&Condition>)
    ensures
        v@.map_values(|c: &Condition| form_of(*c)) == field_leaves(form_of(*cond)),
    decreases cond,
{
    match cond {
        Condition::FieldGt(_, _) | Condition::FieldLt(_, _) => {
            let v = vec![cond];
            assert(v@.map_values(|c: &Condition| form_of(*c)) =~= seq![form_of(*cond)]);
            v
        },
        Condition::And(l, r) | Condition::Or(l, r) => {
            let mut a = field_conditions(&**l);
            let b = field_conditions(&**r);
            let ghost a0 = a@;
            let mut i: usize = 0;
            while i < b.len()
                invariant
                    i <= b@.len(),
                    a@ == a0 + b@.take(i as int),
                decreases b@.len() - i,
            {
                a.push(b[i]);
                i = i + 1;
                assert(a@ =~= a0 + b@.take(i as int));
            }
            assert(b@.take(b@.len() as int) =~= b@);
            assert(a@.map_values(|c: &Condition| form_of(*c)) =~= a0.map_values(|c: &Condition| form_of(*c))
                + b@.map_values(|c: &Condition| form_of(*c)));
            a
        },
        _ => {
            let v: Vec<&Condition> = Vec::new();
            assert(v@.map_values(|c: &Condition| form_of(*c)) =~= Seq::<QueryForm>::empty());
            v
        },
    }
}

/// `eval_form` from leaf `start` on.
fn eval_from(
    cond: &Condition,
    name: &str,
    payload: &str,
    tags: &Vec<String>,
    leaves: &[bool],
    start: usize,
) -> (r: bool)
    requires
        start + field_leaves(form_of(*cond)).len() <= leaves@.len(),
    ensures
        r == eval_form(form_of(*cond), name@, payload@, tag_texts(tags@), leaves@.skip(start as int)),
    decreases cond,
{
    let total = leaves.len();
    match cond {
        Condition::TagMatch(t) => tag_matches(t.as_str(), name, payload, tags),
        Condition::FieldGt(_, _) | Condition::FieldLt(_, _) => leaves[start],
        Condition::FieldEq(f, v) => field_eq_matches(payload, f.as_str(), v.as_str()),
        Condition::TimeAfter(_) | Condition::TimeBefore(_) => true,
        Condition::And(l, r) => {
            let lv = field_conditions(&**l);
            let n = lv.len();
            assert(lv@.map_values(|c: &Condition| form_of(*c)).len() == n);
            assert(n == field_leaves(form_of(**l)).len());
            assert(field_leaves(form_of(*cond)) == field_leaves(form_of(**l)) + field_leaves(form_of(**r)));
            let a = eval_from(&**l, name, payload, tags, leaves, start);
            if !a {
                return false;
            }
            assert(leaves@.skip(start as int).skip(n as int) =~= leaves@.skip(start + n));
            eval_from(&**r, name, payload, tags, leaves, start + n)
        },
        Condition::Or(l, r) => {
            let lv = field_conditions(&**l);
            let n = lv.len();
            assert(lv@.map_values(|c: &Condition| form_of(*c)).len() == n);
            assert(n == field_leaves(form_of(**l)).len());
            assert(field_leaves(form_of(*cond)) == field_leaves(form_of(**l)) + field_leaves(form_of(**r)));
            let a = eval_from(&**l, name, payload, tags, leaves, start);
            if a {
                return true;
            }
            assert(leaves@.skip(start as int).skip(n as int) =~= leaves@.skip(start + n));
            eval_from(&**r, name, payload, tags, leaves, start + n)
        },
    }
}

/// Whether unit `u` meets `cond`, its value read as UTF-8 text with invalid
/// sequences replaced, where `leaves` gives, in the order of
/// `field_conditions`, whether it meets each numeric field condition.
pub fn evaluate_form(cond: &Condition, u: &DataUnit, leaves: &[bool]) -> (r: bool)
    requires
        leaves@.len() == field_leaves(form_of(*cond)).len(),
    ensures
        r == eval_form(
            form_of(*cond),
            u.yang.name@,
            spec_utf8_lossy(u.yin.payload@),
            tag_texts(u.yang.tags@),
            leaves@,
        ),
{
    let payload = utf8_lossy(u.yin.payload.as_slice());
    assert(leaves@.skip(0) =~= leaves@);
    eval_from(cond, u.yang.name.as_str(), payload.as_str(), &u.yang.tags, leaves, 0)
}

} // verus!
