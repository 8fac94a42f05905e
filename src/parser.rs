//! Parsing a template ("replacer string") into elements.
//!
//! ```text
//! template   := element*
//! element    := literal | specifier
//! literal    := (any char but '\' or '{' | '\' one of '{' '}' '\')+
//! specifier  := '{' matcher index? ('=' replace)? (':' format)? '}'
//! matcher    := any chars but digits, '=', ':' and '}'; "n" once trimmed selects Number
//! index      := digit+
//! replace    := (any char but '\', ':' or '}' | '\' one of '{' '}' ':' '\')*
//! format     := '0'? digit*
//! ```
use vstd::prelude::*;

use crate::elem::{elems_view, Elem, ElemView};
use crate::formatter::Formatter;
use crate::matcher::Matcher;
use crate::spec::{Spec, SpecView};
use crate::text::{chars_of, push_char};
use crate::tokens::is_digit;

verus! {

/// Where a template stops being well formed.
#[derive(Debug, Clone, Copy, PartialEq, Eq, Structural)]
pub struct Error {
    /// The character offset of the element that could not be parsed.
    pub position: usize,
}

/// Whitespace as Unicode's `White_Space` property gives it.
pub open spec fn is_white(c: char) -> bool {
    ('\u{9}' <= c && c <= '\u{D}') || c == ' ' || c == '\u{85}' || c == '\u{A0}' || c
        == '\u{1680}' || ('\u{2000}' <= c && c <= '\u{200A}') || c == '\u{2028}' || c
        == '\u{2029}' || c == '\u{202F}' || c == '\u{205F}' || c == '\u{3000}'
}

/// `t` without leading whitespace.
pub open spec fn trim_start(t: Seq<char>) -> Seq<char>
    decreases t.len(),
{
    if t.len() > 0 && is_white(t[0]) {
        trim_start(t.drop_first())
    } else {
        t
    }
}

/// `t` without trailing whitespace.
pub open spec fn trim_end(t: Seq<char>) -> Seq<char>
    decreases t.len(),
{
    if t.len() > 0 && is_white(t.last()) {
        trim_end(t.drop_last())
    } else {
        t
    }
}

/// Whether a matcher text selects the `Number` matcher.
pub open spec fn selects_number(t: Seq<char>) -> bool {
    trim_end(trim_start(t)) == seq!['n']
}

/// Whether `c` ends the matcher part of a specifier.
pub open spec fn ends_matcher(c: char) -> bool {
    is_digit(c) || c == '=' || c == ':' || c == '}'
}

/// The first position from `p` on whose character ends the matcher part, or the end.
pub open spec fn matcher_end(s: Seq<char>, p: int) -> int
    decreases s.len() - p,
{
    if p < 0 || p >= s.len() || ends_matcher(s[p]) {
        p
    } else {
        matcher_end(s, p + 1)
    }
}

/// The first position from `p` on that does not hold an ASCII digit, or the end.
pub open spec fn digits_end(s: Seq<char>, p: int) -> int
    decreases s.len() - p,
{
    if p < 0 || p >= s.len() || !is_digit(s[p]) {
        p
    } else {
        digits_end(s, p + 1)
    }
}

/// The number written by the decimal digits `t`.
pub open spec fn digits_value(t: Seq<char>) -> nat
    decreases t.len(),
{
    if t.len() == 0 {
        0
    } else {
        digits_value(t.drop_last()) * 10 + ((t.last() as u32) - ('0' as u32)) as nat
    }
}

/// The characters that a backslash escapes: braces and the backslash, and the colon too
/// inside a replace text.
pub open spec fn is_escapable(c: char, colon: bool) -> bool {
    c == '{' || c == '}' || c == '\\' || (colon && c == ':')
}

/// Whether `c` ends a run of text: an opening brace for a literal, a colon or a closing
/// brace for a replace text.
pub open spec fn ends_text(c: char, colon: bool) -> bool {
    if colon {
        c == ':' || c == '}'
    } else {
        c == '{'
    }
}

/// The end of the run of text that starts at `p`, or `None` where a backslash escapes
/// nothing it may escape.
pub open spec fn text_end(s: Seq<char>, p: int, colon: bool) -> Option<int>
    decreases s.len() - p,
{
    if p < 0 || p >= s.len() || ends_text(s[p], colon) {
        Some(p)
    } else if s[p] == '\\' {
        if p + 1 < s.len() && is_escapable(s[p + 1], colon) {
            text_end(s, p + 2, colon)
        } else {
            None
        }
    } else {
        text_end(s, p + 1, colon)
    }
}

/// `t` with each escaping backslash removed.
pub open spec fn unescape(t: Seq<char>, colon: bool) -> Seq<char>
    decreases t.len(),
{
    if t.len() == 0 {
        seq![]
    } else if t[0] == '\\' && t.len() > 1 && is_escapable(t[1], colon) {
        seq![t[1]] + unescape(t.subrange(2, t.len() as int), colon)
    } else {
        seq![t[0]] + unescape(t.drop_first(), colon)
    }
}

/// The specifier whose text starts at `p`, just after its opening brace, and the position
/// after its closing brace; `None` where it is not well formed.
pub open spec fn parse_spec(s: Seq<char>, p: int) -> Option<(SpecView, int)> {
    let m_end = matcher_end(s, p);
    let matcher = if selects_number(s.subrange(p, m_end)) {
        Matcher::Number
    } else {
        Matcher::Any
    };
    let d_end = digits_end(s, m_end);
    let v = digits_value(s.subrange(m_end, d_end));
    if d_end > m_end && v > usize::MAX {
        None
    } else {
        let index = if d_end > m_end {
            Some(v as usize)
        } else {
            None
        };
        let has_replace = d_end < s.len() && s[d_end] == '=';
        let scanned = if has_replace {
            text_end(s, d_end + 1, true)
        } else {
            Some(d_end)
        };
        match scanned {
            None => None,
            Some(r_end) => {
                let replace = if has_replace {
                    Some(unescape(s.subrange(d_end + 1, r_end), true))
                } else {
                    None
                };
                let has_format = r_end < s.len() && s[r_end] == ':';
                let a = r_end + 1;
                let zero = a < s.len() && s[a] == '0';
                let b = if zero {
                    a + 1
                } else {
                    a
                };
                let e = digits_end(s, b);
                let w = digits_value(s.subrange(b, e));
                if has_format && (w > usize::MAX || !(e < s.len() && s[e] == '}')) {
                    None
                } else {
                    let formatter = if has_format {
                        Some(
                            Formatter {
                                fill: if zero {
                                    '0'
                                } else {
                                    ' '
                                },
                                width: w as usize,
                            },
                        )
                    } else {
                        None
                    };
                    let f_end = if has_format {
                        e
                    } else {
                        r_end
                    };
                    if f_end < s.len() && s[f_end] == '}' {
                        Some((SpecView { matcher, index, replace, formatter }, f_end + 1))
                    } else {
                        None
                    }
                }
            },
        }
    }
}

/// The element that starts at `p`, and the position after it.
pub open spec fn parse_elem(s: Seq<char>, p: int) -> Option<(ElemView, int)> {
    if s[p] == '{' {
        match parse_spec(s, p + 1) {
            Some((v, q)) => Some((ElemView::Spec(v), q)),
            None => None,
        }
    } else {
        match text_end(s, p, false) {
            Some(q) => Some((ElemView::Lit(unescape(s.subrange(p, q), false)), q)),
            None => None,
        }
    }
}

/// The elements of `s` from position `p` on; `None` where the rest is not well formed.
pub open spec fn parse_from(s: Seq<char>, p: int) -> Option<Seq<ElemView>>
    decreases s.len() - p,
{
    if p < 0 || p >= s.len() {
        Some(seq![])
    } else {
        match parse_elem(s, p) {
            Some((e, q)) => if p < q <= s.len() {
                match parse_from(s, q) {
                    Some(rest) => Some(seq![e] + rest),
                    None => None,
                }
            } else {
                None
            },
            None => None,
        }
    }
}

/// The elements of a template, or `None` where it is not well formed.
pub open spec fn parse_template(s: Seq<char>) -> Option<Seq<ElemView>> {
    parse_from(s, 0)
}

pub(crate) proof fn lemma_trim_start(t: Seq<char>, k: int)
    requires
        0 <= k <= t.len(),
        forall|i: int| 0 <= i < k ==> is_white(t[i]),
        k == t.len() || !is_white(t[k]),
    ensures
        trim_start(t) == t.subrange(k, t.len() as int),
    decreases k,
{
    if k > 0 {
        let u = t.drop_first();
        assert forall|i: int| 0 <= i < k - 1 implies is_white(u[i]) by {
            assert(is_white(t[i + 1]));
        }
        lemma_trim_start(u, k - 1);
        assert(u.subrange(k - 1, u.len() as int) =~= t.subrange(k, t.len() as int));
    } else {
        assert(t.subrange(0, t.len() as int) =~= t);
    }
}

pub(crate) proof fn lemma_trim_end(t: Seq<char>, k: int)
    requires
        0 <= k <= t.len(),
        forall|i: int| k <= i < t.len() ==> is_white(t[i]),
        k == 0 || !is_white(t[k - 1]),
    ensures
        trim_end(t) == t.subrange(0, k),
    decreases t.len() - k,
{
    if k < t.len() {
        let u = t.drop_last();
        lemma_trim_end(u, k);
        assert(u.subrange(0, k) =~= t.subrange(0, k));
    } else {
        assert(t.subrange(0, k) =~= t);
    }
}

proof fn lemma_digits_prefix(t: Seq<char>, k: int)
    requires
        0 <= k <= t.len(),
    ensures
        digits_value(t.subrange(0, k)) <= digits_value(t),
    decreases t.len(),
{
    if k < t.len() {
        lemma_digits_prefix(t.drop_last(), k);
        assert(t.drop_last().subrange(0, k) =~= t.subrange(0, k));
    } else {
        assert(t.subrange(0, k) =~= t);
    }
}

/// Whether `c` is whitespace.
pub(crate) fn is_whitespace(c: char) -> (r: bool)
    ensures
        r == is_white(c),
{
    ('\u{9}' <= c && c <= '\u{D}') || c == ' ' || c == '\u{85}' || c == '\u{A0}' || c
        == '\u{1680}' || ('\u{2000}' <= c && c <= '\u{200A}') || c == '\u{2028}' || c
        == '\u{2029}' || c == '\u{202F}' || c == '\u{205F}' || c == '\u{3000}'
}

/// The end of the run of ASCII digits at `p`.
fn digit_run(cs: &Vec<char>, p: usize) -> (e: usize)
    requires
        p <= cs@.len(),
    ensures
        e == digits_end(cs@, p as int),
        p <= e <= cs@.len(),
{
    let mut i = p;
    while i < cs.len() && '0' <= cs[i] && cs[i] <= '9'
        invariant
            p <= i <= cs@.len(),
            digits_end(cs@, p as int) == digits_end(cs@, i as int),
        decreases cs@.len() - i,
    {
        i = i + 1;
    }
    i
}

/// The number written by the digits `cs[a..b]`, unless it exceeds `usize::MAX`.
fn parse_usize(cs: &Vec<char>, a: usize, b: usize) -> (r: Option<usize>)
    requires
        a <= b <= cs@.len(),
        forall|i: int| a <= i < b ==> is_digit(cs@[i]),
    ensures
        r == (if digits_value(cs@.subrange(a as int, b as int)) <= usize::MAX {
            Some(digits_value(cs@.subrange(a as int, b as int)) as usize)
        } else {
            None
        }),
{
    let ghost t = cs@.subrange(a as int, b as int);
    let mut v: usize = 0;
    let mut i = a;
    assert(t.subrange(0, 0) =~= Seq::<char>::empty());
    while i < b
        invariant
            a <= i <= b <= cs@.len(),
            t == cs@.subrange(a as int, b as int),
            forall|j: int| a <= j < b ==> is_digit(cs@[j]),
            v as nat == digits_value(t.subrange(0, i - a)),
        decreases b - i,
    {
        let d = (cs[i] as u32 - '0' as u32) as usize;
        assert(t.subrange(0, i + 1 - a).drop_last() =~= t.subrange(0, i - a));
        match v.checked_mul(10) {
            Some(m) => match m.checked_add(d) {
                Some(n) => {
                    v = n;
                },
                None => {
                    proof {
                        lemma_digits_prefix(t, i + 1 - a);
                    }
                    return None;
                },
            },
            None => {
                proof {
                    lemma_digits_prefix(t, i + 1 - a);
                }
                return None;
            },
        }
        i = i + 1;
    }
    assert(t.subrange(0, b - a) =~= t);
    Some(v)
}

/// The end of the run of text at `p`, as `text_end` gives it.
fn scan_text(cs: &Vec<char>, p: usize, colon: bool) -> (r: Option<usize>)
    requires
        p <= cs@.len(),
    ensures
        match r {
            Some(q) => text_end(cs@, p as int, colon) == Some(q as int) && p <= q <= cs@.len(),
            None => text_end(cs@, p as int, colon) is None,
        },
{
    let n = cs.len();
    let mut i = p;
    while i < n
        invariant
            n == cs@.len(),
            p <= i <= n,
            text_end(cs@, p as int, colon) == text_end(cs@, i as int, colon),
        decreases n - i,
    {
        let c = cs[i];
        if (colon && (c == ':' || c == '}')) || (!colon && c == '{') {
            return Some(i);
        }
        if c == '\\' {
            if i + 1 < n && (cs[i + 1] == '{' || cs[i + 1] == '}' || cs[i + 1] == '\\' || (colon
                && cs[i + 1] == ':')) {
                i = i + 2;
            } else {
                return None;
            }
        } else {
            i = i + 1;
        }
    }
    Some(i)
}

/// `t` with each escaping backslash removed.
fn unescape_chars(t: &[char], colon: bool) -> (r: String)
    ensures
        r@ == unescape(t@, colon),
{
    let n = t.len();
    let mut r = String::new();
    let mut i: usize = 0;
    assert(t@.subrange(0, n as int) =~= t@);
    assert(r@ + unescape(t@, colon) =~= unescape(t@, colon));
    while i < n
        invariant
            n == t@.len(),
            i <= n,
            unescape(t@, colon) == r@ + unescape(t@.subrange(i as int, n as int), colon),
        decreases n - i,
    {
        let ghost rest = t@.subrange(i as int, n as int);
        let c = t[i];
        if c == '\\' && i + 1 < n && (t[i + 1] == '{' || t[i + 1] == '}' || t[i + 1] == '\\' || (
        colon && t[i + 1] == ':')) {
            push_char(&mut r, t[i + 1]);
            assert(rest.subrange(2, rest.len() as int) =~= t@.subrange(i + 2, n as int));
            i = i + 2;
        } else {
            push_char(&mut r, c);
            assert(rest.drop_first() =~= t@.subrange(i + 1, n as int));
            i = i + 1;
        }
    }
    assert(unescape(t@.subrange(n as int, n as int), colon) =~= Seq::<char>::empty());
    r
}

/// Unescape a literal: `\{`, `\}` and `\\` stand for the character after the backslash.
fn unescape_lit(t: &[char]) -> (r: String)
    ensures
        r@ == unescape(t@, false),
{
    unescape_chars(t, false)
}

/// Unescape a replace text: `\{`, `\}`, `\:` and `\\` stand for the character after the
/// backslash.
fn unescape_replace(t: &[char]) -> (r: String)
    ensures
        r@ == unescape(t@, true),
{
    unescape_chars(t, true)
}

/// The matcher that the text `cs[p..]` selects, up to the end of the matcher part.
fn spec_matcher(cs: &Vec<char>, p: usize) -> (r: (Matcher, usize))
    requires
        p <= cs@.len(),
    ensures
        r.1 == matcher_end(cs@, p as int),
        p <= r.1 <= cs@.len(),
        r.0 == (if selects_number(cs@.subrange(p as int, r.1 as int)) {
            Matcher::Number
        } else {
            Matcher::Any
        }),
{
    let n = cs.len();
    let mut e = p;
    while e < n && !(('0' <= cs[e] && cs[e] <= '9') || cs[e] == '=' || cs[e] == ':' || cs[e]
        == '}')
        invariant
            n == cs@.len(),
            p <= e <= n,
            matcher_end(cs@, p as int) == matcher_end(cs@, e as int),
        decreases n - e,
    {
        e = e + 1;
    }
    let ghost t = cs@.subrange(p as int, e as int);
    let mut a = p;
    while a < e && is_whitespace(cs[a])
        invariant
            p <= a <= e <= n == cs@.len(),
            forall|i: int| p <= i < a ==> is_white(cs@[i]),
        decreases e - a,
    {
        a = a + 1;
    }
    proof {
        lemma_trim_start(t, a - p);
    }
    let ghost u = t.subrange(a - p, t.len() as int);
    let mut b = e;
    while b > a && is_whitespace(cs[b - 1])
        invariant
            p <= a <= b <= e <= n == cs@.len(),
            forall|i: int| b <= i < e ==> is_white(cs@[i]),
        decreases b - a,
    {
        b = b - 1;
    }
    proof {
        lemma_trim_end(u, b - a);
        assert(u.subrange(0, b - a) =~= cs@.subrange(a as int, b as int));
    }
    let m = if b > a && b - a == 1 && cs[a] == 'n' {
        Matcher::Number
    } else {
        Matcher::Any
    };
    proof {
        if b > a && b - a == 1 && cs@[a as int] == 'n' {
            assert(cs@.subrange(a as int, b as int) =~= seq!['n']);
        } else {
            assert(cs@.subrange(a as int, b as int).len() != 1 || cs@.subrange(a as int, b as int)[0]
                != 'n');
        }
    }
    (m, e)
}

/// The replace text that starts at `p`, just after `=`, and its end.
fn spec_replace(cs: &Vec<char>, p: usize) -> (r: Option<(String, usize)>)
    requires
        p <= cs@.len(),
    ensures
        match r {
            Some((t, q)) => text_end(cs@, p as int, true) == Some(q as int) && p <= q <= cs@.len()
                && t@ == unescape(cs@.subrange(p as int, q as int), true),
            None => text_end(cs@, p as int, true) is None,
        },
{
    match scan_text(cs, p, true) {
        Some(q) => {
            let t = unescape_replace(&cs.as_slice()[p..q]);
            Some((t, q))
        },
        None => None,
    }
}

/// The format part that starts at `p`, just after `:`, and the position of the closing
/// brace that must follow it.
fn spec_formatter(cs: &Vec<char>, p: usize) -> (r: Option<(Formatter, usize)>)
    requires
        p <= cs@.len(),
    ensures
        ({
            let s = cs@;
            let zero = p < s.len() && s[p as int] == '0';
            let b = if zero {
                p + 1
            } else {
                p as int
            };
            let e = digits_end(s, b);
            let w = digits_value(s.subrange(b, e));
            match r {
                Some((f, q)) => !(w > usize::MAX || !(e < s.len() && s[e] == '}')) && q == e
                    && f == (Formatter {
                    fill: if zero {
                        '0'
                    } else {
                        ' '
                    },
                    width: w as usize,
                }),
                None => w > usize::MAX || !(e < s.len() && s[e] == '}'),
            }
        }),
{
    let n = cs.len();
    let zero = p < n && cs[p] == '0';
    let b = if zero {
        p + 1
    } else {
        p
    };
    let e = digit_run(cs, b);
    proof {
        lemma_digit_run(cs@, b as int);
    }
    let width = match parse_usize(cs, b, e) {
        Some(w) => w,
        None => {
            return None;
        },
    };
    if e < n && cs[e] == '}' {
        let fill = if zero {
            '0'
        } else {
            ' '
        };
        Some((Formatter { fill, width }, e))
    } else {
        None
    }
}

proof fn lemma_digit_run(s: Seq<char>, p: int)
    requires
        0 <= p <= s.len(),
    ensures
        p <= digits_end(s, p) <= s.len(),
        forall|i: int| p <= i < digits_end(s, p) ==> is_digit(s[i]),
    decreases s.len() - p,
{
    if p < s.len() && is_digit(s[p]) {
        lemma_digit_run(s, p + 1);
    }
}

/// The specifier whose text starts at `p`, just after `{`, and the position after its
/// closing brace.
fn specifier(cs: &Vec<char>, p: usize) -> (r: Option<(Spec, usize)>)
    requires
        p <= cs@.len(),
    ensures
        match r {
            Some((sp, q)) => parse_spec(cs@, p as int) == Some((sp@, q as int)),
            None => parse_spec(cs@, p as int) is None,
        },
{
    let n = cs.len();
    let (matcher, m_end) = spec_matcher(cs, p);
    let d_end = digit_run(cs, m_end);
    proof {
        lemma_digit_run(cs@, m_end as int);
    }
    let index = if d_end > m_end {
        match parse_usize(cs, m_end, d_end) {
            Some(v) => Some(v),
            None => {
                return None;
            },
        }
    } else {
        None
    };
    let has_replace = d_end < n && cs[d_end] == '=';
    let (replace, r_end) = if has_replace {
        match spec_replace(cs, d_end + 1) {
            Some((t, q)) => (Some(t), q),
            None => {
                return None;
            },
        }
    } else {
        (None, d_end)
    };
    let has_format = r_end < n && cs[r_end] == ':';
    let (formatter, f_end) = if has_format {
        match spec_formatter(cs, r_end + 1) {
            Some((f, q)) => (Some(f), q),
            None => {
                return None;
            },
        }
    } else {
        (None, r_end)
    };
    if f_end < n && cs[f_end] == '}' {
        let sp = Spec { matcher, index, replace, formatter };
        Some((sp, f_end + 1))
    } else {
        None
    }
}

proof fn lemma_text_end_from(s: Seq<char>, p: int, colon: bool)
    requires
        0 <= p,
    ensures
        text_end(s, p, colon) matches Some(q) ==> p <= q,
    decreases s.len() - p,
{
    if p < s.len() && !ends_text(s[p], colon) {
        if s[p] == '\\' {
            if p + 1 < s.len() {
                lemma_text_end_from(s, p + 2, colon);
            }
        } else {
            lemma_text_end_from(s, p + 1, colon);
        }
    }
}

/// A literal that starts at `p`, and its end.
fn elem_lit(cs: &Vec<char>, p: usize) -> (r: Option<(Elem, usize)>)
    requires
        p < cs@.len(),
        cs@[p as int] != '{',
    ensures
        match r {
            Some((e, q)) => parse_elem(cs@, p as int) == Some((e@, q as int)) && p < q <= cs@.len(),
            None => parse_elem(cs@, p as int) is None,
        },
{
    proof {
        if cs@[p as int] == '\\' {
            lemma_text_end_from(cs@, p + 2, false);
        } else {
            lemma_text_end_from(cs@, p + 1, false);
        }
    }
    match scan_text(cs, p, false) {
        Some(q) => {
            let t = unescape_lit(&cs.as_slice()[p..q]);
            Some((Elem::Lit(t), q))
        },
        None => None,
    }
}

/// A specifier element that starts at `p`, on `{`, and the position after it.
fn elem_spec(cs: &Vec<char>, p: usize) -> (r: Option<(Elem, usize)>)
    requires
        p < cs@.len(),
        cs@[p as int] == '{',
    ensures
        match r {
            Some((e, q)) => parse_elem(cs@, p as int) == Some((e@, q as int)),
            None => parse_elem(cs@, p as int) is None,
        },
{
    let n = cs.len();
    match specifier(cs, p + 1) {
        Some((sp, q)) => Some((Elem::Spec(sp), q)),
        None => None,
    }
}

/// The elements of `cs`, or the position of the first element that is not well formed.
fn root(cs: &Vec<char>) -> (r: Result<Vec<Elem>, usize>)
    ensures
        match r {
            Ok(v) => parse_from(cs@, 0) == Some(elems_view(v@)),
            Err(pos) => parse_from(cs@, 0) is None && pos <= cs@.len(),
        },
{
    let n = cs.len();
    let mut elems: Vec<Elem> = Vec::new();
    let mut p: usize = 0;
    assert(elems_view(elems@) + Seq::<ElemView>::empty() =~= Seq::<ElemView>::empty());
    while p < n
        invariant
            n == cs@.len(),
            p <= n,
            parse_from(cs@, 0) == match parse_from(cs@, p as int) {
                Some(rest) => Some(elems_view(elems@) + rest),
                None => None,
            },
        decreases n - p,
    {
        let next = if cs[p] == '{' {
            elem_spec(cs, p)
        } else {
            elem_lit(cs, p)
        };
        match next {
            Some((e, q)) => {
                if q <= p || q > n {
                    return Err(p);
                }
                let ghost before = elems@;
                elems.push(e);
                proof {
                    assert(elems_view(elems@) =~= elems_view(before).push(e@));
                    match parse_from(cs@, q as int) {
                        Some(rest) => {
                            assert(elems_view(before) + (seq![e@] + rest) =~= elems_view(elems@)
                                + rest);
                        },
                        None => {},
                    }
                }
                p = q;
            },
            None => {
                return Err(p);
            },
        }
    }
    assert(elems_view(elems@) + Seq::<ElemView>::empty() =~= elems_view(elems@));
    Ok(elems)
}

/// Parse a template into its elements.
///
/// Fails, giving the position of the element in question, on an unterminated or
/// malformed specifier, a backslash that escapes nothing it may escape, or an index or a
/// width beyond `usize::MAX`.
pub fn parse(s: &str) -> (r: Result<Vec<Elem>, Error>)
    ensures
        match r {
            Ok(v) => parse_template(s@) == Some(elems_view(v@)),
            Err(e) => parse_template(s@) is None && e.position <= s@.len(),
        },
{
    let cs = chars_of(s);
    match root(&cs) {
        Ok(v) => Ok(v),
        Err(position) => Err(Error { position }),
    }
}

} // verus!
