//! Splitting a command line into arguments.
//!
//! Arguments are separated by spaces. Inside an argument, text in double or single
//! quotes is taken without its quotes, spaces included; a backslash in quoted text
//! lets the quote or a backslash follow it, and is kept.
use vstd::prelude::*;

use crate::parser::{is_white, is_whitespace, lemma_trim_end, lemma_trim_start, trim_end, trim_start};
use crate::text::{chars_of, push_char, strings_view};

verus! {

/// The command line is not well formed: a quote is left open, or a backslash in quoted
/// text is followed by neither the quote nor a backslash.
#[derive(Debug, Clone, Copy, PartialEq, Eq, Structural)]
pub struct Error;

impl Error {
    /// A description of the error.
    pub fn message(&self) -> (r: String)
        ensures
            r@ == "failed to parse command"@,
    {
        String::from_str("failed to parse command")
    }
}

/// Whether `c` can stand in an argument outside quotes.
pub open spec fn is_plain(c: char) -> bool {
    c != ' ' && c != '"' && c != '\''
}

/// The position of the quote `q` that closes the quoted text starting at `p`.
pub open spec fn quoted_end(t: Seq<char>, p: int, q: char) -> Option<int>
    decreases t.len() - p,
{
    if p < 0 || p >= t.len() {
        None
    } else if t[p] == q {
        Some(p)
    } else if t[p] == '\\' {
        if p + 1 < t.len() && (t[p + 1] == q || t[p + 1] == '\\') {
            quoted_end(t, p + 2, q)
        } else {
            None
        }
    } else {
        quoted_end(t, p + 1, q)
    }
}

/// The end of the run of plain characters at `p`.
pub open spec fn plain_end(t: Seq<char>, p: int) -> int
    decreases t.len() - p,
{
    if p < 0 || p >= t.len() || !is_plain(t[p]) {
        p
    } else {
        plain_end(t, p + 1)
    }
}

/// The text of the argument from `p` on, up to a space or the end, and where it stops;
/// `None` where a quote in it is not well formed.
pub open spec fn arg_from(t: Seq<char>, p: int) -> Option<(Seq<char>, int)>
    decreases t.len() - p,
{
    if p < 0 || p >= t.len() || t[p] == ' ' {
        Some((seq![], p))
    } else if t[p] == '"' || t[p] == '\'' {
        match quoted_end(t, p + 1, t[p]) {
            Some(e) => if p < e < t.len() {
                match arg_from(t, e + 1) {
                    Some((rest, f)) => Some((t.subrange(p + 1, e) + rest, f)),
                    None => None,
                }
            } else {
                None
            },
            None => None,
        }
    } else {
        let e = plain_end(t, p);
        if p < e <= t.len() {
            match arg_from(t, e) {
                Some((rest, f)) => Some((t.subrange(p, e) + rest, f)),
                None => None,
            }
        } else {
            None
        }
    }
}

/// The end of the run of spaces at `p`.
pub open spec fn spaces_end(t: Seq<char>, p: int) -> int
    decreases t.len() - p,
{
    if p < 0 || p >= t.len() || t[p] != ' ' {
        p
    } else {
        spaces_end(t, p + 1)
    }
}

/// The arguments of `t` from `p` on, where an argument starts at `p`.
pub open spec fn args_from(t: Seq<char>, p: int) -> Option<Seq<Seq<char>>>
    decreases t.len() - p,
{
    match arg_from(t, p) {
        None => None,
        Some((a, e)) => if e <= p || e > t.len() {
            None
        } else if e == t.len() {
            Some(seq![a])
        } else {
            let f = spaces_end(t, e);
            if f >= t.len() || f <= p {
                None
            } else {
                match args_from(t, f) {
                    Some(rest) => Some(seq![a] + rest),
                    None => None,
                }
            }
        },
    }
}

/// The arguments of a command line, once trimmed of surrounding whitespace.
pub open spec fn command_args(s: Seq<char>) -> Option<Seq<Seq<char>>> {
    let t = trim_end(trim_start(s));
    if t.len() == 0 {
        Some(seq![])
    } else {
        args_from(t, 0)
    }
}

/// The position of the quote `q` that closes the quoted text starting at `p`.
fn quoted(t: &Vec<char>, p: usize, q: char) -> (r: Option<usize>)
    requires
        p <= t@.len(),
    ensures
        match r {
            Some(e) => quoted_end(t@, p as int, q) == Some(e as int) && p <= e < t@.len(),
            None => quoted_end(t@, p as int, q) is None,
        },
{
    let n = t.len();
    let mut i = p;
    while i < n
        invariant
            n == t@.len(),
            p <= i <= n,
            quoted_end(t@, p as int, q) == quoted_end(t@, i as int, q),
        decreases n - i,
    {
        if t[i] == q {
            return Some(i);
        }
        if t[i] == '\\' {
            if i + 1 < n && (t[i + 1] == q || t[i + 1] == '\\') {
                i = i + 2;
            } else {
                return None;
            }
        } else {
            i = i + 1;
        }
    }
    None
}

/// The end of a double quoted text whose opening quote is just before `p`.
fn double_quoted(t: &Vec<char>, p: usize) -> (r: Option<usize>)
    requires
        p <= t@.len(),
    ensures
        match r {
            Some(e) => quoted_end(t@, p as int, '"') == Some(e as int) && p <= e < t@.len(),
            None => quoted_end(t@, p as int, '"') is None,
        },
{
    quoted(t, p, '"')
}

/// The end of a single quoted text whose opening quote is just before `p`.
fn single_quoted(t: &Vec<char>, p: usize) -> (r: Option<usize>)
    requires
        p <= t@.len(),
    ensures
        match r {
            Some(e) => quoted_end(t@, p as int, '\'') == Some(e as int) && p <= e < t@.len(),
            None => quoted_end(t@, p as int, '\'') is None,
        },
{
    quoted(t, p, '\'')
}

/// Append `t[a..b]` to `out`.
fn push_range(out: &mut String, t: &Vec<char>, a: usize, b: usize)
    requires
        a <= b <= t@.len(),
    ensures
        final(out)@ == old(out)@ + t@.subrange(a as int, b as int),
{
    let mut i = a;
    while i < b
        invariant
            a <= i <= b <= t@.len(),
            out@ == old(out)@ + t@.subrange(a as int, i as int),
        decreases b - i,
    {
        push_char(out, t[i]);
        i = i + 1;
        assert(out@ =~= old(out)@ + t@.subrange(a as int, i as int));
    }
}

/// One argument from `p` on, and where it stops.
fn arg(t: &Vec<char>, p: usize) -> (r: Option<(String, usize)>)
    requires
        p <= t@.len(),
    ensures
        match r {
            Some((a, e)) => arg_from(t@, p as int) == Some((a@, e as int)),
            None => arg_from(t@, p as int) is None,
        },
{
    let n = t.len();
    let mut out = String::new();
    let mut i = p;
    assert(out@ + Seq::<char>::empty() =~= Seq::<char>::empty());
    while i < n && t[i] != ' '
        invariant
            n == t@.len(),
            p <= i <= n,
            arg_from(t@, p as int) == match arg_from(t@, i as int) {
                Some((rest, f)) => Some((out@ + rest, f)),
                None => None,
            },
        decreases n - i,
    {
        let ghost before = out@;
        if t[i] == '"' || t[i] == '\'' {
            let e = if t[i] == '"' {
                double_quoted(t, i + 1)
            } else {
                single_quoted(t, i + 1)
            };
            match e {
                Some(e) => {
                    push_range(&mut out, t, i + 1, e);
                    proof {
                        match arg_from(t@, e + 1) {
                            Some((rest, f)) => {
                                assert(before + (t@.subrange(i + 1, e as int) + rest) =~= out@
                                    + rest);
                            },
                            None => {},
                        }
                    }
                    i = e + 1;
                },
                None => {
                    return None;
                },
            }
        } else {
            let mut e = i;
            while e < n && t[e] != ' ' && t[e] != '"' && t[e] != '\''
                invariant
                    n == t@.len(),
                    i <= e <= n,
                    plain_end(t@, i as int) == plain_end(t@, e as int),
                decreases n - e,
            {
                e = e + 1;
            }
            push_range(&mut out, t, i, e);
            proof {
                match arg_from(t@, e as int) {
                    Some((rest, f)) => {
                        assert(before + (t@.subrange(i as int, e as int) + rest) =~= out@ + rest);
                    },
                    None => {},
                }
            }
            i = e;
        }
    }
    assert(out@ + Seq::<char>::empty() =~= out@);
    Some((out, i))
}

/// All arguments of the trimmed command line `t`, which is not empty.
fn all_args(t: &Vec<char>) -> (r: Option<Vec<String>>)
    requires
        t@.len() > 0,
    ensures
        match r {
            Some(v) => args_from(t@, 0) == Some(strings_view(v@)),
            None => args_from(t@, 0) is None,
        },
{
    let n = t.len();
    let mut args: Vec<String> = Vec::new();
    let mut p: usize = 0;
    assert(strings_view(args@) =~= Seq::<Seq<char>>::empty());
    loop
        invariant
            n == t@.len(),
            p < n,
            args_from(t@, 0) == match args_from(t@, p as int) {
                Some(rest) => Some(strings_view(args@) + rest),
                None => None,
            },
        decreases n - p,
    {
        let (a, e) = match arg(t, p) {
            Some(r) => r,
            None => {
                return None;
            },
        };
        if e <= p || e > n {
            return None;
        }
        let ghost before = args@;
        let ghost av = a@;
        args.push(a);
        assert(strings_view(args@) =~= strings_view(before).push(av));
        if e == n {
            assert(strings_view(before) + seq![av] =~= strings_view(args@));
            return Some(args);
        }
        let mut f = e;
        while f < n && t[f] == ' '
            invariant
                n == t@.len(),
                e <= f <= n,
                spaces_end(t@, e as int) == spaces_end(t@, f as int),
            decreases n - f,
        {
            f = f + 1;
        }
        if f >= n {
            return None;
        }
        proof {
            match args_from(t@, f as int) {
                Some(rest) => {
                    assert(strings_view(before) + (seq![av] + rest) =~= strings_view(args@)
                        + rest);
                },
                None => {},
            }
        }
        p = f;
    }
}

/// Parse a command line into its arguments.
pub fn parse(s: &str) -> (r: Result<Vec<String>, Error>)
    ensures
        match r {
            Ok(v) => command_args(s@) == Some(strings_view(v@)),
            Err(_) => command_args(s@) is None,
        },
{
    let cs = chars_of(s);
    let n = cs.len();
    let mut a: usize = 0;
    while a < n && is_whitespace(cs[a])
        invariant
            n == cs@.len(),
            a <= n,
            forall|i: int| 0 <= i < a ==> is_white(cs@[i]),
        decreases n - a,
    {
        a = a + 1;
    }
    let mut b = n;
    while b > a && is_whitespace(cs[b - 1])
        invariant
            n == cs@.len(),
            a <= b <= n,
            forall|i: int| b <= i < n ==> is_white(cs@[i]),
        decreases b - a,
    {
        b = b - 1;
    }
    proof {
        lemma_trim_start(s@, a as int);
        let u = s@.subrange(a as int, n as int);
        lemma_trim_end(u, b - a);
        assert(u.subrange(0, b - a) =~= s@.subrange(a as int, b as int));
    }
    if a == b {
        let none: Vec<String> = Vec::new();
        assert(strings_view(none@) =~= Seq::<Seq<char>>::empty());
        return Ok(none);
    }
    let mut t: Vec<char> = Vec::new();
    let mut i = a;
    while i < b
        invariant
            n == cs@.len(),
            a <= i <= b <= n,
            t@ == cs@.subrange(a as int, i as int),
        decreases b - i,
    {
        t.push(cs[i]);
        i = i + 1;
        assert(t@ =~= cs@.subrange(a as int, i as int));
    }
    match all_args(&t) {
        Some(v) => Ok(v),
        None => Err(Error),
    }
}

} // verus!
