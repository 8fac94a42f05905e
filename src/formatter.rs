//! Padding a replacement to a minimum width.
use vstd::prelude::*;

use crate::text::{chars_of, push_char};

verus! {

/// Pads text on the left with `fill` until it is `width` characters long.
#[derive(Debug, Clone, Copy, PartialEq, Eq, Structural)]
pub struct Formatter {
    pub fill: char,
    pub width: usize,
}

/// How the text handed to a formatter is read.
#[derive(Debug, Clone, Copy, PartialEq, Eq, Structural)]
pub enum InputType {
    /// Text, kept as it is.
    String,
    /// A number, whose leading zeros are dropped before padding.
    Number,
}

/// `s` without its leading zeros, keeping at least one character.
pub open spec fn trim_zeros(s: Seq<char>) -> Seq<char>
    decreases s.len(),
{
    if s.len() > 1 && s[0] == '0' {
        trim_zeros(s.drop_first())
    } else {
        s
    }
}

/// `t` padded on the left with `fill` up to `width` characters; never shortened.
pub open spec fn pad(fill: char, width: int, t: Seq<char>) -> Seq<char> {
    if t.len() >= width {
        t
    } else {
        Seq::new((width - t.len()) as nat, |_i: int| fill) + t
    }
}

/// What `format` returns.
pub open spec fn format_spec(f: Formatter, input_type: InputType, s: Seq<char>) -> Seq<char> {
    let t = match input_type {
        InputType::String => s,
        InputType::Number => trim_zeros(s),
    };
    pad(f.fill, f.width as int, t)
}

proof fn lemma_trim_suffix(s: Seq<char>, k: int)
    requires
        0 <= k < s.len(),
        forall|i: int| 0 <= i < k ==> s[i] == '0',
        !(k + 1 < s.len() && s[k] == '0'),
    ensures
        trim_zeros(s) == s.subrange(k, s.len() as int),
    decreases k,
{
    if k > 0 {
        let t = s.drop_first();
        assert forall|i: int| 0 <= i < k - 1 implies t[i] == '0' by {
            assert(s[i + 1] == '0');
        }
        lemma_trim_suffix(t, k - 1);
        assert(t.subrange(k - 1, t.len() as int) =~= s.subrange(k, s.len() as int));
    } else {
        assert(s.subrange(0, s.len() as int) =~= s);
    }
}

impl Formatter {
    /// A formatter that pads nothing: width 0, filled with spaces.
    pub fn new() -> (r: Self)
        ensures
            r.width == 0,
            r.fill == ' ',
    {
        Self { width: 0, fill: ' ' }
    }

    /// A formatter that pads to `width` with `fill`.
    pub fn with_width(width: usize, fill: char) -> (r: Self)
        ensures
            r.width == width,
            r.fill == fill,
    {
        Self { width, fill }
    }

    /// Format `s`: for a number drop its leading zeros (keeping one character), then pad
    /// on the left with the fill character up to the width. Longer text is not cut.
    pub fn format(&self, input_type: InputType, s: &str) -> (r: String)
        ensures
            r@ == format_spec(*self, input_type, s@),
    {
        let cs = chars_of(s);
        let n = cs.len();
        let mut start: usize = 0;
        match input_type {
            InputType::String => {
                assert(s@.subrange(0, n as int) =~= s@);
            },
            InputType::Number => {
                while n > 0 && start < n - 1 && cs[start] == '0'
                    invariant
                        cs@ == s@,
                        n == cs@.len(),
                        start <= n,
                        n > 0 ==> start < n,
                        forall|i: int| 0 <= i < start ==> s@[i] == '0',
                    decreases n - start,
                {
                    start = start + 1;
                }
                if n > 0 {
                    proof {
                        lemma_trim_suffix(s@, start as int);
                    }
                } else {
                    assert(s@.subrange(0, 0) =~= s@);
                }
            },
        }
        assert(start <= n);
        let ghost t = s@.subrange(start as int, n as int);
        let len = n - start;
        let mut r = String::new();
        if len < self.width {
            let pad_len = self.width - len;
            let mut i: usize = 0;
            while i < pad_len
                invariant
                    i <= pad_len,
                    r@ == Seq::new(i as nat, |_i: int| self.fill),
                decreases pad_len - i,
            {
                push_char(&mut r, self.fill);
                i = i + 1;
                assert(r@ =~= Seq::new(i as nat, |_i: int| self.fill));
            }
        }
        let ghost prefix = r@;
        let mut k: usize = start;
        while k < n
            invariant
                cs@ == s@,
                n == cs@.len(),
                start <= k <= n,
                r@ == prefix + s@.subrange(start as int, k as int),
            decreases n - k,
        {
            push_char(&mut r, cs[k]);
            k = k + 1;
            assert(r@ =~= prefix + s@.subrange(start as int, k as int));
        }
        assert(r@ =~= pad(self.fill, self.width as int, t));
        r
    }
}

impl Default for Formatter {
    fn default() -> (r: Self)
        ensures
            r.width == 0,
            r.fill == ' ',
    {
        Self::new()
    }
}

/// Formatting text a second time with the same formatter changes nothing.
pub proof fn lemma_format_idempotent(f: Formatter, s: Seq<char>)
    ensures
        format_spec(f, InputType::String, format_spec(f, InputType::String, s)) == format_spec(
            f,
            InputType::String,
            s,
        ),
{
}

} // verus!
