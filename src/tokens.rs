//! Splitting a string into runs of characters of one class.
use vstd::prelude::*;

use crate::text::chars_of;

verus! {

/// The class of a character, or of a run of characters.
#[derive(Debug, Clone, Copy, PartialEq, Eq, Structural)]
pub enum TokenType {
    /// The class before any character has been read; never given to a character.
    Init,
    /// ASCII digits.
    Number,
    /// ASCII whitespace.
    Whitespace,
    /// ASCII punctuation.
    Punctuation,
    /// Every other character.
    Text,
}

pub open spec fn is_digit(c: char) -> bool {
    '0' <= c && c <= '9'
}

pub open spec fn is_space(c: char) -> bool {
    c == ' ' || c == '\t' || c == '\n' || c == '\x0C' || c == '\r'
}

pub open spec fn is_punct(c: char) -> bool {
    ('!' <= c && c <= '/') || (':' <= c && c <= '@') || ('[' <= c && c <= '`') || ('{' <= c
        && c <= '~')
}

/// The class of one character; digits come first, then whitespace, then punctuation.
#[verifier::opaque]
pub open spec fn class_of(c: char) -> TokenType {
    if is_digit(c) {
        TokenType::Number
    } else if is_space(c) {
        TokenType::Whitespace
    } else if is_punct(c) {
        TokenType::Punctuation
    } else {
        TokenType::Text
    }
}

/// A token starts at offset `i` when the character there differs in class from the one before.
pub open spec fn starts_token(s: Seq<char>, i: int) -> bool {
    0 <= i < s.len() && (i == 0 || class_of(s[i]) != class_of(s[i - 1]))
}

/// The offsets at which the tokens of `s` start, in increasing order.
pub open spec fn token_starts(s: Seq<char>) -> Seq<int>
    decreases s.len(),
{
    if s.len() == 0 {
        seq![]
    } else {
        let prev = token_starts(s.drop_last());
        if starts_token(s, s.len() - 1) {
            prev.push(s.len() - 1)
        } else {
            prev
        }
    }
}

/// The class of each token of `s`.
pub open spec fn token_classes(s: Seq<char>) -> Seq<TokenType> {
    token_starts(s).map_values(|i: int| class_of(s[i]))
}

/// The end of token `k`, given the token starts and the length of the string.
pub open spec fn token_end(starts: Seq<int>, n: int, k: int) -> int {
    if k + 1 < starts.len() {
        starts[k + 1]
    } else {
        n
    }
}

/// The length of each token, given the token starts and the length of the string.
pub open spec fn token_lengths(starts: Seq<int>, n: int) -> Seq<int> {
    Seq::new(starts.len(), |k: int| token_end(starts, n, k) - starts[k])
}

pub open spec fn sum(xs: Seq<int>) -> int
    decreases xs.len(),
{
    if xs.len() == 0 {
        0
    } else {
        sum(xs.drop_last()) + xs.last()
    }
}

pub open spec fn usizes_as_ints(v: Seq<usize>) -> Seq<int> {
    v.map_values(|x: usize| x as int)
}

/// Get token type of character.
pub fn token_type(c: char) -> (t: TokenType)
    ensures
        t == class_of(c),
{
    reveal(class_of);
    if '0' <= c && c <= '9' {
        return TokenType::Number;
    }
    if c == ' ' || c == '\t' || c == '\n' || c == '\x0C' || c == '\r' {
        return TokenType::Whitespace;
    }
    if ('!' <= c && c <= '/') || (':' <= c && c <= '@') || ('[' <= c && c <= '`') || ('{' <= c
        && c <= '~') {
        return TokenType::Punctuation;
    }
    TokenType::Text
}

/// Every token start lies inside the string, and there are no more tokens than characters.
pub proof fn lemma_starts_bounded(s: Seq<char>)
    ensures
        forall|k: int| 0 <= k < token_starts(s).len() ==> 0 <= #[trigger] token_starts(s)[k] < s.len(),
        token_starts(s).len() <= s.len(),
    decreases s.len(),
{
    if s.len() > 0 {
        lemma_starts_bounded(s.drop_last());
    }
}

proof fn lemma_starts_step(s: Seq<char>, i: int)
    requires
        0 <= i < s.len(),
    ensures
        token_starts(s.take(i + 1)) == if starts_token(s, i) {
            token_starts(s.take(i)).push(i)
        } else {
            token_starts(s.take(i))
        },
        token_classes(s.take(i + 1)) == if starts_token(s, i) {
            token_classes(s.take(i)).push(class_of(s[i]))
        } else {
            token_classes(s.take(i))
        },
{
    let t = s.take(i + 1);
    assert(t.drop_last() =~= s.take(i));
    lemma_starts_bounded(s.take(i));
    assert(starts_token(t, i) == starts_token(s, i));
    if starts_token(s, i) {
        assert(token_classes(t) =~= token_classes(s.take(i)).push(class_of(s[i])));
    } else {
        assert(token_classes(t) =~= token_classes(s.take(i)));
    }
}

/// A non-empty string has a token at offset 0 whose last one has the class of the last
/// character; token starts increase, and two adjacent tokens differ in class.
pub proof fn lemma_starts_shape(s: Seq<char>)
    ensures
        s.len() > 0 ==> token_starts(s).len() > 0 && token_starts(s)[0] == 0 && class_of(
            s[token_starts(s).last()],
        ) == class_of(s.last()),
        s.len() == 0 ==> token_starts(s).len() == 0,
        forall|k: int|
            #![trigger token_starts(s)[k], token_starts(s)[k + 1]]
            0 <= k < token_starts(s).len() - 1 ==> token_starts(s)[k] < token_starts(s)[k + 1]
                && class_of(s[token_starts(s)[k]]) != class_of(s[token_starts(s)[k + 1]]),
    decreases s.len(),
{
    if s.len() > 0 {
        let n = s.len() as int;
        let t = s.drop_last();
        lemma_starts_shape(t);
        lemma_starts_bounded(t);
        let p = token_starts(t);
        let q = token_starts(s);
        if starts_token(s, n - 1) {
            assert(q == p.push(n - 1));
            assert forall|k: int| #![trigger q[k], q[k + 1]] 0 <= k < q.len() - 1 implies q[k] < q[k + 1]
                && class_of(s[q[k]]) != class_of(s[q[k + 1]]) by {
                if k < p.len() - 1 {
                    assert(q[k] == p[k] && q[k + 1] == p[k + 1]);
                    assert(p[k] < p[k + 1]);
                    assert(t[p[k]] == s[p[k]]);
                    assert(t[p[k + 1]] == s[p[k + 1]]);
                } else {
                    assert(k == p.len() - 1);
                    assert(q[k] == p.last());
                    assert(t[p.last()] == s[p.last()]);
                }
            }
            if p.len() == 0 {
                assert(n == 1);
            }
        } else {
            assert(q == p);
            assert(n > 1);
            assert(t[p.last()] == s[p.last()]);
            assert forall|k: int| #![trigger q[k], q[k + 1]] 0 <= k < q.len() - 1 implies q[k] < q[k + 1]
                && class_of(s[q[k]]) != class_of(s[q[k + 1]]) by {
                assert(p[k] < p[k + 1]);
                assert(t[p[k]] == s[p[k]]);
                assert(t[p[k + 1]] == s[p[k + 1]]);
            }
        }
    }
}

proof fn lemma_lengths_sum(st: Seq<int>, n: int)
    requires
        st.len() > 0,
        st.last() <= n,
        forall|k: int| #![trigger st[k], st[k + 1]] 0 <= k < st.len() - 1 ==> st[k] < st[k + 1],
    ensures
        sum(token_lengths(st, n)) == n - st[0],
    decreases st.len(),
{
    let l = token_lengths(st, n);
    assert(l.last() == n - st.last());
    if st.len() > 1 {
        let p = st.drop_last();
        assert(p.last() < st.last()) by {
            let k = st.len() - 2;
            assert(st[k] < st[k + 1]);
        }
        assert(l.drop_last() =~= token_lengths(p, st.last()));
        lemma_lengths_sum(p, st.last());
        assert(p[0] == st[0]);
    } else {
        assert(l.drop_last() =~= Seq::<int>::empty());
        assert(sum(l.drop_last()) == 0);
    }
}

/// The tokens of a string cover it exactly: their lengths add up to its length,
/// two adjacent tokens never share a class, and the empty string has no tokens.
pub proof fn lemma_tokens_partition(s: Seq<char>)
    ensures
        sum(token_lengths(token_starts(s), s.len() as int)) == s.len(),
        forall|k: int|
            0 <= k < token_classes(s).len() - 1 ==> #[trigger] token_classes(s)[k] != token_classes(
                s,
            )[k + 1],
        token_starts(s).len() == token_classes(s).len(),
        s.len() == 0 ==> token_starts(s).len() == 0 && token_classes(s).len() == 0,
{
    lemma_starts_shape(s);
    lemma_starts_bounded(s);
    if s.len() > 0 {
        lemma_lengths_sum(token_starts(s), s.len() as int);
    } else {
        assert(token_lengths(token_starts(s), 0) =~= Seq::<int>::empty());
    }
}

/// Tokenize string.
///
/// Each maximal run of characters of one class is a token, and the result gives,
/// for each token in order, the character offset at which it starts and its class.
/// For example, "Hi, number 42." is tokenized as "[Hi][,][ ][number][ ][42][.]".
pub fn tokenize(s: &str) -> (r: (Vec<usize>, Vec<TokenType>))
    ensures
        usizes_as_ints(r.0@) == token_starts(s@),
        r.1@ == token_classes(s@),
{
    let cs = chars_of(s);
    let mut current_token_type = TokenType::Init;
    let mut indices: Vec<usize> = Vec::new();
    let mut token_types: Vec<TokenType> = Vec::new();
    let mut i: usize = 0;
    while i < cs.len()
        invariant
            cs@ == s@,
            i <= cs@.len(),
            usizes_as_ints(indices@) == token_starts(s@.take(i as int)),
            token_types@ == token_classes(s@.take(i as int)),
            current_token_type == if i == 0 {
                TokenType::Init
            } else {
                class_of(s@[i - 1])
            },
        decreases cs@.len() - i,
    {
        let tt = token_type(cs[i]);
        assert(tt != TokenType::Init) by {
            reveal(class_of);
        }
        proof {
            lemma_starts_step(s@, i as int);
        }
        if current_token_type != tt {
            indices.push(i);
            token_types.push(tt);
            current_token_type = tt;
        }
        assert(usizes_as_ints(indices@) =~= token_starts(s@.take(i + 1)));
        i = i + 1;
    }
    assert(s@.take(cs@.len() as int) =~= s@);
    (indices, token_types)
}

} // verus!
