//! Locating the tokens that realise an ordered list of matchers.
use vstd::prelude::*;

use crate::tokens::{tokenize, token_classes, token_starts, usizes_as_ints, TokenType};

verus! {

/// A requirement on the tokens of an input.
#[derive(Debug, Clone, Copy, PartialEq, Eq, Structural)]
pub enum Matcher {
    /// One or more tokens of any class.
    Any,
    /// Exactly one token of class `Number`.
    Number,
}

/// Why a list of matchers could not be matched.
#[derive(Debug, Clone, Copy, PartialEq, Eq, Structural)]
pub enum Error {
    /// The input does not hold tokens for every matcher.
    MatchError,
}

impl Error {
    /// A description of the error.
    pub fn message(&self) -> (r: String)
        ensures
            r@ == "unable to match specifiers with input"@,
    {
        String::from_str("unable to match specifiers with input")
    }
}

/// Whether a token of class `t` can realise matcher `m`.
pub open spec fn accepts(t: TokenType, m: Matcher) -> bool {
    m == Matcher::Any || t == TokenType::Number
}

/// The offsets of the tokens that realise `ms`, where the first matcher is realised by the
/// first token; empty where that fails.
///
/// `offs` and `tys` are the offsets and classes of the tokens. A fixed-class matcher is
/// followed by the very next token; an `Any` matcher lets the rest start at the nearest
/// later token from which it succeeds. The last matcher, unless it is `Any`, must be
/// realised by the last token.
pub open spec fn match_tok(offs: Seq<int>, tys: Seq<TokenType>, ms: Seq<Matcher>) -> Seq<int>
    decreases ms.len(), 0nat, 0nat,
{
    if tys.len() == 0 || ms.len() == 0 || !accepts(tys[0], ms[0]) || (ms.len() == 1 && offs.len()
        != 1 && ms[0] != Matcher::Any) {
        seq![]
    } else if ms.len() == 1 {
        seq![offs[0]]
    } else {
        let next = if ms[0] == Matcher::Any {
            match_skip(offs.drop_first(), tys.drop_first(), ms.drop_first(), 0)
        } else {
            match_tok(offs.drop_first(), tys.drop_first(), ms.drop_first())
        };
        if next.len() == 0 {
            seq![]
        } else {
            seq![offs[0]] + next
        }
    }
}

/// The match of `ms` that starts at the first token at position `j` or later from which
/// one exists; empty where none does.
pub open spec fn match_skip(offs: Seq<int>, tys: Seq<TokenType>, ms: Seq<Matcher>, j: int) -> Seq<
    int,
>
    decreases ms.len(), 1nat, (offs.len() - j) as nat,
{
    if j < 0 || j >= offs.len() || j >= tys.len() || ms.len() == 0 {
        seq![]
    } else {
        let r = match_tok(
            offs.subrange(j, offs.len() as int),
            tys.subrange(j, tys.len() as int),
            ms,
        );
        if r.len() > 0 {
            r
        } else {
            match_skip(offs, tys, ms, j + 1)
        }
    }
}

/// The outcome of matching `ms` against the tokens of `s`: the character offset of the
/// first token of each matcher, or `None` where no match exists.
pub open spec fn match_outcome(s: Seq<char>, ms: Seq<Matcher>) -> Option<Seq<int>> {
    let r = match_tok(token_starts(s), token_classes(s), ms);
    if r.len() == ms.len() {
        Some(r)
    } else {
        None
    }
}

/// Whether the values of `r` strictly increase.
pub open spec fn increasing(r: Seq<int>) -> bool {
    forall|a: int, b: int| 0 <= a < b < r.len() ==> r[a] < r[b]
}

/// A successful `match_tok` gives one offset per matcher, in increasing order, each one
/// between the first and the last token offset.
pub proof fn lemma_tok_shape(offs: Seq<int>, tys: Seq<TokenType>, ms: Seq<Matcher>)
    requires
        increasing(offs),
        offs.len() == tys.len(),
    ensures
        ({
            let r = match_tok(offs, tys, ms);
            r.len() > 0 ==> {
                &&& r.len() == ms.len()
                &&& r[0] == offs[0]
                &&& increasing(r)
                &&& forall|k: int| 0 <= k < r.len() ==> offs[0] <= #[trigger] r[k] <= offs.last()
            }
        }),
    decreases ms.len(), 0nat, 0nat,
{
    let r = match_tok(offs, tys, ms);
    if r.len() > 0 && ms.len() > 1 {
        let o2 = offs.drop_first();
        let t2 = tys.drop_first();
        let m2 = ms.drop_first();
        assert(increasing(o2)) by {
            assert forall|a: int, b: int| 0 <= a < b < o2.len() implies o2[a] < o2[b] by {
                assert(offs[a + 1] < offs[b + 1]);
            }
        }
        let next = if ms[0] == Matcher::Any {
            lemma_skip_shape(o2, t2, m2, 0);
            match_skip(o2, t2, m2, 0)
        } else {
            lemma_tok_shape(o2, t2, m2);
            match_tok(o2, t2, m2)
        };
        assert(r == seq![offs[0]] + next);
        assert(offs[0] < offs[1]);
        assert(o2[0] == offs[1]);
        assert(o2.last() == offs.last());
        assert forall|k: int| 0 <= k < r.len() implies offs[0] <= #[trigger] r[k] <= offs.last() by {
            if k > 0 {
                assert(r[k] == next[k - 1]);
            }
        }
        assert forall|a: int, b: int| 0 <= a < b < r.len() implies r[a] < r[b] by {
            assert(r[b] == next[b - 1]);
            if a > 0 {
                assert(r[a] == next[a - 1]);
            }
        }
    }
}

/// A successful `match_skip` from position `j` gives one offset per matcher, in increasing
/// order, each one between the offset at `j` and the last token offset.
pub proof fn lemma_skip_shape(offs: Seq<int>, tys: Seq<TokenType>, ms: Seq<Matcher>, j: int)
    requires
        increasing(offs),
        offs.len() == tys.len(),
    ensures
        ({
            let r = match_skip(offs, tys, ms, j);
            r.len() > 0 ==> {
                &&& r.len() == ms.len()
                &&& 0 <= j < offs.len()
                &&& increasing(r)
                &&& forall|k: int| 0 <= k < r.len() ==> offs[j] <= #[trigger] r[k] <= offs.last()
            }
        }),
    decreases ms.len(), 1nat, (offs.len() - j) as nat,
{
    if 0 <= j < offs.len() && ms.len() > 0 {
        let o2 = offs.subrange(j, offs.len() as int);
        let t2 = tys.subrange(j, tys.len() as int);
        assert(increasing(o2)) by {
            assert forall|a: int, b: int| 0 <= a < b < o2.len() implies o2[a] < o2[b] by {
                assert(offs[a + j] < offs[b + j]);
            }
        }
        lemma_tok_shape(o2, t2, ms);
        let r = match_tok(o2, t2, ms);
        if r.len() == 0 {
            lemma_skip_shape(offs, tys, ms, j + 1);
            if j + 1 < offs.len() {
                assert(offs[j] < offs[j + 1]);
            }
        }
    }
}

/// A successful match gives one offset per matcher, in increasing order, each of them
/// inside the string.
pub proof fn lemma_outcome_shape(s: Seq<char>, ms: Seq<Matcher>)
    ensures
        match_outcome(s, ms) matches Some(r) ==> {
            &&& r.len() == ms.len()
            &&& r.len() > 0 ==> r[0] == 0
            &&& increasing(r)
            &&& forall|k: int| 0 <= k < r.len() ==> 0 <= #[trigger] r[k] < s.len()
        },
{
    let offs = token_starts(s);
    crate::tokens::lemma_tokens_partition(s);
    crate::tokens::lemma_starts_bounded(s);
    crate::tokens::lemma_starts_shape(s);
    assert(increasing(offs)) by {
        assert forall|a: int, b: int| 0 <= a < b < offs.len() implies offs[a] < offs[b] by {
            lemma_chain(offs, a, b);
        }
    }
    lemma_tok_shape(offs, token_classes(s), ms);
    let r = match_tok(offs, token_classes(s), ms);
    if r.len() == ms.len() && r.len() > 0 {
        assert(offs[0] == 0);
        assert(offs.last() < s.len());
    }
}

proof fn lemma_chain(offs: Seq<int>, a: int, b: int)
    requires
        0 <= a < b < offs.len(),
        forall|k: int|
            #![trigger offs[k], offs[k + 1]]
            0 <= k < offs.len() - 1 ==> offs[k] < offs[k + 1],
    ensures
        offs[a] < offs[b],
    decreases b - a,
{
    if b > a + 1 {
        lemma_chain(offs, a, b - 1);
        let k = b - 1;
        assert(offs[k] < offs[k + 1]);
    } else {
        assert(offs[a] < offs[a + 1]);
    }
}

/// Matching depends on nothing but the input and the matchers: the same arguments always
/// give the same offsets, or the same failure.
pub proof fn lemma_match_deterministic(s1: Seq<char>, s2: Seq<char>, m1: Seq<Matcher>, m2: Seq<Matcher>)
    requires
        s1 == s2,
        m1 == m2,
    ensures
        match_outcome(s1, m1) == match_outcome(s2, m2),
{
}

/// Match all matchers against a string.
///
/// On success the result holds, for each matcher in order, the character offset of the
/// first token that realises it.
pub fn match_all(s: &str, matchers: &[Matcher]) -> (r: Result<Vec<usize>, Error>)
    ensures
        match r {
            Ok(v) => match_outcome(s@, matchers@) == Some(usizes_as_ints(v@)),
            Err(_) => match_outcome(s@, matchers@) is None,
        },
{
    let (token_indices, token_types) = tokenize(s);
    proof {
        crate::tokens::lemma_tokens_partition(s@);
    }
    let indices = match_token(token_indices.as_slice(), token_types.as_slice(), matchers);
    if indices.len() != matchers.len() {
        return Err(Error::MatchError);
    }
    Ok(indices)
}

/// Whether a token of class `token_type` can realise `matcher`.
pub fn is_match(token_type: TokenType, matcher: &Matcher) -> (r: bool)
    ensures
        r == accepts(token_type, *matcher),
{
    match matcher {
        Matcher::Any => true,
        Matcher::Number => token_type == TokenType::Number,
    }
}

/// Match `matchers` with the first matcher realised by the first token.
fn match_token(token_indices: &[usize], token_types: &[TokenType], matchers: &[Matcher]) -> (r: Vec<
    usize,
>)
    requires
        token_indices@.len() == token_types@.len(),
    ensures
        usizes_as_ints(r@) == match_tok(usizes_as_ints(token_indices@), token_types@, matchers@),
    decreases matchers@.len(), 0nat, 0nat,
{
    let ghost offs = usizes_as_ints(token_indices@);
    if token_types.len() == 0 || matchers.len() == 0 || !is_match(token_types[0], &matchers[0]) || (
    matchers.len() == 1 && token_indices.len() != 1 && matchers[0] != Matcher::Any) {
        assert(usizes_as_ints(Seq::<usize>::empty()) =~= Seq::<int>::empty());
        return Vec::new();
    }
    let mut indices: Vec<usize> = Vec::new();
    indices.push(token_indices[0]);
    if matchers.len() > 1 {
        let n = token_indices.len();
        let m = matchers.len();
        let rest_i = &token_indices[1..n];
        let rest_t = &token_types[1..n];
        let rest_m = &matchers[1..m];
        assert(usizes_as_ints(rest_i@) =~= offs.drop_first());
        assert(rest_t@ =~= token_types@.drop_first());
        assert(rest_m@ =~= matchers@.drop_first());
        let next = match matchers[0] {
            Matcher::Any => match_any(rest_i, rest_t, rest_m),
            _ => match_token(rest_i, rest_t, rest_m),
        };
        if next.len() == 0 {
            assert(usizes_as_ints(Seq::<usize>::empty()) =~= Seq::<int>::empty());
            return Vec::new();
        }
        let mut k: usize = 0;
        while k < next.len()
            invariant
                k <= next@.len(),
                token_indices@.len() > 0,
                offs == usizes_as_ints(token_indices@),
                usizes_as_ints(indices@) =~= seq![offs[0]] + usizes_as_ints(next@).take(k as int),
            decreases next@.len() - k,
        {
            let ghost before = indices@;
            indices.push(next[k]);
            assert(usizes_as_ints(indices@) =~= usizes_as_ints(before).push(next@[k as int] as int));
            assert(usizes_as_ints(next@).take(k + 1) =~= usizes_as_ints(next@).take(k as int).push(
                next@[k as int] as int,
            ));
            k = k + 1;
        }
        assert(usizes_as_ints(next@).take(next@.len() as int) =~= usizes_as_ints(next@));
    } else {
        assert(usizes_as_ints(indices@) =~= seq![offs[0]]);
    }
    indices
}

/// Match `matchers` starting at the first token from which a match exists.
fn match_any(token_indices: &[usize], token_types: &[TokenType], matchers: &[Matcher]) -> (r: Vec<
    usize,
>)
    requires
        token_indices@.len() == token_types@.len(),
    ensures
        usizes_as_ints(r@) == match_skip(
            usizes_as_ints(token_indices@),
            token_types@,
            matchers@,
            0,
        ),
    decreases matchers@.len(), 1nat, 0nat,
{
    let ghost offs = usizes_as_ints(token_indices@);
    if token_indices.len() == 0 || matchers.len() == 0 {
        assert(usizes_as_ints(Seq::<usize>::empty()) =~= Seq::<int>::empty());
        return Vec::new();
    }
    let n = token_indices.len();
    let mut next_token_idx: usize = 0;
    loop
        invariant
            n == token_indices@.len() == token_types@.len(),
            offs == usizes_as_ints(token_indices@),
            next_token_idx <= n,
            matchers@.len() > 0,
            match_skip(offs, token_types@, matchers@, 0) == match_skip(
                offs,
                token_types@,
                matchers@,
                next_token_idx as int,
            ),
        decreases n - next_token_idx,
    {
        if next_token_idx == n {
            assert(usizes_as_ints(Seq::<usize>::empty()) =~= Seq::<int>::empty());
            return Vec::new();
        }
        let sub_i = &token_indices[next_token_idx..n];
        let sub_t = &token_types[next_token_idx..n];
        assert(usizes_as_ints(sub_i@) =~= offs.subrange(next_token_idx as int, n as int));
        let next = match_token(sub_i, sub_t, matchers);
        if next.len() > 0 {
            return next;
        }
        next_token_idx = next_token_idx + 1;
    }
}

} // verus!
