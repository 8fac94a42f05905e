//! Rendering a template against an input.
use vstd::prelude::*;

use crate::elem::{elems_view, Elem, ElemView};
use crate::formatter::{format_spec, InputType};
use crate::indices::{piece, split_chars};
use crate::matcher::{
    increasing, lemma_outcome_shape, match_all, match_outcome, Error, Matcher,
};
use crate::spec::{Spec, SpecView};
use crate::text::chars_of;
use crate::tokens::usizes_as_ints;
use vstd::utf8::encode_utf8;

verus! {

/// Where a segment of the output came from.
#[derive(Debug, Clone, Copy, PartialEq, Eq, Structural)]
pub enum ReplaceSource {
    /// The span of the matcher with this index, counted from 0.
    Index(usize),
    /// The whole input.
    Entire,
    /// A literal of the template.
    Literal,
}

/// The positions of a rendering.
#[derive(Debug, Clone, PartialEq)]
pub struct ReplaceIndices {
    /// The character offset in the input at which each matched span starts.
    pub matches: Vec<usize>,
    /// The byte offset in the output at which each segment starts.
    pub replaced: Vec<usize>,
    /// The source of each segment.
    pub sources: Vec<ReplaceSource>,
}

/// The list of matchers that a sequence of elements requires.
pub open spec fn matchers_of(es: Seq<ElemView>) -> Seq<Matcher>
    decreases es.len(),
{
    if es.len() == 0 {
        seq![]
    } else {
        matcher_step(matchers_of(es.drop_last()), es.last())
    }
}

/// The list of matchers after one more element: an unindexed specifier adds its matcher;
/// one with index `i >= 1` widens the list to `i` slots with `Any` and sets slot `i - 1`
/// where it holds `Any`; index 0 and literals change nothing.
pub open spec fn matcher_step(m: Seq<Matcher>, e: ElemView) -> Seq<Matcher> {
    match e {
        ElemView::Lit(_) => m,
        ElemView::Spec(sp) => match sp.index {
            None => m.push(sp.matcher),
            Some(i) => if i == 0 {
                m
            } else {
                let w = if i > m.len() {
                    m + Seq::new((i - m.len()) as nat, |_k: int| Matcher::Any)
                } else {
                    m
                };
                if w[i - 1] == Matcher::Any {
                    w.update(i - 1, sp.matcher)
                } else {
                    w
                }
            },
        },
    }
}

/// Span `k` of `s` under match offsets `v`: the whole of `s` for 0, else the text from
/// `v[k - 1]` up to the next offset or the end.
pub open spec fn span(s: Seq<char>, v: Seq<int>, k: int) -> Seq<char> {
    if k == 0 {
        s
    } else {
        let end = if k < v.len() {
            v[k]
        } else {
            s.len() as int
        };
        s.subrange(v[k - 1], end)
    }
}

/// How a specifier reads its text.
pub open spec fn input_type_of(m: Matcher) -> InputType {
    match m {
        Matcher::Number => InputType::Number,
        Matcher::Any => InputType::String,
    }
}

/// The index a specifier takes with cursor `cursor`.
pub open spec fn resolved_index(sp: SpecView, cursor: int) -> int {
    match sp.index {
        Some(i) => i as int,
        None => cursor,
    }
}

/// The text a specifier renders when the span it takes holds `span_text`.
pub open spec fn spec_text_of(sp: SpecView, span_text: Seq<char>) -> Seq<char> {
    let src = match sp.replace {
        Some(r) => r,
        None => span_text,
    };
    match sp.formatter {
        Some(f) => format_spec(f, input_type_of(sp.matcher), src),
        None => src,
    }
}

/// The text a specifier renders, with its span index already resolved to `idx`.
pub open spec fn spec_text(sp: SpecView, s: Seq<char>, v: Seq<int>, idx: int) -> Seq<char> {
    spec_text_of(sp, span(s, v, idx))
}

/// The segment an element renders with cursor `cursor`, and the cursor after it.
pub open spec fn render_elem(e: ElemView, s: Seq<char>, v: Seq<int>, cursor: int) -> (
    (Seq<char>, ReplaceSource),
    int,
) {
    match e {
        ElemView::Lit(t) => ((t, ReplaceSource::Literal), cursor),
        ElemView::Spec(sp) => {
            let idx = resolved_index(sp, cursor);
            let src = if idx == 0 {
                ReplaceSource::Entire
            } else {
                ReplaceSource::Index((idx - 1) as usize)
            };
            ((spec_text(sp, s, v, idx), src), idx + 1)
        },
    }
}

/// The segments that `es` render, from cursor `cursor` on.
pub open spec fn render(es: Seq<ElemView>, s: Seq<char>, v: Seq<int>, cursor: int) -> Seq<
    (Seq<char>, ReplaceSource),
>
    decreases es.len(),
{
    if es.len() == 0 {
        seq![]
    } else {
        let (seg, next) = render_elem(es[0], s, v, cursor);
        seq![seg] + render(es.drop_first(), s, v, next)
    }
}

/// The texts of `segs`, one after the other.
pub open spec fn joined(segs: Seq<(Seq<char>, ReplaceSource)>) -> Seq<char>
    decreases segs.len(),
{
    if segs.len() == 0 {
        seq![]
    } else {
        joined(segs.drop_last()) + segs.last().0
    }
}

/// The byte offset in the UTF-8 output at which each segment starts.
pub open spec fn segment_starts(segs: Seq<(Seq<char>, ReplaceSource)>) -> Seq<int> {
    Seq::new(segs.len(), |k: int| encode_utf8(joined(segs.take(k))).len() as int)
}

/// Build the list of matchers that the elements require.
pub fn matchers_from_elems(elems: &[Elem]) -> (r: Vec<Matcher>)
    ensures
        r@ == matchers_of(elems_view(elems@)),
{
    let mut matchers: Vec<Matcher> = Vec::new();
    let n = elems.len();
    let mut k: usize = 0;
    while k < n
        invariant
            n == elems@.len(),
            k <= n,
            matchers@ == matchers_of(elems_view(elems@).take(k as int)),
        decreases n - k,
    {
        let ghost before = matchers@;
        proof {
            assert(elems_view(elems@).take(k + 1).drop_last() =~= elems_view(elems@).take(
                k as int,
            ));
        }
        match &elems[k] {
            Elem::Spec(s) => {
                match s.index {
                    Some(i) => {
                        if i != 0 {
                            if i > matchers.len() {
                                while matchers.len() < i
                                    invariant
                                        before.len() <= matchers@.len() <= i,
                                        matchers@ == before + Seq::new(
                                            (matchers@.len() - before.len()) as nat,
                                            |_k: int| Matcher::Any,
                                        ),
                                    decreases i - matchers@.len(),
                                {
                                    matchers.push(Matcher::Any);
                                    assert(matchers@ =~= before + Seq::new(
                                        (matchers@.len() - before.len()) as nat,
                                        |_k: int| Matcher::Any,
                                    ));
                                }
                            }
                            if matchers[i - 1] == Matcher::Any {
                                matchers.set(i - 1, s.matcher);
                            }
                        }
                    },
                    None => {
                        matchers.push(s.matcher);
                    },
                }
            },
            Elem::Lit(_) => {},
        }
        k = k + 1;
    }
    assert(elems_view(elems@).take(n as int) =~= elems_view(elems@));
    matchers
}

/// How a specifier reads its text: as a number for a `Number` matcher.
pub fn spec_input_type(spec: &Spec) -> (r: InputType)
    ensures
        r == input_type_of(spec.matcher),
{
    match spec.matcher {
        Matcher::Number => InputType::Number,
        _ => InputType::String,
    }
}

/// Render one specifier: resolve its index (explicit, else the cursor), take the replace
/// text or else that span, and format it.
fn replace_spec(spec: &Spec, cursor: usize, parts: &Vec<String>) -> (r: (usize, String))
    requires
        resolved_index(spec@, cursor as int) < parts@.len(),
    ensures
        r.0 == resolved_index(spec@, cursor as int),
        r.1@ == spec_text_of(spec@, parts@[r.0 as int]@),
{
    let idx = match spec.index {
        Some(i) => i,
        None => cursor,
    };
    let r: String = match &spec.replace {
        Some(replace) => replace.clone(),
        None => parts[idx].clone(),
    };
    let r = match &spec.formatter {
        Some(formatter) => formatter.format(spec_input_type(spec), r.as_str()),
        None => r,
    };
    (idx, r)
}

proof fn lemma_matchers_grow(es: Seq<ElemView>, k: int)
    requires
        0 <= k <= es.len(),
    ensures
        matchers_of(es.take(k)).len() <= matchers_of(es).len(),
    decreases es.len() - k,
{
    if k < es.len() {
        lemma_matchers_grow(es, k + 1);
        assert(es.take(k + 1).drop_last() =~= es.take(k));
    } else {
        assert(es.take(k) =~= es);
    }
}

proof fn lemma_segment_push(segs: Seq<(Seq<char>, ReplaceSource)>, x: (Seq<char>, ReplaceSource))
    ensures
        joined(segs.push(x)) == joined(segs) + x.0,
        segment_starts(segs.push(x)) == segment_starts(segs).push(
            encode_utf8(joined(segs)).len() as int,
        ),
{
    assert(segs.push(x).drop_last() =~= segs);
    assert forall|j: int| 0 <= j <= segs.len() implies #[trigger] segs.push(x).take(j) == segs.take(
        j,
    ) by {
        assert(segs.push(x).take(j) =~= segs.take(j));
    }
    assert(segs.take(segs.len() as int) =~= segs);
    assert(segment_starts(segs.push(x)) =~= segment_starts(segs).push(
        encode_utf8(joined(segs)).len() as int,
    ));
}

/// A compiled template: its elements and the matchers they require.
pub struct Replacer {
    elems: Vec<Elem>,
    matchers: Vec<Matcher>,
}

impl View for Replacer {
    type V = Seq<ElemView>;

    closed spec fn view(&self) -> Seq<ElemView> {
        elems_view(self.elems@)
    }
}

impl Replacer {
    #[verifier::type_invariant]
    closed spec fn matchers_derived(&self) -> bool {
        self.matchers@ == matchers_of(elems_view(self.elems@))
    }

    /// Compile the elements of a template.
    pub fn new(elems: &[Elem]) -> (r: Self)
        ensures
            r@ == elems_view(elems@),
    {
        let mut copy: Vec<Elem> = Vec::new();
        let n = elems.len();
        let mut k: usize = 0;
        while k < n
            invariant
                n == elems@.len(),
                k <= n,
                elems_view(copy@) == elems_view(elems@).take(k as int),
            decreases n - k,
        {
            let ghost before = copy@;
            copy.push(elems[k].duplicate());
            assert(elems_view(copy@) =~= elems_view(before).push(elems@[k as int]@));
            assert(elems_view(elems@).take(k + 1) =~= elems_view(elems@).take(k as int).push(
                elems@[k as int]@,
            ));
            k = k + 1;
        }
        assert(elems_view(elems@).take(n as int) =~= elems_view(elems@));
        let matchers = matchers_from_elems(elems);
        Self { elems: copy, matchers }
    }

    /// Render the template against `s`.
    ///
    /// Matches the template's matchers against `s`, then renders each element in turn with
    /// a cursor that starts at 1: a literal as it is; a specifier from the span that its
    /// index (or else the cursor) names, span 0 being the whole input, after which the
    /// cursor moves past that index. Gives the output with the matched offsets, the offset
    /// in the output of each segment and where each segment came from.
    pub fn replace(&self, s: &str) -> (r: Result<(String, ReplaceIndices), Error>)
        ensures
            match r {
                Ok((out, ri)) => {
                    let v = usizes_as_ints(ri.matches@);
                    let segs = render(self@, s@, v, 1);
                    &&& match_outcome(s@, matchers_of(self@)) == Some(v)
                    &&& out@ == joined(segs)
                    &&& ri.sources@ == segs.map_values(|g: (Seq<char>, ReplaceSource)| g.1)
                    &&& usizes_as_ints(ri.replaced@) == segment_starts(segs)
                },
                Err(_) => match_outcome(s@, matchers_of(self@)) is None,
            },
    {
        proof {
            use_type_invariant(self);
        }
        let indices = match match_all(s, self.matchers.as_slice()) {
            Ok(v) => v,
            Err(e) => {
                return Err(e);
            },
        };
        let ghost es = self@;
        let ghost v = usizes_as_ints(indices@);
        proof {
            lemma_outcome_shape(s@, matchers_of(es));
        }
        let cs = chars_of(s);
        proof {
            assert forall|a: int, b: int| 0 <= a < b < indices@.len() implies indices@[a]
                <= indices@[b] by {
                assert(v[a] < v[b]);
            }
            assert forall|a: int| 0 <= a < indices@.len() implies indices@[a] <= cs@.len() by {
                assert(0 <= v[a] < s@.len());
            }
        }
        let split = split_chars(&cs, indices.as_slice());
        let mut parts: Vec<String> = Vec::new();
        parts.push(String::from_str(s));
        let m = split.len();
        let mut j: usize = 0;
        while j < m
            invariant
                m == split@.len() == v.len(),
                cs@ == s@,
                j <= m,
                parts@.len() == j + 1,
                forall|k: int| 0 <= k <= j ==> #[trigger] parts@[k]@ == span(s@, v, k),
                forall|k: int| 0 <= k < m ==> #[trigger] split@[k]@ == piece(cs@, indices@, k),
                v == usizes_as_ints(indices@),
            decreases m - j,
        {
            parts.push(split[j].clone());
            j = j + 1;
        }
        let n = self.elems.len();
        let np = parts.len();
        let mut cursor: usize = 1;
        let mut out = String::new();
        let mut replaced_indices: Vec<usize> = Vec::new();
        let mut sources: Vec<ReplaceSource> = Vec::new();
        let ghost mut segs: Seq<(Seq<char>, ReplaceSource)> = seq![];
        proof {
            lemma_matchers_grow(es, 0);
            assert(es.subrange(0, n as int) =~= es);
            assert(segs + render(es, s@, v, 1) =~= render(es, s@, v, 1));
            assert(matchers_of(es.take(0)) =~= Seq::<Matcher>::empty());
            assert(sources@ =~= segs.map_values(|g: (Seq<char>, ReplaceSource)| g.1));
            assert(usizes_as_ints(replaced_indices@) =~= segment_starts(segs));
        }
        let mut k: usize = 0;
        while k < n
            invariant
                n == self.elems@.len(),
                es == elems_view(self.elems@),
                k <= n,
                parts@.len() == v.len() + 1,
                np == parts@.len(),
                v.len() == matchers_of(es).len(),
                forall|i: int| 0 <= i < parts@.len() ==> #[trigger] parts@[i]@ == span(s@, v, i),
                1 <= cursor <= matchers_of(es.take(k as int)).len() + 1,
                render(es, s@, v, 1) == segs + render(
                    es.subrange(k as int, n as int),
                    s@,
                    v,
                    cursor as int,
                ),
                out@ == joined(segs),
                sources@ == segs.map_values(|g: (Seq<char>, ReplaceSource)| g.1),
                usizes_as_ints(replaced_indices@) == segment_starts(segs),
            decreases n - k,
        {
            proof {
                lemma_matchers_grow(es, k + 1);
                assert(es.take(k + 1).drop_last() =~= es.take(k as int));
                assert(es.subrange(k as int, n as int).drop_first() =~= es.subrange(
                    k + 1,
                    n as int,
                ));
            }
            let ghost old_cursor = cursor as int;
            let (r, src) = match &self.elems[k] {
                Elem::Spec(spec) => {
                    let (idx, r) = replace_spec(spec, cursor, &parts);
                    cursor = idx + 1;
                    let src = if idx == 0 {
                        ReplaceSource::Entire
                    } else {
                        ReplaceSource::Index(idx - 1)
                    };
                    (r, src)
                },
                Elem::Lit(lit) => (lit.clone(), ReplaceSource::Literal),
            };
            let ghost seg = (r@, src);
            proof {
                let e = es[k as int];
                assert(render_elem(e, s@, v, old_cursor) == (seg, cursor as int));
                lemma_segment_push(segs, seg);
                assert(segs + render(es.subrange(k as int, n as int), s@, v, old_cursor) =~= segs.push(
                    seg,
                ) + render(es.subrange(k + 1, n as int), s@, v, cursor as int));
            }
            let pos = out.as_str().as_bytes().len();
            replaced_indices.push(pos);
            sources.push(src);
            out.append(r.as_str());
            proof {
                assert(usizes_as_ints(replaced_indices@) =~= segment_starts(segs.push(seg)));
                assert(sources@ =~= segs.push(seg).map_values(
                    |g: (Seq<char>, ReplaceSource)| g.1,
                ));
                segs = segs.push(seg);
            }
            k = k + 1;
        }
        proof {
            assert(segs + render(es.subrange(n as int, n as int), s@, v, cursor as int) =~= segs);
        }
        Ok((out, ReplaceIndices { matches: indices, replaced: replaced_indices, sources }))
    }
}

/// The specifier `{}`: an `Any` matcher with no index, replace text or format.
pub open spec fn is_bare_any(e: ElemView) -> bool {
    e == ElemView::Spec(
        SpecView { matcher: Matcher::Any, index: None, replace: None, formatter: None },
    )
}

proof fn lemma_bare_matchers(es: Seq<ElemView>)
    requires
        forall|k: int| 0 <= k < es.len() ==> is_bare_any(#[trigger] es[k]),
    ensures
        matchers_of(es) == Seq::new(es.len(), |_k: int| Matcher::Any),
    decreases es.len(),
{
    if es.len() > 0 {
        let p = es.drop_last();
        assert forall|k: int| 0 <= k < p.len() implies is_bare_any(#[trigger] p[k]) by {
            assert(p[k] == es[k]);
        }
        lemma_bare_matchers(p);
        assert(is_bare_any(es[es.len() - 1]));
        assert(matchers_of(es) =~= Seq::new(es.len(), |_k: int| Matcher::Any));
    }
}

proof fn lemma_joined_front(x: (Seq<char>, ReplaceSource), rest: Seq<(Seq<char>, ReplaceSource)>)
    ensures
        joined(seq![x] + rest) == x.0 + joined(rest),
    decreases rest.len(),
{
    if rest.len() == 0 {
        assert(seq![x] + rest =~= seq![x]);
        assert(seq![x].drop_last() =~= Seq::<(Seq<char>, ReplaceSource)>::empty());
        assert(x.0 + joined(rest) =~= x.0);
        assert(joined(seq![x]) =~= joined(Seq::<(Seq<char>, ReplaceSource)>::empty()) + x.0);
    } else {
        lemma_joined_front(x, rest.drop_last());
        assert((seq![x] + rest).drop_last() =~= seq![x] + rest.drop_last());
        assert(x.0 + joined(rest) =~= x.0 + joined(rest.drop_last()) + rest.last().0);
    }
}

proof fn lemma_bare_render(es: Seq<ElemView>, s: Seq<char>, v: Seq<int>, c: int)
    requires
        es.len() >= 1,
        forall|k: int| 0 <= k < es.len() ==> is_bare_any(#[trigger] es[k]),
        1 <= c,
        c + es.len() - 1 == v.len(),
        increasing(v),
        forall|k: int| 0 <= k < v.len() ==> 0 <= #[trigger] v[k] < s.len(),
    ensures
        joined(render(es, s, v, c)) == s.subrange(v[c - 1], s.len() as int),
    decreases es.len(),
{
    assert(is_bare_any(es[0]));
    let x = render_elem(es[0], s, v, c).0;
    let rest = es.drop_first();
    lemma_joined_front(x, render(rest, s, v, c + 1));
    if es.len() == 1 {
        assert(render(rest, s, v, c + 1) =~= Seq::<(Seq<char>, ReplaceSource)>::empty());
        assert(x.0 + Seq::<char>::empty() =~= x.0);
    } else {
        assert forall|k: int| 0 <= k < rest.len() implies is_bare_any(#[trigger] rest[k]) by {
            assert(rest[k] == es[k + 1]);
        }
        lemma_bare_render(rest, s, v, c + 1);
        assert(v[c - 1] < v[c]);
        assert(x.0 + s.subrange(v[c], s.len() as int) =~= s.subrange(v[c - 1], s.len() as int));
    }
}

/// A template made only of `{}`, once per matcher, renders any input it matches back to
/// that input.
pub proof fn lemma_replace_round_trip(es: Seq<ElemView>, s: Seq<char>, v: Seq<int>)
    requires
        es.len() >= 1,
        forall|k: int| 0 <= k < es.len() ==> is_bare_any(#[trigger] es[k]),
        match_outcome(s, matchers_of(es)) == Some(v),
    ensures
        joined(render(es, s, v, 1)) == s,
{
    lemma_bare_matchers(es);
    lemma_outcome_shape(s, matchers_of(es));
    lemma_bare_render(es, s, v, 1);
    assert(s.subrange(0, s.len() as int) =~= s);
}

} // verus!
