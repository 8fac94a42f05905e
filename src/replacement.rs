//! Applying a template to many items.
use vstd::prelude::*;

use crate::elem::{elems_view, ElemView};
use crate::parser::{parse, parse_template, Error};
use crate::replacer::{joined, matchers_of, render, ReplaceIndices, Replacer};
use crate::matcher::match_outcome;
use crate::text::strings_view;

verus! {

/// One mapping: the item, what it became, and the positions of the rendering.
pub struct Replacement {
    pub left: String,
    pub right: String,
    pub indices: ReplaceIndices,
}

/// The output that `es` render from `s`, or `None` where `s` does not match.
pub open spec fn rendered(es: Seq<ElemView>, s: Seq<char>) -> Option<Seq<char>> {
    match match_outcome(s, matchers_of(es)) {
        Some(v) => Some(joined(render(es, s, v, 1))),
        None => None,
    }
}

/// The mappings of the items that match `es`, in order, as (item, output) pairs.
pub open spec fn mappings(es: Seq<ElemView>, items: Seq<Seq<char>>) -> Seq<(Seq<char>, Seq<char>)>
    decreases items.len(),
{
    if items.len() == 0 {
        seq![]
    } else {
        let rest = mappings(es, items.drop_last());
        match rendered(es, items.last()) {
            Some(out) => rest.push((items.last(), out)),
            None => rest,
        }
    }
}

pub open spec fn pairs_view(v: Seq<Replacement>) -> Seq<(Seq<char>, Seq<char>)> {
    v.map_values(|r: Replacement| (r.left@, r.right@))
}

/// Apply a compiled template to each item, keeping those that match.
pub fn replace_items(replacer: &Replacer, items: &[String]) -> (r: Vec<Replacement>)
    ensures
        pairs_view(r@) == mappings(replacer@, strings_view(items@)),
{
    let n = items.len();
    let mut out: Vec<Replacement> = Vec::new();
    let mut k: usize = 0;
    while k < n
        invariant
            n == items@.len(),
            k <= n,
            pairs_view(out@) == mappings(replacer@, strings_view(items@.take(k as int))),
        decreases n - k,
    {
        proof {
            assert(strings_view(items@.take(k + 1)).drop_last() =~= strings_view(
                items@.take(k as int),
            ));
            assert(strings_view(items@.take(k + 1)).last() == items@[k as int]@);
        }
        let ghost before = out@;
        match replacer.replace(items[k].as_str()) {
            Ok((right, indices)) => {
                out.push(Replacement { left: items[k].clone(), right, indices });
                assert(pairs_view(out@) =~= pairs_view(before).push(
                    (items@[k as int]@, out@.last().right@),
                ));
            },
            Err(_) => {},
        }
        k = k + 1;
    }
    assert(items@.take(n as int) =~= items@);
    out
}

/// Parse a template and apply it to each item, keeping those that match.
pub fn resolve(items: &[String], replacer_str: &str) -> (r: Result<Vec<Replacement>, Error>)
    ensures
        match r {
            Ok(v) => parse_template(replacer_str@) matches Some(es) && pairs_view(v@) == mappings(
                es,
                strings_view(items@),
            ),
            Err(_) => parse_template(replacer_str@) is None,
        },
{
    let elems = match parse(replacer_str) {
        Ok(e) => e,
        Err(e) => {
            return Err(e);
        },
    };
    let replacer = Replacer::new(elems.as_slice());
    Ok(replace_items(&replacer, items))
}

/// What `preview_counts` gives.
pub open spec fn counts_spec(n_items: int, max_previews: int) -> (int, int) {
    if n_items <= max_previews {
        (n_items, 0)
    } else if max_previews == 0 {
        (0, 0)
    } else {
        (max_previews / 2, (max_previews - 1) / 2)
    }
}

/// How many items a preview shows from the front and from the back: all of them when
/// there are at most `max_previews`, else half of `max_previews` from the front and the
/// rest but one from the back.
pub fn preview_counts(n_items: usize, max_previews: usize) -> (r: (usize, usize))
    ensures
        (r.0 as int, r.1 as int) == counts_spec(n_items as int, max_previews as int),
{
    if n_items > max_previews {
        let tail = if max_previews == 0 {
            0
        } else {
            (max_previews - 1) / 2
        };
        (max_previews / 2, tail)
    } else {
        (n_items, 0)
    }
}

/// The first `head` and the last `tail` of `items` (fewer where there are fewer).
pub open spec fn ends_of<A>(items: Seq<A>, head: int, tail: int) -> Seq<A> {
    let n = items.len() as int;
    let h = if head < n {
        head
    } else {
        n
    };
    let t = if tail < n {
        tail
    } else {
        n
    };
    items.take(h) + items.subrange(n - t, n)
}

/// Take some items from each end: the first `head` and the last `tail`.
pub fn take_ends(items: &[String], head: usize, tail: usize) -> (r: Vec<String>)
    ensures
        strings_view(r@) == ends_of(strings_view(items@), head as int, tail as int),
{
    let n = items.len();
    let h = if head < n {
        head
    } else {
        n
    };
    let t = if tail < n {
        tail
    } else {
        n
    };
    let mut r: Vec<String> = Vec::new();
    let mut k: usize = 0;
    while k < h
        invariant
            n == items@.len(),
            h <= n,
            k <= h,
            strings_view(r@) == strings_view(items@).take(k as int),
        decreases h - k,
    {
        let ghost before = r@;
        r.push(items[k].clone());
        assert(strings_view(r@) =~= strings_view(before).push(items@[k as int]@));
        k = k + 1;
        assert(strings_view(r@) =~= strings_view(items@).take(k as int));
    }
    let ghost front = strings_view(r@);
    let mut j: usize = n - t;
    while j < n
        invariant
            n == items@.len(),
            t <= n,
            n - t <= j <= n,
            strings_view(r@) == front + strings_view(items@).subrange(n - t, j as int),
        decreases n - j,
    {
        let ghost before = r@;
        r.push(items[j].clone());
        assert(strings_view(r@) =~= strings_view(before).push(items@[j as int]@));
        j = j + 1;
        assert(strings_view(r@) =~= front + strings_view(items@).subrange(n - t, j as int));
    }
    r
}

impl Replacement {
    /// A copy of this mapping.
    pub(crate) fn duplicate(&self) -> (r: Self)
        ensures
            r.left@ == self.left@,
            r.right@ == self.right@,
            r.indices.matches@ == self.indices.matches@,
            r.indices.replaced@ == self.indices.replaced@,
            r.indices.sources@ == self.indices.sources@,
    {
        Replacement {
            left: self.left.clone(),
            right: self.right.clone(),
            indices: ReplaceIndices {
                matches: self.indices.matches.clone(),
                replaced: self.indices.replaced.clone(),
                sources: self.indices.sources.clone(),
            },
        }
    }
}

/// The rows of a preview: mappings from the front, and from the back after an ellipsis.
pub struct Preview {
    pub head: Vec<Replacement>,
    pub tail: Vec<Replacement>,
    /// Whether rows were left out between `head` and `tail`.
    pub elided: bool,
}

/// A preview of what a template does to a list of items, to confirm with the user: the
/// counts of `preview_counts` taken from the ends of `items`, then the first and the last
/// of the mappings of those that match.
pub fn previews(items: &[String], replacer_str: &str, max_previews: usize) -> (r: Result<
    Preview,
    Error,
>)
    ensures
        match r {
            Ok(p) => parse_template(replacer_str@) matches Some(es) && {
                let counts = counts_spec(items@.len() as int, max_previews as int);
                let rows = mappings(es, ends_of(strings_view(items@), counts.0, counts.1));
                &&& pairs_view(p.head@) == ends_of(rows, counts.0, 0)
                &&& pairs_view(p.tail@) == ends_of(rows, 0, counts.1)
                &&& p.elided == (counts.1 != 0)
            },
            Err(_) => parse_template(replacer_str@) is None,
        },
{
    let (head, tail) = preview_counts(items.len(), max_previews);
    let preview_items = take_ends(items, head, tail);
    let rows = match resolve(preview_items.as_slice(), replacer_str) {
        Ok(rows) => rows,
        Err(e) => {
            return Err(e);
        },
    };
    let n = rows.len();
    let h = if head < n {
        head
    } else {
        n
    };
    let t = if tail < n {
        tail
    } else {
        n
    };
    let mut head_rows: Vec<Replacement> = Vec::new();
    let mut k: usize = 0;
    while k < h
        invariant
            n == rows@.len(),
            h <= n,
            k <= h,
            pairs_view(head_rows@) == pairs_view(rows@).take(k as int),
        decreases h - k,
    {
        let ghost before = head_rows@;
        head_rows.push(rows[k].duplicate());
        assert(pairs_view(head_rows@) =~= pairs_view(before).push(pairs_view(rows@)[k as int]));
        k = k + 1;
        assert(pairs_view(head_rows@) =~= pairs_view(rows@).take(k as int));
    }
    let mut tail_rows: Vec<Replacement> = Vec::new();
    let mut j: usize = n - t;
    assert(pairs_view(tail_rows@) =~= pairs_view(rows@).subrange(n - t, j as int));
    while j < n
        invariant
            n == rows@.len(),
            t <= n,
            n - t <= j <= n,
            pairs_view(tail_rows@) == pairs_view(rows@).subrange(n - t, j as int),
        decreases n - j,
    {
        let ghost before = tail_rows@;
        tail_rows.push(rows[j].duplicate());
        assert(pairs_view(tail_rows@) =~= pairs_view(before).push(pairs_view(rows@)[j as int]));
        j = j + 1;
        assert(pairs_view(tail_rows@) =~= pairs_view(rows@).subrange(n - t, j as int));
    }
    proof {
        let rv = pairs_view(rows@);
        assert(ends_of(rv, head as int, 0) =~= rv.take(h as int));
        assert(ends_of(rv, 0, tail as int) =~= rv.subrange(n - t, n as int));
    }
    Ok(Preview { head: head_rows, tail: tail_rows, elided: tail != 0 })
}

} // verus!
