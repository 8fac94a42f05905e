//! The specifier model: one `{...}` block of a template.
use vstd::prelude::*;

use crate::formatter::Formatter;
use crate::matcher::Matcher;

verus! {

/// A specifier: which matcher it implies, which span it takes, and how it is rendered.
#[derive(Debug, Clone, PartialEq, Eq)]
pub struct Spec {
    /// The matcher that the span must satisfy.
    pub matcher: Matcher,
    /// The span it takes: 0 for the whole input, `i` for the `i`-th match; the next one if absent.
    pub index: Option<usize>,
    /// Text that stands in place of the span.
    pub replace: Option<String>,
    /// Padding applied to the text.
    pub formatter: Option<Formatter>,
}

/// The mathematical value of a `Spec`.
pub struct SpecView {
    pub matcher: Matcher,
    pub index: Option<usize>,
    pub replace: Option<Seq<char>>,
    pub formatter: Option<Formatter>,
}

impl View for Spec {
    type V = SpecView;

    open spec fn view(&self) -> SpecView {
        SpecView {
            matcher: self.matcher,
            index: self.index,
            replace: match self.replace {
                Some(r) => Some(r@),
                None => None,
            },
            formatter: self.formatter,
        }
    }
}

impl Spec {
    /// A specifier with the given matcher and nothing else.
    pub fn new(matcher: Matcher) -> (r: Self)
        ensures
            r@ == (SpecView { matcher, index: None, replace: None, formatter: None }),
    {
        Self { matcher, index: None, replace: None, formatter: None }
    }

    /// A copy of this specifier.
    pub(crate) fn duplicate(&self) -> (r: Self)
        ensures
            r@ == self@,
    {
        let replace = match &self.replace {
            Some(t) => Some(t.clone()),
            None => None,
        };
        Spec { matcher: self.matcher, index: self.index, replace, formatter: self.formatter }
    }
}

} // verus!
