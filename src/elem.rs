//! The elements of a parsed template.
use vstd::prelude::*;

use crate::spec::{Spec, SpecView};

verus! {

/// One element of a template: literal text or a specifier.
#[derive(Debug, Clone, PartialEq, Eq)]
pub enum Elem {
    /// Text copied to the output as it is.
    Lit(String),
    /// A specifier.
    Spec(Spec),
}

/// The mathematical value of an `Elem`.
pub enum ElemView {
    Lit(Seq<char>),
    Spec(SpecView),
}

impl View for Elem {
    type V = ElemView;

    open spec fn view(&self) -> ElemView {
        match self {
            Elem::Lit(t) => ElemView::Lit(t@),
            Elem::Spec(s) => ElemView::Spec(s@),
        }
    }
}

impl Elem {
    /// A copy of this element.
    pub(crate) fn duplicate(&self) -> (r: Self)
        ensures
            r@ == self@,
    {
        match self {
            Elem::Lit(t) => Elem::Lit(t.clone()),
            Elem::Spec(s) => Elem::Spec(s.duplicate()),
        }
    }
}

/// The values of a sequence of elements.
pub open spec fn elems_view(elems: Seq<Elem>) -> Seq<ElemView> {
    elems.map_values(|e: Elem| e@)
}

} // verus!
