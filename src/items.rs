//! Where the items to rename come from.
use vstd::prelude::*;

verus! {

/// The items as given, or `None` where they are the single item `-`, which asks for the
/// items to be read from standard input, one per line.
pub fn items_from_opt(items: Vec<String>) -> (r: Option<Vec<String>>)
    ensures
        r is None <==> (items@.len() == 1 && items@[0]@ == seq!['-']),
        r matches Some(v) ==> v@ == items@,
{
    if items.len() == 1 {
        let s = items[0].as_str();
        if s.unicode_len() == 1 && s.get_char(0) == '-' {
            assert(items@[0]@ =~= seq!['-']);
            return None;
        }
    }
    Some(items)
}

} // verus!
