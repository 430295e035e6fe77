//! Small string helpers with exact contracts over the character views.
use vstd::prelude::*;

verus! {

/// The characters of an optional borrowed string.
pub open spec fn opt_str_view(s: Option<&str>) -> Option<Seq<char>> {
    match s {
        Some(t) => Some(t@),
        None => None,
    }
}

/// An owned copy of `s`.
pub fn owned(s: &str) -> (r: String)
    ensures
        r@ == s@,
{
    s.to_string()
}

/// Whether two strings hold the same characters.
pub fn same_text(a: &str, b: &str) -> (r: bool)
    ensures
        r == (a@ == b@),
{
    let a = a.to_string();
    let b = b.to_string();
    a == b
}

/// Whether `list` holds a string equal to `s`.
pub fn holds_text(list: &[String], s: &str) -> (r: bool)
    ensures
        r == list.deep_view().contains(s@),
{
    let wanted = owned(s);
    let mut j: usize = 0;
    while j < list.len()
        invariant
            j <= list.len(),
            wanted@ == s@,
            forall|k: int| 0 <= k < j ==> list.deep_view()[k] != s@,
        decreases list.len() - j,
    {
        if list[j] == wanted {
            assert(list.deep_view()[j as int] == s@);
            return true;
        }
        j = j + 1;
    }
    proof {
        assert forall|k: int| 0 <= k < list.deep_view().len() implies list.deep_view()[k] != s@ by {}
    }
    false
}

} // verus!
