//! Comparisons of the string values that names, tags and leaves are made of.
use vstd::prelude::*;

verus! {

/// Compares two string slices by their characters.
pub fn str_eq(a: &str, b: &str) -> (r: bool)
    ensures
        r == (a@ == b@),
{
    let n = a.unicode_len();
    let m = b.unicode_len();
    if n != m {
        return false;
    }
    let mut i: usize = 0;
    while i < n
        invariant
            n == a@.len(),
            m == b@.len(),
            n == m,
            i <= n,
            forall|j: int| 0 <= j < i ==> a@[j] == b@[j],
        decreases n - i,
    {
        if a.get_char(i) != b.get_char(i) {
            return false;
        }
        i += 1;
    }
    assert(a@ =~= b@);
    true
}

/// The character sequences of a sequence of string references.
pub open spec fn strs_view(s: Seq<&String>) -> Seq<Seq<char>> {
    s.map_values(|x: &String| x@)
}

/// The character sequences of a sequence of strings.
pub open spec fn strings_view(s: Seq<String>) -> Seq<Seq<char>> {
    s.map_values(|x: String| x@)
}

/// Compares two sequences of string references element by element.
pub fn strs_eq(a: &Vec<&String>, b: &Vec<&String>) -> (r: bool)
    ensures
        r == (strs_view(a@) == strs_view(b@)),
{
    if a.len() != b.len() {
        assert(strs_view(a@).len() != strs_view(b@).len());
        return false;
    }
    let mut i: usize = 0;
    while i < a.len()
        invariant
            a.len() == b.len(),
            i <= a.len(),
            forall|j: int| 0 <= j < i ==> a@[j]@ == b@[j]@,
        decreases a.len() - i,
    {
        let x: &String = a[i];
        let y: &String = b[i];
        if !x.eq(y) {
            assert(strs_view(a@)[i as int] != strs_view(b@)[i as int]);
            return false;
        }
        i += 1;
    }
    assert(strs_view(a@) =~= strs_view(b@));
    true
}

/// Compares two optional sequences of string references.
pub fn opt_strs_eq(a: &Option<Vec<&String>>, b: &Option<Vec<&String>>) -> (r: bool)
    ensures
        r == (opt_strs_view(*a) == opt_strs_view(*b)),
{
    match (a, b) {
        (Some(x), Some(y)) => strs_eq(x, y),
        (None, None) => true,
        _ => false,
    }
}

/// The character sequences of an optional sequence of string references.
pub open spec fn opt_strs_view(a: Option<Vec<&String>>) -> Option<Seq<Seq<char>>> {
    match a {
        Some(v) => Some(strs_view(v@)),
        None => None,
    }
}

} // verus!
