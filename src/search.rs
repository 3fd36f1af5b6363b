//! The filter of the settings list: a name is shown when it holds the
//! filter text, both folded to lower case.
use vstd::prelude::*;

use crate::text::chars_of;

verus! {

/// What `str::to_lowercase` makes of a text.
pub uninterp spec fn lower_of(s: Seq<char>) -> Seq<char>;

/// Relies on `str::to_lowercase`: the result depends on the characters
/// alone, and an empty text stays empty.
#[verifier::external_body]
fn lowercase(s: &str) -> (r: String)
    ensures
        r@ == lower_of(s@),
        s@.len() == 0 ==> r@.len() == 0,
{
    s.to_lowercase()
}

/// `needle` occurs in `hay` as a run of characters.
pub open spec fn occurs_in(needle: Seq<char>, hay: Seq<char>) -> bool {
    exists|i: int| 0 <= i && i + needle.len() <= hay.len() && #[trigger] hay.subrange(i, i + needle.len()) == needle
}

/// Whether a name, already folded, holds a filter, already folded.
pub fn matches_folded(name: &str, filter: &str) -> (r: bool)
    ensures
        r == occurs_in(filter@, name@),
{
    let h = chars_of(name);
    let n = chars_of(filter);
    if n.len() == 0 {
        assert(h@.subrange(0int, 0int + n@.len()) =~= n@);
        assert(occurs_in(filter@, name@));
        return true;
    }
    if n.len() > h.len() {
        return false;
    }
    let mut i: usize = 0;
    while i <= h.len() - n.len()
        invariant
            h@ == name@,
            n@ == filter@,
            0 < n@.len() <= h@.len(),
            h@.len() <= usize::MAX,
            i <= h@.len() - n@.len() + 1,
            forall|k: int| 0 <= k < i ==> #[trigger] h@.subrange(k, k + n@.len()) != n@,
        decreases h@.len() - i,
    {
        let mut j: usize = 0;
        while j < n.len() && h[i + j] == n[j]
            invariant
                h@ == name@,
                n@ == filter@,
                i + n@.len() <= h@.len(),
                h@.len() <= usize::MAX,
                j <= n@.len(),
                forall|k: int| 0 <= k < j ==> h@[i + k] == n@[k],
            decreases n@.len() - j,
        {
            j = j + 1;
        }
        if j == n.len() {
            assert(h@.subrange(i as int, i + n@.len()) =~= n@);
            return true;
        }
        assert(h@.subrange(i as int, i + n@.len())[j as int] != n@[j as int]);
        i = i + 1;
    }
    proof {
        if occurs_in(filter@, name@) {
            let k = choose|k: int| 0 <= k && k + n@.len() <= h@.len() && #[trigger] h@.subrange(k, k + n@.len()) == n@;
            assert(k < i);
        }
    }
    false
}

/// Whether the settings list shows `name` under the filter `filter`: the
/// filter is empty, or the name folded to lower case holds the filter
/// folded to lower case.
pub fn matches_filter(name: &str, filter: &str) -> (r: bool)
    ensures
        r == (filter@.len() == 0 || occurs_in(lower_of(filter@), lower_of(name@))),
{
    let n = lowercase(name);
    let f = lowercase(filter);
    let r = matches_folded(n.as_str(), f.as_str());
    proof {
        if filter@.len() == 0 {
            assert(f@.len() == 0);
            assert(n@.subrange(0int, 0int + f@.len()) =~= f@);
        }
    }
    r
}

} // verus!
