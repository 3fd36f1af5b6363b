//! The line grammars: `name<sep>value` lines of a reference catalog and
//! `setgs <name> <value>` lines of a command file.
use vstd::prelude::*;

use crate::text::{chars_of, string_of, trim, trim_bounds};
use crate::value::{fold, fold_case, same_ignoring_case};

verus! {

/// A setting as written on a line, before its value is read.
#[derive(Clone, Debug)]
pub struct RawSetting {
    pub name: String,
    pub text: String,
    /// The bit pattern of `text` read as a single-precision float, `None`
    /// where it is no float literal. Lines are split with this unset; a
    /// caller that reads floats fills it in before the values are read.
    pub float_bits: Option<u32>,
}

impl View for RawSetting {
    type V = (Seq<char>, Seq<char>, Option<u32>);

    open spec fn view(&self) -> (Seq<char>, Seq<char>, Option<u32>) {
        (self.name@, self.text@, self.float_bits)
    }
}

/// `i` is the one position of `c` in `s`.
pub open spec fn sole_index(s: Seq<char>, c: char, i: int) -> bool {
    0 <= i < s.len() && s[i] == c && forall|j: int| 0 <= j < s.len() && s[j] == c ==> j == i
}

/// `s` cut at its one occurrence of `c`; `None` where `c` occurs never or
/// more than once.
pub open spec fn split_at_sole(s: Seq<char>, c: char) -> Option<(Seq<char>, Seq<char>)> {
    if exists|i: int| sole_index(s, c, i) {
        let i = choose|i: int| sole_index(s, c, i);
        Some((s.take(i), s.skip(i + 1)))
    } else {
        None
    }
}

/// The one position of `c` in `cs[lo..]`, as an index into `cs`.
fn find_sole(cs: &Vec<char>, lo: usize, c: char) -> (r: Option<usize>)
    requires
        lo <= cs@.len(),
    ensures
        match r {
            Some(i) => lo <= i < cs@.len() && sole_index(cs@.skip(lo as int), c, i - lo),
            None => !exists|i: int| sole_index(cs@.skip(lo as int), c, i),
        },
{
    let ghost s = cs@.skip(lo as int);
    let mut first: Option<usize> = None;
    let mut i = lo;
    while i < cs.len()
        invariant
            lo <= i <= cs@.len(),
            s == cs@.skip(lo as int),
            match first {
                Some(f) => lo <= f < i && cs@[f as int] == c && forall|j: int|
                    lo <= j < i && cs@[j] == c ==> j == f,
                None => forall|j: int| lo <= j < i ==> cs@[j] != c,
            },
        decreases cs@.len() - i,
    {
        if cs[i] == c {
            match first {
                Some(f) => {
                    assert forall|k: int| !sole_index(s, c, k) by {
                        assert(s[f - lo] == c);
                        assert(s[i - lo] == c);
                    }
                    return None;
                },
                None => {
                    first = Some(i);
                },
            }
        }
        i = i + 1;
    }
    match first {
        Some(f) => {
            assert(sole_index(s, c, f - lo)) by {
                assert forall|j: int| 0 <= j < s.len() && s[j] == c implies j == f - lo by {
                    assert(cs@[j + lo] == s[j]);
                }
            }
        },
        None => {
            assert forall|k: int| !sole_index(s, c, k) by {
                if 0 <= k < s.len() {
                    assert(cs@[k + lo] == s[k]);
                }
            }
        },
    }
    first
}

proof fn lemma_sole_unique(s: Seq<char>, c: char, i: int)
    requires
        sole_index(s, c, i),
    ensures
        split_at_sole(s, c) == Some((s.take(i), s.skip(i + 1))),
{
    let k = choose|k: int| sole_index(s, c, k);
    assert(k == i);
}

/// A catalog line: exactly one separator, name and value trimmed of white
/// space.
pub open spec fn catalog_line(line: Seq<char>, sep: char) -> Option<(Seq<char>, Seq<char>)> {
    match split_at_sole(line, sep) {
        Some((a, b)) => Some((trim(a), trim(b))),
        None => None,
    }
}

/// Splits a catalog line; see `catalog_line`.
pub fn split_catalog_line(line: &str, sep: char) -> (r: Option<RawSetting>)
    ensures
        match catalog_line(line@, sep) {
            Some((n, t)) => r is Some && r->0@ == (n, t, None::<u32>),
            None => r is None,
        },
{
    let cs = chars_of(line);
    assert(cs@.skip(0) =~= cs@);
    match find_sole(&cs, 0, sep) {
        Some(i) => {
            proof {
                lemma_sole_unique(cs@, sep, i as int);
                assert(cs@.subrange(0, i as int) =~= cs@.take(i as int));
                assert(cs@.subrange(i + 1, cs@.len() as int) =~= cs@.skip(i + 1));
            }
            assert(i < cs.len());
            let (a, b) = trim_bounds(&cs, 0, i);
            let (c, d) = trim_bounds(&cs, i + 1, cs.len());
            let name = string_of(&cs, a, b);
            let text = string_of(&cs, c, d);
            Some(RawSetting { name, text, float_bits: None })
        },
        None => None,
    }
}

/// The keyword that starts a command line, in lower case.
pub open spec fn setgs_keyword() -> Seq<char> {
    seq!['s', 'e', 't', 'g', 's', ' ']
}

/// `s` without one `"` at its start and one at its end, where they are.
pub open spec fn unquote(s: Seq<char>) -> Seq<char> {
    let a = if s.len() > 0 && s[0] == '"' {
        s.drop_first()
    } else {
        s
    };
    if a.len() > 0 && a.last() == '"' {
        a.drop_last()
    } else {
        a
    }
}

/// A command line: `setgs ` in any case of letters, then a name and a value
/// parted by the one space that follows; the name loses one layer of quotes.
pub open spec fn command_line(line: Seq<char>) -> Option<(Seq<char>, Seq<char>)> {
    if line.len() >= 6 && same_ignoring_case(line.take(6), setgs_keyword()) {
        match split_at_sole(line.skip(6), ' ') {
            Some((a, b)) => Some((unquote(a), b)),
            None => None,
        }
    } else {
        None
    }
}

/// Splits a command line; see `command_line`.
pub fn split_command_line(line: &str) -> (r: Option<RawSetting>)
    ensures
        match command_line(line@) {
            Some((n, t)) => r is Some && r->0@ == (n, t, None::<u32>),
            None => r is None,
        },
{
    let cs = chars_of(line);
    if cs.len() < 6 {
        return None;
    }
    let key: [char; 6] = ['s', 'e', 't', 'g', 's', ' '];
    let mut k: usize = 0;
    while k < 6
        invariant
            k <= 6,
            cs@ == line@,
            cs@.len() >= 6,
            key@ == setgs_keyword(),
            forall|j: int| 0 <= j < k ==> fold_case(cs@[j]) == fold_case(setgs_keyword()[j]),
        decreases 6 - k,
    {
        if fold(cs[k]) != fold(key[k]) {
            assert(fold_case(cs@.take(6)[k as int]) != fold_case(setgs_keyword()[k as int]));
            return None;
        }
        k = k + 1;
    }
    assert(same_ignoring_case(cs@.take(6), setgs_keyword()));
    match find_sole(&cs, 6, ' ') {
        Some(i) => {
            let ghost rest = cs@.skip(6);
            proof {
                lemma_sole_unique(rest, ' ', i - 6);
            }
            let mut a: usize = 6;
            let mut b: usize = i;
            if a < b && cs[a] == '"' {
                a = a + 1;
            }
            if a < b && cs[b - 1] == '"' {
                b = b - 1;
            }
            proof {
                let n = rest.take(i - 6);
                let n1 = if n.len() > 0 && n[0] == '"' { n.drop_first() } else { n };
                assert(n1 =~= cs@.subrange(a as int, i as int));
                assert(unquote(n) =~= cs@.subrange(a as int, b as int));
                assert(rest.skip(i - 6 + 1) =~= cs@.subrange(i + 1, cs@.len() as int));
            }
            let name = string_of(&cs, a, b);
            let text = string_of(&cs, i + 1, cs.len());
            Some(RawSetting { name, text, float_bits: None })
        },
        None => None,
    }
}

} // verus!
