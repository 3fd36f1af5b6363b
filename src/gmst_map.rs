//! A map from setting names to values, kept sorted by name.
use vstd::prelude::*;

use crate::text::{lemma_lex_asymmetric, lemma_lex_irreflexive, lemma_lex_total, lemma_lex_transitive, lex_lt, less_than, same_text};
use crate::value::EGmstValue;

verus! {

/// A named setting.
#[derive(Clone, Debug)]
pub struct Gmst {
    pub name: String,
    pub value: EGmstValue,
}

/// Names in strictly increasing order.
pub open spec fn sorted_by_name(s: Seq<Gmst>) -> bool {
    forall|i: int, j: int| 0 <= i < j < s.len() ==> lex_lt(#[trigger] s[i].name@, #[trigger] s[j].name@)
}

pub open spec fn unique_names(s: Seq<Gmst>) -> bool {
    forall|i: int, j: int| 0 <= i < s.len() && 0 <= j < s.len() && i != j ==> #[trigger] s[i].name@ != #[trigger] s[j].name@
}

pub open spec fn has_name(s: Seq<Gmst>, k: Seq<char>, i: int) -> bool {
    0 <= i < s.len() && s[i].name@ == k
}

/// The map that a sequence of named settings stands for.
pub open spec fn map_of(s: Seq<Gmst>) -> Map<Seq<char>, EGmstValue> {
    Map::new(
        |k: Seq<char>| exists|i: int| has_name(s, k, i),
        |k: Seq<char>| s[choose|i: int| has_name(s, k, i)].value,
    )
}

proof fn lemma_sorted_unique(s: Seq<Gmst>)
    requires
        sorted_by_name(s),
    ensures
        unique_names(s),
{
    assert forall|i: int, j: int| 0 <= i < s.len() && 0 <= j < s.len() && i != j implies #[trigger] s[i].name@ != #[trigger] s[j].name@ by {
        if i < j {
            assert(lex_lt(s[i].name@, s[j].name@));
        } else {
            assert(lex_lt(s[j].name@, s[i].name@));
        }
        lemma_lex_irreflexive(s[i].name@);
    }
}

proof fn lemma_map_of_at(s: Seq<Gmst>, i: int)
    requires
        unique_names(s),
        0 <= i < s.len(),
    ensures
        map_of(s).contains_key(s[i].name@),
        map_of(s)[s[i].name@] == s[i].value,
{
    let k = s[i].name@;
    assert(has_name(s, k, i));
    let j = choose|j: int| has_name(s, k, j);
    assert(j == i);
}

proof fn lemma_map_of_insert(s: Seq<Gmst>, p: int, g: Gmst)
    requires
        0 <= p <= s.len(),
        unique_names(s.insert(p, g)),
    ensures
        map_of(s.insert(p, g)) =~= map_of(s).insert(g.name@, g.value),
{
    let t = s.insert(p, g);
    assert(unique_names(s)) by {
        assert forall|i: int, j: int| 0 <= i < s.len() && 0 <= j < s.len() && i != j implies #[trigger] s[i].name@ != #[trigger] s[j].name@ by {
            let ti = if i < p { i } else { i + 1 };
            let tj = if j < p { j } else { j + 1 };
            assert(t[ti] == s[i]);
            assert(t[tj] == s[j]);
        }
    }
    let m = map_of(s).insert(g.name@, g.value);
    assert forall|k: Seq<char>| #[trigger] map_of(t).contains_key(k) <==> m.contains_key(k) by {
        if map_of(t).contains_key(k) {
            let i = choose|i: int| has_name(t, k, i);
            if i < p {
                assert(has_name(s, k, i));
            } else if i > p {
                assert(has_name(s, k, i - 1));
            }
        }
        if map_of(s).contains_key(k) {
            let i = choose|i: int| has_name(s, k, i);
            if i < p {
                assert(has_name(t, k, i));
            } else {
                assert(has_name(t, k, i + 1));
            }
        }
        if k == g.name@ {
            assert(has_name(t, k, p));
        }
    }
    assert forall|k: Seq<char>| #[trigger] map_of(t).contains_key(k) implies map_of(t)[k] == m[k] by {
        let i = choose|i: int| has_name(t, k, i);
        if k == g.name@ {
            assert(t[p].name@ == k);
        } else {
            let j = if i < p { i } else { i - 1 };
            assert(s[j] == t[i]);
            lemma_map_of_at(s, j);
        }
    }
}

proof fn lemma_map_of_update(s: Seq<Gmst>, p: int, g: Gmst)
    requires
        0 <= p < s.len(),
        unique_names(s),
        s[p].name@ == g.name@,
    ensures
        map_of(s.update(p, g)) =~= map_of(s).insert(g.name@, g.value),
        unique_names(s.update(p, g)),
{
    let t = s.update(p, g);
    let m = map_of(s).insert(g.name@, g.value);
    assert forall|i: int, j: int| 0 <= i < t.len() && 0 <= j < t.len() && i != j implies #[trigger] t[i].name@ != #[trigger] t[j].name@ by {
        assert(t[i].name@ == s[i].name@);
        assert(t[j].name@ == s[j].name@);
    }
    assert forall|k: Seq<char>| #[trigger] map_of(t).contains_key(k) <==> m.contains_key(k) by {
        if map_of(t).contains_key(k) {
            let i = choose|i: int| has_name(t, k, i);
            assert(has_name(s, k, i));
        }
        if map_of(s).contains_key(k) {
            let i = choose|i: int| has_name(s, k, i);
            assert(has_name(t, k, i));
        }
        if k == g.name@ {
            assert(has_name(t, k, p));
        }
    }
    assert forall|k: Seq<char>| #[trigger] map_of(t).contains_key(k) implies map_of(t)[k] == m[k] by {
        let i = choose|i: int| has_name(t, k, i);
        lemma_map_of_at(t, i);
        if i != p {
            lemma_map_of_at(s, i);
        }
    }
}

/// A sorted sequence stays sorted when a name that falls between position
/// `p - 1` and position `p` is inserted at `p`.
proof fn lemma_sorted_insert(s: Seq<Gmst>, p: int, g: Gmst)
    requires
        sorted_by_name(s),
        0 <= p <= s.len(),
        forall|i: int| 0 <= i < p ==> lex_lt(#[trigger] s[i].name@, g.name@),
        forall|i: int| p <= i < s.len() ==> lex_lt(g.name@, #[trigger] s[i].name@),
    ensures
        sorted_by_name(s.insert(p, g)),
{
    let t = s.insert(p, g);
    assert forall|i: int, j: int| 0 <= i < j < t.len() implies lex_lt(#[trigger] t[i].name@, #[trigger] t[j].name@) by {
        if i < p && j < p {
            assert(lex_lt(s[i].name@, s[j].name@));
        } else if i < p && j == p {
        } else if i < p {
            assert(t[j] == s[j - 1]);
            assert(lex_lt(s[i].name@, s[j - 1].name@));
        } else if i == p {
            assert(t[j] == s[j - 1]);
        } else {
            assert(t[i] == s[i - 1]);
            assert(t[j] == s[j - 1]);
            assert(lex_lt(s[i - 1].name@, s[j - 1].name@));
        }
    }
}

/// Settings by name. The entries are kept in strictly increasing order of
/// name, so that each name occurs once and a listing comes out sorted.
#[derive(Clone, Debug)]
pub struct GmstMap {
    entries: Vec<Gmst>,
}

impl View for GmstMap {
    type V = Map<Seq<char>, EGmstValue>;

    open spec fn view(&self) -> Map<Seq<char>, EGmstValue> {
        map_of(self.items())
    }
}

impl GmstMap {
    /// The entries, in order of name.
    pub closed spec fn items(&self) -> Seq<Gmst> {
        self.entries@
    }

    pub closed spec fn wf(&self) -> bool {
        sorted_by_name(self.entries@)
    }

    pub fn new() -> (r: GmstMap)
        ensures
            r.wf(),
            r@ == Map::<Seq<char>, EGmstValue>::empty(),
            r.items().len() == 0,
    {
        let r = GmstMap { entries: Vec::new() };
        assert(r@ =~= Map::<Seq<char>, EGmstValue>::empty());
        r
    }

    /// The entries, sorted by name without repeats.
    pub fn entries(&self) -> (r: &Vec<Gmst>)
        requires
            self.wf(),
        ensures
            r@ == self.items(),
            sorted_by_name(r@),
            unique_names(r@),
            map_of(r@) == self@,
    {
        proof {
            lemma_sorted_unique(self.entries@);
        }
        &self.entries
    }

    pub fn len(&self) -> (r: usize)
        requires
            self.wf(),
        ensures
            r == self@.len(),
            r == self.items().len(),
    {
        proof {
            lemma_sorted_unique(self.entries@);
            self.lemma_dom();
        }
        self.entries.len()
    }

    proof fn lemma_dom(&self)
        requires
            unique_names(self.entries@),
        ensures
            self@.dom() == self.entries@.map_values(|g: Gmst| g.name@).to_set(),
            self@.dom().len() == self.entries@.len(),
    {
        let s = self.entries@;
        let names = s.map_values(|g: Gmst| g.name@);
        assert forall|k: Seq<char>| #[trigger] self@.dom().contains(k) <==> names.to_set().contains(k) by {
            if self@.dom().contains(k) {
                let i = choose|i: int| has_name(s, k, i);
                assert(names[i] == k);
            }
            if names.to_set().contains(k) {
                let i = choose|i: int| 0 <= i < names.len() && names[i] == k;
                assert(has_name(s, k, i));
            }
        }
        assert(self@.dom() =~= names.to_set());
        assert(names.no_duplicates()) by {
            assert forall|i: int, j: int| 0 <= i < names.len() && 0 <= j < names.len() && i != j implies names[i] != names[j] by {
                assert(s[i].name@ != s[j].name@);
            }
        }
        names.unique_seq_to_set();
    }

    /// Where `name` stands or would stand: every name before the position is
    /// smaller, none from it on is, and the flag says whether it is there.
    fn find(&self, name: &str) -> (r: (usize, bool))
        requires
            self.wf(),
        ensures
            r.0 <= self.entries@.len(),
            forall|i: int| 0 <= i < r.0 ==> lex_lt(#[trigger] self.entries@[i].name@, name@),
            forall|i: int| r.0 <= i < self.entries@.len() ==> lex_lt(name@, #[trigger] self.entries@[i].name@) || self.entries@[i].name@ == name@,
            r.1 == (r.0 < self.entries@.len() && self.entries@[r.0 as int].name@ == name@),
            r.1 || forall|i: int| 0 <= i < self.entries@.len() ==> #[trigger] self.entries@[i].name@ != name@,
    {
        let ghost s = self.entries@;
        let mut lo: usize = 0;
        let mut hi: usize = self.entries.len();
        while lo < hi
            invariant
                s == self.entries@,
                sorted_by_name(s),
                lo <= hi <= s.len(),
                forall|i: int| 0 <= i < lo ==> lex_lt(#[trigger] s[i].name@, name@),
                forall|i: int| hi <= i < s.len() ==> !lex_lt(#[trigger] s[i].name@, name@),
            decreases hi - lo,
        {
            let mid = lo + (hi - lo) / 2;
            if less_than(self.entries[mid].name.as_str(), name) {
                assert forall|i: int| 0 <= i <= mid implies lex_lt(#[trigger] s[i].name@, name@) by {
                    if i < mid {
                        lemma_lex_transitive(s[i].name@, s[mid as int].name@, name@);
                    }
                }
                lo = mid + 1;
            } else {
                assert forall|i: int| mid <= i < s.len() implies !lex_lt(#[trigger] s[i].name@, name@) by {
                    if i > mid && lex_lt(s[i].name@, name@) {
                        lemma_lex_transitive(s[mid as int].name@, s[i].name@, name@);
                    }
                }
                hi = mid;
            }
        }
        assert forall|i: int| lo <= i < s.len() implies lex_lt(name@, #[trigger] s[i].name@) || s[i].name@ == name@ by {
            lemma_lex_total(name@, s[i].name@);
        }
        let found = lo < self.entries.len() && same_text(self.entries[lo].name.as_str(), name);
        if !found {
            assert forall|i: int| 0 <= i < s.len() implies #[trigger] s[i].name@ != name@ by {
                if i < lo {
                    lemma_lex_irreflexive(name@);
                } else if i > lo && s[i].name@ == name@ {
                    assert(lex_lt(s[lo as int].name@, s[i].name@));
                    lemma_lex_total(name@, s[lo as int].name@);
                    lemma_lex_asymmetric(s[lo as int].name@, name@);
                }
            }
        }
        (lo, found)
    }

    /// The value stored under `name`, if any.
    pub fn get(&self, name: &str) -> (r: Option<EGmstValue>)
        requires
            self.wf(),
        ensures
            r == (if self@.contains_key(name@) {
                Some(self@[name@])
            } else {
                None::<EGmstValue>
            }),
    {
        let (p, found) = self.find(name);
        proof {
            lemma_sorted_unique(self.entries@);
        }
        if found {
            proof {
                lemma_map_of_at(self.entries@, p as int);
            }
            Some(self.entries[p].value)
        } else {
            assert(!self@.contains_key(name@));
            None
        }
    }

    /// Stores `value` under `name`, replacing what was there.
    pub fn insert(&mut self, name: String, value: EGmstValue)
        requires
            old(self).wf(),
        ensures
            final(self).wf(),
            final(self)@ == old(self)@.insert(name@, value),
    {
        let (p, found) = self.find(name.as_str());
        let ghost s = self.entries@;
        let g = Gmst { name, value };
        proof {
            lemma_sorted_unique(s);
        }
        if found {
            self.entries.remove(p);
            self.entries.insert(p, g);
            proof {
                assert(self.entries@ =~= s.update(p as int, g));
                lemma_map_of_update(s, p as int, g);
                assert forall|i: int, j: int| 0 <= i < j < self.entries@.len() implies lex_lt(#[trigger] self.entries@[i].name@, #[trigger] self.entries@[j].name@) by {
                    assert(self.entries@[i].name@ == s[i].name@);
                    assert(self.entries@[j].name@ == s[j].name@);
                }
            }
        } else {
            proof {
                assert forall|i: int| p <= i < s.len() implies lex_lt(g.name@, #[trigger] s[i].name@) by {
                    assert(s[i].name@ != g.name@);
                }
                lemma_sorted_insert(s, p as int, g);
                lemma_sorted_unique(s.insert(p as int, g));
                lemma_map_of_insert(s, p as int, g);
            }
            self.entries.insert(p, g);
        }
    }

    /// Stores `value` under `name` unless the name is there already.
    pub fn insert_if_absent(&mut self, name: String, value: EGmstValue)
        requires
            old(self).wf(),
        ensures
            final(self).wf(),
            final(self)@ == (if old(self)@.contains_key(name@) {
                old(self)@
            } else {
                old(self)@.insert(name@, value)
            }),
    {
        let (p, found) = self.find(name.as_str());
        let ghost s = self.entries@;
        proof {
            lemma_sorted_unique(s);
        }
        if found {
            proof {
                lemma_map_of_at(s, p as int);
            }
        } else {
            let g = Gmst { name, value };
            proof {
                assert(!old(self)@.contains_key(g.name@));
                assert forall|i: int| p <= i < s.len() implies lex_lt(g.name@, #[trigger] s[i].name@) by {
                    assert(s[i].name@ != g.name@);
                }
                lemma_sorted_insert(s, p as int, g);
                lemma_sorted_unique(s.insert(p as int, g));
                lemma_map_of_insert(s, p as int, g);
            }
            self.entries.insert(p, g);
        }
    }

    /// Stores every setting of `other`, its values winning over those here.
    pub fn overlay(&mut self, other: &GmstMap)
        requires
            old(self).wf(),
            other.wf(),
        ensures
            final(self).wf(),
            final(self)@ == old(self)@.union_prefer_right(other@),
    {
        let ghost s = other.entries@;
        proof {
            lemma_sorted_unique(s);
            assert(s.take(0) =~= Seq::<Gmst>::empty());
            assert(old(self)@.union_prefer_right(map_of(s.take(0))) =~= old(self)@);
        }
        let mut i: usize = 0;
        while i < other.entries.len()
            invariant
                self.wf(),
                other.wf(),
                s == other.entries@,
                unique_names(s),
                i <= s.len(),
                self@ == old(self)@.union_prefer_right(map_of(s.take(i as int))),
            decreases s.len() - i,
        {
            let name = other.entries[i].name.clone();
            let value = other.entries[i].value;
            proof {
                let g = s[i as int];
                assert(s.take(i + 1) =~= s.take(i as int).insert(i as int, g));
                assert(unique_names(s.take(i + 1)));
                lemma_map_of_insert(s.take(i as int), i as int, g);
            }
            self.insert(name, value);
            proof {
                assert(self@ =~= old(self)@.union_prefer_right(map_of(s.take(i + 1))));
            }
            i = i + 1;
        }
        proof {
            assert(s.take(i as int) =~= s);
        }
    }
}

} // verus!
