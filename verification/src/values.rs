//! The deduplicated set of string values extracted from one source.
//!
//! Values are kept in a vector in first-occurrence order, so every set has
//! one reproducible order; uniqueness is the type's invariant.

use vstd::prelude::*;

verus! {

/// No value occurs twice in the sequence.
pub open spec fn no_dups(s: Seq<Seq<char>>) -> bool {
    forall|i: int, j: int| 0 <= i < j < s.len() ==> s[i] != s[j]
}

/// The value sequence with duplicates collapsed: each value keeps its first
/// occurrence and later occurrences are dropped.
pub open spec fn dedup(lines: Seq<Seq<char>>) -> Seq<Seq<char>>
    decreases lines.len(),
{
    if lines.len() == 0 {
        Seq::empty()
    } else {
        let rest = dedup(lines.drop_last());
        if rest.contains(lines.last()) {
            rest
        } else {
            rest.push(lines.last())
        }
    }
}

/// Collapsing duplicates keeps membership: a value is in `dedup(lines)`
/// exactly when it is in `lines`.
pub proof fn lemma_dedup_membership(lines: Seq<Seq<char>>)
    ensures
        forall|v: Seq<char>| #[trigger] dedup(lines).contains(v) <==> lines.contains(v),
    decreases lines.len(),
{
    if lines.len() > 0 {
        lemma_dedup_membership(lines.drop_last());
        assert forall|v: Seq<char>| lines.contains(v) implies #[trigger] dedup(
            lines,
        ).contains(v) by {
            let k = choose|k: int| 0 <= k < lines.len() && lines[k] == v;
            if k < lines.len() - 1 {
                assert(lines.drop_last()[k] == v);
                assert(lines.drop_last().contains(v));
            } else {
                assert(v == lines.last());
            }
            let rest = dedup(lines.drop_last());
            if rest.contains(v) {
                let k2 = choose|k2: int| 0 <= k2 < rest.len() && rest[k2] == v;
                assert(dedup(lines)[k2] == v);
            } else {
                assert(v == lines.last());
                assert(dedup(lines)[dedup(lines).len() - 1] == v);
            }
        }
        assert forall|v: Seq<char>| #[trigger] dedup(lines).contains(v) implies lines.contains(
            v,
        ) by {
            if dedup(lines.drop_last()).contains(v) {
                let k = choose|k: int|
                    0 <= k < lines.drop_last().len() && lines.drop_last()[k] == v;
                assert(lines[k] == v);
            } else {
                assert(lines[lines.len() - 1] == v);
            }
        }
    }
}

/// The collapsed sequence holds each value at most once.
pub proof fn lemma_dedup_no_dups(lines: Seq<Seq<char>>)
    ensures
        no_dups(dedup(lines)),
    decreases lines.len(),
{
    if lines.len() > 0 {
        lemma_dedup_no_dups(lines.drop_last());
        let rest = dedup(lines.drop_last());
        if !rest.contains(lines.last()) {
            assert forall|i: int, j: int|
                0 <= i < j < dedup(lines).len() implies dedup(lines)[i] != dedup(lines)[j] by {
                if j == dedup(lines).len() - 1 {
                    assert(rest[i] == dedup(lines)[i]);
                    assert(rest.contains(rest[i]));
                }
            }
        }
    }
}

/// A deduplicated collection of string values in first-occurrence order.
#[derive(Debug)]
pub struct ValueSet {
    items: Vec<String>,
}

impl View for ValueSet {
    type V = Seq<Seq<char>>;

    closed spec fn view(&self) -> Seq<Seq<char>> {
        self.items.deep_view()
    }
}

impl ValueSet {
    /// The set's invariant: no value is held twice.
    pub open spec fn wf(&self) -> bool {
        no_dups(self@)
    }

    /// The empty value set.
    pub fn new() -> (r: ValueSet)
        ensures
            r@ == Seq::<Seq<char>>::empty(),
            r.wf(),
    {
        let r = ValueSet { items: Vec::new() };
        proof {
            assert(r@ =~= Seq::<Seq<char>>::empty());
        }
        r
    }

    /// The number of distinct values held.
    pub fn len(&self) -> (r: usize)
        ensures
            r == self@.len(),
    {
        self.items.len()
    }

    /// Whether `v` is one of the held values.
    pub fn contains(&self, v: &String) -> (r: bool)
        ensures
            r == self@.contains(v@),
    {
        let n = self.items.len();
        let mut i: usize = 0;
        while i < n
            invariant
                n == self.items.len(),
                i <= n,
                forall|j: int| 0 <= j < i ==> self@[j] != v@,
            decreases n - i,
        {
            if self.items[i].eq(v) {
                proof {
                    assert(self@[i as int] == v@);
                }
                return true;
            }
            i += 1;
        }
        proof {
            assert(forall|j: int| 0 <= j < self@.len() ==> self@[j] != v@);
        }
        false
    }

    /// Add `v` unless it is already held; a held value set stays as it is,
    /// so duplicates collapse to the first occurrence.
    pub fn insert(&mut self, v: String)
        requires
            old(self).wf(),
        ensures
            final(self)@ == (if old(self)@.contains(v@) {
                old(self)@
            } else {
                old(self)@.push(v@)
            }),
            final(self).wf(),
    {
        if !self.contains(&v) {
            let ghost pre = self@;
            self.items.push(v);
            proof {
                assert(self@ =~= pre.push(v@));
            }
        }
    }

    /// The held values, in their first-occurrence order.
    pub fn values(&self) -> (r: &Vec<String>)
        ensures
            r.deep_view() == self@,
    {
        &self.items
    }
}

} // verus!
