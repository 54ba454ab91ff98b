//! The asymmetric difference of two value sets.

use vstd::prelude::*;
use crate::values::{no_dups, ValueSet};
use crate::text::{text_lines, text_values};

verus! {

/// The values of `p` that are absent from `s`, in `p`'s own order.
pub open spec fn diff_seq(p: Seq<Seq<char>>, s: Seq<Seq<char>>) -> Seq<Seq<char>>
    decreases p.len(),
{
    if p.len() == 0 {
        Seq::empty()
    } else {
        let rest = diff_seq(p.drop_last(), s);
        if s.contains(p.last()) {
            rest
        } else {
            rest.push(p.last())
        }
    }
}

/// Membership in the difference: a value is in `diff_seq(p, s)` exactly
/// when it is in `p` and not in `s`.
pub proof fn lemma_diff_membership(p: Seq<Seq<char>>, s: Seq<Seq<char>>)
    ensures
        forall|v: Seq<char>| #[trigger] diff_seq(p, s).contains(v) <==> p.contains(v)
            && !s.contains(v),
    decreases p.len(),
{
    if p.len() > 0 {
        lemma_diff_membership(p.drop_last(), s);
        let rest = diff_seq(p.drop_last(), s);
        assert forall|v: Seq<char>| p.contains(v) && !s.contains(v) implies #[trigger] diff_seq(
            p,
            s,
        ).contains(v) by {
            let k = choose|k: int| 0 <= k < p.len() && p[k] == v;
            if k < p.len() - 1 {
                assert(p.drop_last()[k] == v);
                assert(p.drop_last().contains(v));
                assert(rest.contains(v));
                let k2 = choose|k2: int| 0 <= k2 < rest.len() && rest[k2] == v;
                assert(diff_seq(p, s)[k2] == v);
            } else {
                assert(v == p.last());
                assert(diff_seq(p, s)[diff_seq(p, s).len() - 1] == v);
            }
        }
        assert forall|v: Seq<char>| #[trigger] diff_seq(p, s).contains(v) implies p.contains(v)
            && !s.contains(v) by {
            if rest.contains(v) {
                let k = choose|k: int|
                    0 <= k < p.drop_last().len() && p.drop_last()[k] == v;
                assert(p[k] == v);
            } else {
                assert(v == p.last());
                assert(p[p.len() - 1] == v);
            }
        }
    }
}

/// The difference of a duplicate-free sequence is duplicate-free.
pub proof fn lemma_diff_no_dups(p: Seq<Seq<char>>, s: Seq<Seq<char>>)
    requires
        no_dups(p),
    ensures
        no_dups(diff_seq(p, s)),
    decreases p.len(),
{
    if p.len() > 0 {
        assert(forall|i: int, j: int|
            0 <= i < j < p.drop_last().len() ==> p.drop_last()[i] != p.drop_last()[j]);
        lemma_diff_no_dups(p.drop_last(), s);
        let rest = diff_seq(p.drop_last(), s);
        if !s.contains(p.last()) {
            lemma_diff_membership(p.drop_last(), s);
            assert forall|i: int, j: int|
                0 <= i < j < diff_seq(p, s).len() implies diff_seq(p, s)[i] != diff_seq(
                p,
                s,
            )[j] by {
                if j == diff_seq(p, s).len() - 1 {
                    assert(rest.contains(rest[i]));
                    let k = choose|k: int|
                        0 <= k < p.drop_last().len() && p.drop_last()[k] == rest[i];
                    assert(p[k] == rest[i]);
                    assert(p[p.len() - 1] == p.last());
                }
            }
        }
    }
}

/// For any two text sources, the difference of their value sets holds
/// exactly the lines of the primary source that are not lines of the
/// secondary one, each exactly once however often it occurred.
pub proof fn lemma_text_difference(a: Seq<char>, b: Seq<char>)
    ensures
        forall|v: Seq<char>| #[trigger] diff_seq(text_values(a), text_values(b)).contains(v)
            <==> text_lines(a).contains(v) && !text_lines(b).contains(v),
        no_dups(diff_seq(text_values(a), text_values(b))),
{
    crate::values::lemma_dedup_membership(text_lines(a));
    crate::values::lemma_dedup_membership(text_lines(b));
    crate::values::lemma_dedup_no_dups(text_lines(a));
    lemma_diff_membership(text_values(a), text_values(b));
    lemma_diff_no_dups(text_values(a), text_values(b));
}

/// Running the tool with the same source on both sides yields an empty
/// difference.
pub proof fn lemma_diff_self(s: Seq<Seq<char>>)
    ensures
        diff_seq(s, s) == Seq::<Seq<char>>::empty(),
{
    lemma_diff_membership(s, s);
    let d = diff_seq(s, s);
    if d.len() > 0 {
        assert(d.contains(d[0]));
    }
    assert(d =~= Seq::<Seq<char>>::empty());
}

/// The difference of a fixed pair of inputs is one value: two computations
/// over the same pair agree, whichever run produced them. The executable
/// `difference` pins its result to `diff_seq`, so its output inherits this.
pub proof fn lemma_diff_deterministic(
    p: Seq<Seq<char>>,
    s: Seq<Seq<char>>,
    r1: Seq<Seq<char>>,
    r2: Seq<Seq<char>>,
)
    requires
        r1 == diff_seq(p, s),
        r2 == diff_seq(p, s),
    ensures
        r1 == r2,
{
}

/// Boundary cases: an empty primary set yields an empty difference
/// whatever the secondary holds, and an empty secondary set leaves the
/// primary values untouched.
pub proof fn lemma_diff_boundary(p: Seq<Seq<char>>, s: Seq<Seq<char>>)
    ensures
        diff_seq(Seq::<Seq<char>>::empty(), s) == Seq::<Seq<char>>::empty(),
        diff_seq(p, Seq::<Seq<char>>::empty()) == p,
    decreases p.len(),
{
    if p.len() == 0 {
        assert(diff_seq(p, Seq::<Seq<char>>::empty()) =~= p);
    } else {
        lemma_diff_boundary(p.drop_last(), s);
        assert(diff_seq(p, Seq::<Seq<char>>::empty()) =~= p.drop_last().push(p.last()));
        assert(p.drop_last().push(p.last()) =~= p);
    }
}

/// Compute the difference: every value of the primary set that the
/// secondary set does not hold, in the primary set's order.
pub fn difference(primary: &ValueSet, secondary: &ValueSet) -> (r: Vec<String>)
    ensures
        r.deep_view() == diff_seq(primary@, secondary@),
{
    let items = primary.values();
    let n = items.len();
    let mut out: Vec<String> = Vec::new();
    let mut i: usize = 0;
    proof {
        assert(out.deep_view() =~= diff_seq(primary@.subrange(0, 0), secondary@));
    }
    while i < n
        invariant
            n == items.len(),
            items.deep_view() == primary@,
            i <= n,
            out.deep_view() == diff_seq(primary@.subrange(0, i as int), secondary@),
        decreases n - i,
    {
        let ghost pre = out.deep_view();
        proof {
            assert(primary@.subrange(0, i + 1).drop_last() =~= primary@.subrange(0, i as int));
            assert(primary@.subrange(0, i + 1).last() == primary@[i as int]);
        }
        if !secondary.contains(&items[i]) {
            out.push(items[i].clone());
            proof {
                assert(out.deep_view() =~= pre.push(primary@[i as int]));
            }
        }
        i += 1;
    }
    proof {
        assert(primary@.subrange(0, n as int) =~= primary@);
    }
    out
}

} // verus!
