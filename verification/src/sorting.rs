//! Stable sorting by a "comes before" relation.
use crate::double::Double;
use crate::text;
use vstd::prelude::*;

verus! {

/// Values with a relation that sorting goes by.
pub trait Ranked: Sized {
    spec fn before(self, other: Self) -> bool;

    fn comes_before(&self, other: &Self) -> (r: bool)
        ensures
            r == self.before(*other),
    ;
}

/// Where `x` goes in `s`: behind everything that it does not come before,
/// looking from the back.
pub open spec fn slot<T: Ranked>(s: Seq<T>, x: T) -> nat
    decreases s.len(),
{
    if s.len() == 0 || !x.before(s.last()) {
        s.len()
    } else {
        slot(s.drop_last(), x)
    }
}

/// `s` in order; values that tie keep the order they came in.
pub open spec fn sorted<T: Ranked>(s: Seq<T>) -> Seq<T>
    decreases s.len(),
{
    if s.len() == 0 {
        s
    } else {
        let t = sorted(s.drop_last());
        t.insert(slot(t, s.last()) as int, s.last())
    }
}

pub proof fn lemma_slot_bound<T: Ranked>(s: Seq<T>, x: T)
    ensures
        slot(s, x) <= s.len(),
    decreases s.len(),
{
    if s.len() > 0 {
        lemma_slot_bound(s.drop_last(), x);
    }
}

pub proof fn lemma_slot_props<T: Ranked>(s: Seq<T>, x: T)
    ensures
        slot(s, x) <= s.len(),
        slot(s, x) > 0 ==> !x.before(s[slot(s, x) - 1]),
        forall|i: int| slot(s, x) <= i < s.len() ==> x.before(#[trigger] s[i]),
    decreases s.len(),
{
    if s.len() > 0 && x.before(s.last()) {
        lemma_slot_props(s.drop_last(), x);
        let k = slot(s, x);
        assert forall|i: int| k <= i < s.len() implies x.before(#[trigger] s[i]) by {
            if i < s.len() - 1 {
                assert(s.drop_last()[i] == s[i]);
            }
        }
        if k > 0 {
            assert(s.drop_last()[k - 1] == s[k - 1]);
        }
    }
}

/// Sorting only rearranges.
pub proof fn lemma_sorted_multiset<T: Ranked>(s: Seq<T>)
    ensures
        sorted(s).to_multiset() == s.to_multiset(),
        sorted(s).len() == s.len(),
    decreases s.len(),
{
    broadcast use vstd::seq_lib::group_to_multiset_ensures;

    if s.len() > 0 {
        let t = s.drop_last();
        lemma_sorted_multiset(t);
        lemma_slot_bound(sorted(t), s.last());
        assert(s =~= t.push(s.last()));
        assert(s.to_multiset() =~= t.to_multiset().insert(s.last()));
        let k = slot(sorted(t), s.last()) as int;
        assert(sorted(s).to_multiset() =~= sorted(t).to_multiset().insert(s.last()));
    } else {
        assert(sorted(s).to_multiset() =~= s.to_multiset());
    }
}

/// Sorted sequences hold the same values as what they were sorted from.
pub proof fn lemma_sorted_contains<T: Ranked>(s: Seq<T>)
    ensures
        forall|x: T| #[trigger] sorted(s).contains(x) <==> s.contains(x),
        sorted(s).len() == s.len(),
{
    broadcast use vstd::seq_lib::group_to_multiset_ensures;

    lemma_sorted_multiset(s);
    assert forall|x: T| #[trigger] sorted(s).contains(x) <==> s.contains(x) by {
        assert(sorted(s).contains(x) <==> sorted(s).to_multiset().count(x) > 0);
        assert(s.contains(x) <==> s.to_multiset().count(x) > 0);
    }
}

/// Sorting brings in no duplicates.
pub proof fn lemma_sorted_no_duplicates<T: Ranked>(s: Seq<T>)
    requires
        s.no_duplicates(),
    ensures
        sorted(s).no_duplicates(),
{
    lemma_sorted_multiset(s);
    s.lemma_multiset_has_no_duplicates();
    sorted(s).lemma_multiset_has_no_duplicates_conv();
}

/// No value of a sorted sequence comes before an earlier one, where the
/// relation is a strict weak order.
pub proof fn lemma_sorted_ordered<T: Ranked>(s: Seq<T>)
    requires
        forall|a: T, b: T| #[trigger] a.before(b) ==> !b.before(a),
        forall|a: T, b: T, c: T|
            !(#[trigger] a.before(b)) && !(#[trigger] b.before(c)) ==> !a.before(c),
    ensures
        forall|i: int, j: int|
            0 <= i < j < sorted(s).len() ==> !(#[trigger] sorted(s)[j].before(#[trigger] sorted(
                s,
            )[i])),
    decreases s.len(),
{
    if s.len() > 0 {
        let t = sorted(s.drop_last());
        lemma_sorted_ordered(s.drop_last());
        let x = s.last();
        lemma_slot_props(t, x);
        let k = slot(t, x) as int;
        let r = sorted(s);
        assert(r =~= t.insert(k, x));
        assert forall|i: int, j: int| 0 <= i < j < r.len() implies !(#[trigger] r[j].before(
            #[trigger] r[i],
        )) by {
            if j < k {
            } else if j == k {
                if i < k - 1 {
                    assert(!t[k - 1].before(t[i]));
                    assert(!x.before(t[k - 1]));
                }
            } else {
                if i == k {
                    assert(x.before(t[j - 1]));
                } else if i < k {
                    assert(r[i] == t[i] && r[j] == t[j - 1]);
                    assert(!t[j - 1].before(t[i]));
                } else {
                    assert(r[i] == t[i - 1] && r[j] == t[j - 1]);
                    assert(!t[j - 1].before(t[i - 1]));
                }
            }
        }
    }
}

/// Sorts `v`, keeping ties in order.
pub fn sort<T: Ranked>(v: Vec<T>) -> (r: Vec<T>)
    ensures
        r@ == sorted(v@),
{
    let ghost all = v@;
    let mut rest: Vec<T> = v;
    let mut taken: Vec<T> = Vec::new();
    // Reverse so that values can be popped in their original order.
    while rest.len() > 0
        invariant
            all == rest@ + taken@.reverse(),
        decreases rest@.len(),
    {
        let ghost before_rest = rest@;
        let ghost before_taken = taken@;
        match rest.pop() {
            Some(x) => {
                taken.push(x);
                proof {
                    assert(taken@.reverse() =~= seq![x] + before_taken.reverse());
                    assert(rest@ + taken@.reverse() =~= before_rest + before_taken.reverse());
                }
            },
            None => {},
        }
    }
    let mut out: Vec<T> = Vec::new();
    proof {
        assert(all =~= taken@.reverse());
        assert(all.take(0) =~= Seq::empty());
    }
    while taken.len() > 0
        invariant
            all == all.take(all.len() - taken@.len()) + taken@.reverse(),
            taken@.len() <= all.len(),
            out@ == sorted(all.take(all.len() - taken@.len())),
        decreases taken@.len(),
    {
        let ghost k = all.len() - taken@.len();
        let ghost before_taken = taken@;
        match taken.pop() {
            Some(x) => {
                proof {
                    assert(before_taken.reverse()[0] == x);
                    assert(all[k] == (all.take(k) + before_taken.reverse())[k]);
                    assert(all[k] == x);
                    assert(all.take(k + 1).drop_last() =~= all.take(k));
                    assert(before_taken.reverse() =~= seq![x] + taken@.reverse());
                    assert(all =~= all.take(k + 1) + taken@.reverse());
                    lemma_slot_bound(out@, x);
                }
                let ghost done = out@;
                let mut p: usize = out.len();
                proof {
                    assert(done.take(p as int) =~= done);
                }
                while p > 0 && x.comes_before(&out[p - 1])
                    invariant
                        p <= out@.len(),
                        out@ == done,
                        slot(done, x) == slot(done.take(p as int), x),
                    decreases p,
                {
                    proof {
                        assert(done.take(p as int).last() == out@[p - 1]);
                        assert(done.take(p as int).drop_last() =~= done.take(p - 1));
                    }
                    p = p - 1;
                }
                proof {
                    if p > 0 {
                        assert(done.take(p as int).last() == out@[p - 1]);
                    }
                    assert(slot(done, x) == p);
                }
                out.insert(p, x);
            },
            None => {},
        }
    }
    assert(all.take(all.len() as int) =~= all);
    out
}

impl Ranked for Double {
    open spec fn before(self, other: Double) -> bool {
        self.lt_spec(other)
    }

    fn comes_before(&self, other: &Double) -> (r: bool) {
        self.lt(*other)
    }
}

impl Ranked for String {
    open spec fn before(self, other: String) -> bool {
        text::lex_lt(self@, other@)
    }

    fn comes_before(&self, other: &String) -> (r: bool) {
        text::less(self.as_str(), other.as_str())
    }
}

} // verus!
