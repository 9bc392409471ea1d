//! A map from text to values, kept in key order.
use crate::text;
use vstd::prelude::*;

verus! {

/// Entries in strictly increasing order of their keys.
#[derive(Debug, Clone, PartialEq, Eq)]
pub struct StrMap<V> {
    entries: Vec<(String, V)>,
}

/// Strictly increasing, hence without duplicates.
pub open spec fn increasing(keys: Seq<Seq<char>>) -> bool {
    forall|i: int, j: int|
        0 <= i < j < keys.len() ==> text::lex_lt(#[trigger] keys[i], #[trigger] keys[j])
}

pub proof fn lemma_increasing_distinct(keys: Seq<Seq<char>>, i: int, j: int)
    requires
        increasing(keys),
        0 <= i < keys.len(),
        0 <= j < keys.len(),
        keys[i] == keys[j],
    ensures
        i == j,
{
    text::lemma_lex_irreflexive(keys[i]);
}

impl<V> StrMap<V> {
    /// The keys, in order.
    pub closed spec fn keys(self) -> Seq<Seq<char>> {
        self.entries@.map_values(|e: (String, V)| e.0@)
    }

    /// The value of the `i`-th key.
    pub closed spec fn nth(self, i: int) -> V {
        self.entries@[i].1
    }

    pub open spec fn wf(self) -> bool {
        increasing(self.keys())
    }

    pub open spec fn has(self, k: Seq<char>) -> bool {
        self.keys().contains(k)
    }

    /// The position of a key.
    pub open spec fn position(self, k: Seq<char>) -> int {
        self.keys().index_of(k)
    }
}

impl<V> View for StrMap<V> {
    type V = Map<Seq<char>, V>;

    open spec fn view(&self) -> Map<Seq<char>, V> {
        Map::new(|k: Seq<char>| self.has(k), |k: Seq<char>| self.nth(self.position(k)))
    }
}

impl<V> StrMap<V> {
    /// Positions and keys are one to one, and the map's values are the
    /// entries' values.
    pub proof fn lemma_nth(self, i: int)
        requires
            self.wf(),
            0 <= i < self.keys().len(),
        ensures
            self.has(self.keys()[i]),
            self@.dom().contains(self.keys()[i]),
            self.position(self.keys()[i]) == i,
            self@[self.keys()[i]] == self.nth(i),
    {
        let k = self.keys()[i];
        assert(self.keys().contains(k));
        let p = self.position(k);
        assert(0 <= p < self.keys().len() && self.keys()[p] == k);
        lemma_increasing_distinct(self.keys(), p, i);
    }

    pub fn new() -> (m: StrMap<V>)
        ensures
            m.wf(),
            m.keys() == Seq::<Seq<char>>::empty(),
            m@ == Map::<Seq<char>, V>::empty(),
    {
        let m: StrMap<V> = StrMap { entries: Vec::new() };
        assert(m.keys() =~= Seq::empty());
        assert(m@ =~= Map::empty());
        m
    }

    pub fn len(&self) -> (n: usize)
        ensures
            n == self.keys().len(),
    {
        self.entries.len()
    }

    pub fn is_empty(&self) -> (r: bool)
        ensures
            r == (self.keys().len() == 0),
    {
        self.entries.len() == 0
    }

    /// The `i`-th key.
    pub fn key_at(&self, i: usize) -> (k: &String)
        requires
            i < self.keys().len(),
        ensures
            k@ == self.keys()[i as int],
    {
        &self.entries[i].0
    }

    /// The value of the `i`-th key.
    pub fn value_at(&self, i: usize) -> (v: &V)
        requires
            i < self.keys().len(),
        ensures
            *v == self.nth(i as int),
    {
        &self.entries[i].1
    }

    /// How many keys come before `k`.
    fn lower_bound(&self, k: &str) -> (p: usize)
        requires
            self.wf(),
        ensures
            p <= self.keys().len(),
            forall|i: int| 0 <= i < p ==> text::lex_lt(#[trigger] self.keys()[i], k@),
            forall|i: int| p <= i < self.keys().len() ==> !text::lex_lt(#[trigger] self.keys()[i], k@),
    {
        let mut p: usize = 0;
        while p < self.entries.len() && text::less(self.entries[p].0.as_str(), k)
            invariant
                self.wf(),
                p <= self.keys().len(),
                self.keys().len() == self.entries@.len(),
                forall|i: int| 0 <= i < p ==> text::lex_lt(#[trigger] self.keys()[i], k@),
            decreases self.keys().len() - p,
        {
            assert(self.keys()[p as int] == self.entries@[p as int].0@);
            p = p + 1;
        }
        proof {
            assert forall|i: int| p <= i < self.keys().len() implies !text::lex_lt(
                #[trigger] self.keys()[i],
                k@,
            ) by {
                assert(self.keys()[p as int] == self.entries@[p as int].0@);
                if text::lex_lt(self.keys()[i], k@) && i > p {
                    text::lemma_lex_transitive(self.keys()[p as int], self.keys()[i], k@);
                }
            }
        }
        p
    }

    /// The position of `k`, where it is there.
    pub fn find(&self, k: &str) -> (r: Option<usize>)
        requires
            self.wf(),
        ensures
            match r {
                Some(i) => i < self.keys().len() && self.keys()[i as int] == k@ && self.has(k@)
                    && self@[k@] == self.nth(i as int),
                None => !self.has(k@),
            },
            r is Some <==> self@.dom().contains(k@),
    {
        let p: usize = self.lower_bound(k);
        if p < self.entries.len() && text::same(self.entries[p].0.as_str(), k) {
            proof {
                assert(self.keys()[p as int] == self.entries@[p as int].0@);
                self.lemma_nth(p as int);
            }
            Some(p)
        } else {
            proof {
                assert forall|i: int| 0 <= i < self.keys().len() implies self.keys()[i] != k@ by {
                    text::lemma_lex_irreflexive(k@);
                    if i >= p {
                        assert(self.keys()[p as int] == self.entries@[p as int].0@);
                        if i > p && self.keys()[i] == k@ {
                            assert(text::lex_lt(self.keys()[p as int], self.keys()[i]));
                        }
                    }
                }
            }
            None
        }
    }

    pub fn contains_key(&self, k: &str) -> (r: bool)
        requires
            self.wf(),
        ensures
            r == self@.dom().contains(k@),
    {
        self.find(k).is_some()
    }

    pub fn get(&self, k: &str) -> (r: Option<&V>)
        requires
            self.wf(),
        ensures
            match r {
                Some(v) => self@.dom().contains(k@) && *v == self@[k@],
                None => !self@.dom().contains(k@),
            },
    {
        match self.find(k) {
            Some(i) => Some(&self.entries[i].1),
            None => None,
        }
    }

    /// Sets the value of `k`.
    pub fn insert(&mut self, k: String, v: V)
        requires
            old(self).wf(),
        ensures
            final(self).wf(),
            final(self)@ == old(self)@.insert(k@, v),
    {
        let p: usize = self.lower_bound(k.as_str());
        let ghost before = *self;
        if p < self.entries.len() && text::same(self.entries[p].0.as_str(), k.as_str()) {
            let ghost kept = self.entries@[p as int].0;
            let (old_key, _) = self.entries.remove(p);
            self.entries.insert(p, (old_key, v));
            proof {
                assert(self.keys() =~= before.keys());
                before.lemma_nth(p as int);
                assert(before.keys()[p as int] == k@);
                Self::lemma_replaced(before, *self, p as int, k@, v);
            }
        } else {
            self.entries.insert(p, (k, v));
            proof {
                assert(self.keys() =~= before.keys().insert(p as int, k@));
                Self::lemma_inserted(before, *self, p as int, k@, v);
            }
        }
    }

    proof fn lemma_replaced(before: Self, after: Self, p: int, k: Seq<char>, v: V)
        requires
            before.wf(),
            after.keys() == before.keys(),
            0 <= p < before.keys().len(),
            before.keys()[p] == k,
            after.nth(p) == v,
            forall|i: int| 0 <= i < before.keys().len() && i != p ==> after.nth(i) == before.nth(i),
        ensures
            after@ == before@.insert(k, v),
    {
        before.lemma_nth(p);
        assert forall|q: Seq<char>| before.has(q) && q != k implies after.nth(after.position(q))
            == before.nth(before.position(q)) by {
            let i = before.position(q);
            assert(0 <= i < before.keys().len() && before.keys()[i] == q);
        }
        assert(after@ =~= before@.insert(k, v));
    }

    proof fn lemma_inserted(before: Self, after: Self, p: int, k: Seq<char>, v: V)
        requires
            before.wf(),
            0 <= p <= before.keys().len(),
            forall|i: int| 0 <= i < p ==> text::lex_lt(#[trigger] before.keys()[i], k),
            forall|i: int|
                p <= i < before.keys().len() ==> !text::lex_lt(#[trigger] before.keys()[i], k),
            p < before.keys().len() ==> before.keys()[p] != k,
            after.keys() == before.keys().insert(p, k),
            after.nth(p) == v,
            forall|i: int| 0 <= i < p ==> after.nth(i) == before.nth(i),
            forall|i: int| p <= i < before.keys().len() ==> after.nth(i + 1) == before.nth(i),
        ensures
            after.wf(),
            after@ == before@.insert(k, v),
    {
        let bk = before.keys();
        let ak = after.keys();
        assert forall|i: int| p <= i < bk.len() implies text::lex_lt(k, #[trigger] bk[i]) by {
            text::lemma_lex_total(k, bk[i]);
            if bk[i] == k && i > p {
                assert(text::lex_lt(bk[p], bk[i]));
            }
        }
        assert forall|i: int, j: int| 0 <= i < j < ak.len() implies text::lex_lt(
            #[trigger] ak[i],
            #[trigger] ak[j],
        ) by {
            if i < p && j == p {
                assert(ak[i] == bk[i]);
            } else if i < p && j > p {
                assert(ak[i] == bk[i] && ak[j] == bk[j - 1]);
            } else if i == p {
                assert(ak[j] == bk[j - 1]);
            } else if i > p {
                assert(ak[i] == bk[i - 1] && ak[j] == bk[j - 1]);
            }
        }
        assert(ak[p] == k);
        after.lemma_nth(p);
        assert forall|q: Seq<char>| q != k implies (after.has(q) <==> before.has(q)) && (before.has(
            q,
        ) ==> after.nth(after.position(q)) == before.nth(before.position(q))) by {
            if before.has(q) {
                let i = before.position(q);
                assert(0 <= i < bk.len() && bk[i] == q);
                let j = if i < p { i } else { i + 1 };
                assert(ak[j] == q);
                after.lemma_nth(j);
            }
            if after.has(q) {
                let j = after.position(q);
                assert(0 <= j < ak.len() && ak[j] == q);
                let i = if j < p { j } else { j - 1 };
                assert(bk[i] == q);
            }
        }
        assert(after@ =~= before@.insert(k, v));
    }

    /// Takes `k` out of the map.
    pub fn remove(&mut self, k: &str) -> (r: Option<V>)
        requires
            old(self).wf(),
        ensures
            final(self).wf(),
            final(self)@ == old(self)@.remove(k@),
            match r {
                Some(v) => old(self)@.dom().contains(k@) && v == old(self)@[k@],
                None => !old(self)@.dom().contains(k@),
            },
    {
        let ghost before = *self;
        match self.find(k) {
            Some(p) => {
                let (_, v) = self.entries.remove(p);
                proof {
                    let bk = before.keys();
                    let ak = self.keys();
                    assert(ak =~= bk.remove(p as int));
                    before.lemma_nth(p as int);
                    assert forall|i: int, j: int| 0 <= i < j < ak.len() implies text::lex_lt(
                        #[trigger] ak[i],
                        #[trigger] ak[j],
                    ) by {
                        let x = if i < p { i } else { i + 1 };
                        let y = if j < p { j } else { j + 1 };
                        assert(ak[i] == bk[x] && ak[j] == bk[y]);
                    }
                    assert forall|q: Seq<char>|
                        (#[trigger] self.has(q) <==> before.has(q) && q != k@) && (self.has(q)
                            ==> self.nth(self.position(q)) == before.nth(before.position(q))) by {
                        if self.has(q) {
                            let i = self.position(q);
                            assert(0 <= i < ak.len() && ak[i] == q);
                            let x = if i < p { i } else { i + 1 };
                            assert(bk[x] == q);
                            before.lemma_nth(x);
                            if q == k@ {
                                lemma_increasing_distinct(bk, x, p as int);
                            }
                        }
                        if before.has(q) && q != k@ {
                            let x = before.position(q);
                            assert(0 <= x < bk.len() && bk[x] == q);
                            let i = if x < p { x } else { x - 1 };
                            assert(ak[i] == q);
                        }
                    }
                    assert(self@ =~= before@.remove(k@));
                }
                Some(v)
            },
            None => {
                assert(self@ =~= before@.remove(k@));
                None
            },
        }
    }
}

/// What a map holds determines how it is listed: two maps with the same keys
/// list them in the same order.
pub proof fn law_keys_determine_the_listing<V>(a: StrMap<V>, b: StrMap<V>)
    requires
        a.wf(),
        b.wf(),
        a@.dom() == b@.dom(),
    ensures
        a.keys() == b.keys(),
{
    assert forall|k: Seq<char>| a.keys().contains(k) <==> b.keys().contains(k) by {
        assert(a.has(k) <==> a@.dom().contains(k));
        assert(b.has(k) <==> b@.dom().contains(k));
    }
    lemma_increasing_unique(a.keys(), b.keys());
}

/// A set of keys has one listing in increasing order.
pub proof fn lemma_increasing_unique(a: Seq<Seq<char>>, b: Seq<Seq<char>>)
    requires
        increasing(a),
        increasing(b),
        forall|k: Seq<char>| a.contains(k) <==> b.contains(k),
    ensures
        a == b,
    decreases a.len(),
{
    if a.len() == 0 {
        if b.len() > 0 {
            assert(b.contains(b[0]));
        }
        assert(a =~= b);
    } else {
        assert(a.contains(a[0]));
        assert(b.len() > 0);
        assert(b.contains(b[0]));
        // Both lists start with the least key.
        assert(a[0] == b[0]) by {
            let i = a.index_of(b[0]);
            let j = b.index_of(a[0]);
            assert(a[i] == b[0] && b[j] == a[0]);
            if i > 0 && j > 0 {
                assert(text::lex_lt(a[0], a[i]));
                assert(text::lex_lt(b[0], b[j]));
                text::lemma_lex_asymmetric(a[0], b[0]);
            }
        }
        let x = a.drop_first();
        let y = b.drop_first();
        assert forall|i: int, j: int| 0 <= i < j < x.len() implies text::lex_lt(
            #[trigger] x[i],
            #[trigger] x[j],
        ) by {
            assert(x[i] == a[i + 1] && x[j] == a[j + 1]);
        }
        assert forall|i: int, j: int| 0 <= i < j < y.len() implies text::lex_lt(
            #[trigger] y[i],
            #[trigger] y[j],
        ) by {
            assert(y[i] == b[i + 1] && y[j] == b[j + 1]);
        }
        assert forall|k: Seq<char>| x.contains(k) <==> y.contains(k) by {
            if x.contains(k) {
                let i = x.index_of(k);
                assert(a[i + 1] == k);
                assert(a.contains(k));
                let j = b.index_of(k);
                if j == 0 {
                    lemma_increasing_distinct(a, 0, i + 1);
                }
                assert(y[j - 1] == k);
            }
            if y.contains(k) {
                let i = y.index_of(k);
                assert(b[i + 1] == k);
                assert(b.contains(k));
                let j = a.index_of(k);
                if j == 0 {
                    lemma_increasing_distinct(b, 0, i + 1);
                }
                assert(x[j - 1] == k);
            }
        }
        lemma_increasing_unique(x, y);
        assert(a =~= seq![a[0]] + x);
        assert(b =~= seq![b[0]] + y);
    }
}

} // verus!
