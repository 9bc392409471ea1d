//! Lists of records kept in order of a composite text key, one per key.
use crate::text;
use vstd::prelude::*;

verus! {

/// Lexicographic order on lists of texts.
pub open spec fn list_lt(a: Seq<Seq<char>>, b: Seq<Seq<char>>) -> bool
    decreases a.len(),
{
    if b.len() == 0 {
        false
    } else if a.len() == 0 {
        true
    } else if a[0] != b[0] {
        text::lex_lt(a[0], b[0])
    } else {
        list_lt(a.drop_first(), b.drop_first())
    }
}

pub proof fn lemma_list_irreflexive(a: Seq<Seq<char>>)
    ensures
        !list_lt(a, a),
    decreases a.len(),
{
    if a.len() > 0 {
        lemma_list_irreflexive(a.drop_first());
    }
}

pub proof fn lemma_list_transitive(a: Seq<Seq<char>>, b: Seq<Seq<char>>, c: Seq<Seq<char>>)
    requires
        list_lt(a, b),
        list_lt(b, c),
    ensures
        list_lt(a, c),
    decreases a.len(),
{
    if a.len() > 0 {
        if a[0] == b[0] && b[0] == c[0] {
            lemma_list_transitive(a.drop_first(), b.drop_first(), c.drop_first());
        } else if a[0] != b[0] && b[0] != c[0] {
            text::lemma_lex_transitive(a[0], b[0], c[0]);
            text::lemma_lex_irreflexive(a[0]);
        }
    }
}

pub proof fn lemma_list_total(a: Seq<Seq<char>>, b: Seq<Seq<char>>)
    ensures
        a == b || list_lt(a, b) || list_lt(b, a),
    decreases a.len(),
{
    if a.len() > 0 && b.len() > 0 {
        if a[0] == b[0] {
            lemma_list_total(a.drop_first(), b.drop_first());
            if a.drop_first() == b.drop_first() {
                assert(a =~= seq![a[0]] + a.drop_first());
                assert(b =~= seq![b[0]] + b.drop_first());
            }
        } else {
            text::lemma_lex_total(a[0], b[0]);
        }
    } else if a.len() == 0 && b.len() == 0 {
        assert(a =~= b);
    }
}

/// Records with a composite key.
pub trait Keyed: Sized {
    spec fn key(self) -> Seq<Seq<char>>;

    fn key_before(&self, other: &Self) -> (r: bool)
        ensures
            r == list_lt(self.key(), other.key()),
    ;
}

/// One record per key, in strictly increasing key order.
pub open spec fn in_key_order<T: Keyed>(s: Seq<T>) -> bool {
    forall|i: int, j: int|
        0 <= i < j < s.len() ==> list_lt(#[trigger] s[i].key(), #[trigger] s[j].key())
}

/// Is there a record with this key?
pub open spec fn has_key<T: Keyed>(s: Seq<T>, k: Seq<Seq<char>>) -> bool {
    exists|i: int| 0 <= i < s.len() && #[trigger] s[i].key() == k
}

pub open spec fn key_position<T: Keyed>(s: Seq<T>, k: Seq<Seq<char>>) -> int {
    choose|i: int| 0 <= i < s.len() && #[trigger] s[i].key() == k
}

/// The records by key.
pub open spec fn by_key<T: Keyed>(s: Seq<T>) -> Map<Seq<Seq<char>>, T> {
    Map::new(|k: Seq<Seq<char>>| has_key(s, k), |k: Seq<Seq<char>>| s[key_position(s, k)])
}

/// The records by key, the last of those that share one winning.
pub open spec fn latest<T: Keyed>(s: Seq<T>) -> Map<Seq<Seq<char>>, T>
    decreases s.len(),
{
    if s.len() == 0 {
        Map::empty()
    } else {
        latest(s.drop_last()).insert(s.last().key(), s.last())
    }
}

pub proof fn lemma_position_is<T: Keyed>(s: Seq<T>, i: int)
    requires
        in_key_order(s),
        0 <= i < s.len(),
    ensures
        has_key(s, s[i].key()),
        key_position(s, s[i].key()) == i,
        by_key(s)[s[i].key()] == s[i],
{
    let p = key_position(s, s[i].key());
    assert(s[i].key() == s[i].key());
    assert(0 <= p < s.len() && s[p].key() == s[i].key());
    lemma_list_irreflexive(s[i].key());
}

proof fn lemma_replaced<T: Keyed>(s: Seq<T>, p: int, x: T)
    requires
        in_key_order(s),
        0 <= p < s.len(),
        s[p].key() == x.key(),
    ensures
        in_key_order(s.update(p, x)),
        by_key(s.update(p, x)) == by_key(s).insert(x.key(), x),
{
    let t = s.update(p, x);
    assert forall|i: int| 0 <= i < s.len() implies #[trigger] t[i].key() == s[i].key() by {}
    assert forall|i: int, j: int| 0 <= i < j < t.len() implies list_lt(
        #[trigger] t[i].key(),
        #[trigger] t[j].key(),
    ) by {
        assert(t[i].key() == s[i].key() && t[j].key() == s[j].key());
    }
    lemma_position_is(t, p);
    assert forall|k: Seq<Seq<char>>| k != x.key() implies (has_key(t, k) <==> has_key(s, k)) && (
    has_key(s, k) ==> t[key_position(t, k)] == s[key_position(s, k)]) by {
        if has_key(s, k) {
            let i = key_position(s, k);
            assert(t[i].key() == k);
            lemma_position_is(t, i);
        }
        if has_key(t, k) {
            let i = key_position(t, k);
            assert(s[i].key() == k);
        }
    }
    assert(by_key(t) =~= by_key(s).insert(x.key(), x));
}

proof fn lemma_inserted<T: Keyed>(s: Seq<T>, p: int, x: T)
    requires
        in_key_order(s),
        0 <= p <= s.len(),
        forall|i: int| 0 <= i < p ==> list_lt(#[trigger] s[i].key(), x.key()),
        p < s.len() ==> list_lt(x.key(), s[p].key()),
    ensures
        in_key_order(s.insert(p, x)),
        by_key(s.insert(p, x)) == by_key(s).insert(x.key(), x),
{
    let t = s.insert(p, x);
    assert forall|i: int| p <= i < s.len() implies list_lt(x.key(), #[trigger] s[i].key()) by {
        if i > p {
            lemma_list_transitive(x.key(), s[p].key(), s[i].key());
        }
    }
    assert forall|i: int, j: int| 0 <= i < j < t.len() implies list_lt(
        #[trigger] t[i].key(),
        #[trigger] t[j].key(),
    ) by {
        if i < p && j == p {
            assert(t[i] == s[i]);
        } else if i < p && j > p {
            assert(t[i] == s[i] && t[j] == s[j - 1]);
        } else if i == p {
            assert(t[j] == s[j - 1]);
        } else if i > p {
            assert(t[i] == s[i - 1] && t[j] == s[j - 1]);
        }
    }
    assert(t[p] == x);
    lemma_position_is(t, p);
    assert forall|k: Seq<Seq<char>>| k != x.key() implies (has_key(t, k) <==> has_key(s, k)) && (
    has_key(s, k) ==> t[key_position(t, k)] == s[key_position(s, k)]) by {
        if has_key(s, k) {
            let i = key_position(s, k);
            let j = if i < p { i } else { i + 1 };
            assert(t[j] == s[i]);
            lemma_position_is(t, j);
        }
        if has_key(t, k) {
            let j = key_position(t, k);
            let i = if j < p { j } else { j - 1 };
            assert(s[i] == t[j]);
        }
    }
    assert(by_key(t) =~= by_key(s).insert(x.key(), x));
}

/// Puts `x` into the list, in place of the record with its key if there is one.
pub fn upsert<T: Keyed>(list: &mut Vec<T>, x: T)
    requires
        in_key_order(old(list)@),
    ensures
        in_key_order(final(list)@),
        by_key(final(list)@) == by_key(old(list)@).insert(x.key(), x),
{
    let ghost before = list@;
    let mut p: usize = 0;
    while p < list.len() && list[p].key_before(&x)
        invariant
            list@ == before,
            p <= before.len(),
            forall|i: int| 0 <= i < p ==> list_lt(#[trigger] before[i].key(), x.key()),
        decreases before.len() - p,
    {
        p = p + 1;
    }
    if p < list.len() && !x.key_before(&list[p]) {
        proof {
            lemma_list_total(before[p as int].key(), x.key());
            lemma_replaced(before, p as int, x);
        }
        list.remove(p);
        list.insert(p, x);
        assert(list@ =~= before.update(p as int, x));
    } else {
        proof {
            lemma_inserted(before, p as int, x);
        }
        list.insert(p, x);
    }
}

/// Lists in key order with the same keys list them alike.
pub proof fn lemma_same_keys<T: Keyed, U: Keyed>(a: Seq<T>, b: Seq<U>)
    requires
        in_key_order(a),
        in_key_order(b),
        forall|k: Seq<Seq<char>>| has_key(a, k) <==> has_key(b, k),
    ensures
        a.len() == b.len(),
        forall|i: int| 0 <= i < a.len() ==> #[trigger] a[i].key() == b[i].key(),
    decreases a.len(),
{
    if a.len() == 0 {
        if b.len() > 0 {
            assert(has_key(b, b[0].key()));
        }
    } else {
        assert(a[0].key() == a[0].key());
        assert(has_key(a, a[0].key()));
        assert(b.len() > 0);
        assert(b[0].key() == b[0].key());
        assert(has_key(b, b[0].key()));
        assert(a[0].key() == b[0].key()) by {
            let i = key_position(a, b[0].key());
            let j = key_position(b, a[0].key());
            assert(a[i].key() == b[0].key() && b[j].key() == a[0].key());
            if i > 0 && j > 0 {
                assert(list_lt(a[0].key(), a[i].key()));
                assert(list_lt(b[0].key(), b[j].key()));
                lemma_list_transitive(a[0].key(), b[0].key(), a[0].key());
                lemma_list_irreflexive(a[0].key());
            }
        }
        let x = a.drop_first();
        let y = b.drop_first();
        assert forall|i: int, j: int| 0 <= i < j < x.len() implies list_lt(
            #[trigger] x[i].key(),
            #[trigger] x[j].key(),
        ) by {
            assert(x[i] == a[i + 1] && x[j] == a[j + 1]);
        }
        assert forall|i: int, j: int| 0 <= i < j < y.len() implies list_lt(
            #[trigger] y[i].key(),
            #[trigger] y[j].key(),
        ) by {
            assert(y[i] == b[i + 1] && y[j] == b[j + 1]);
        }
        assert forall|k: Seq<Seq<char>>| has_key(x, k) <==> has_key(y, k) by {
            lemma_list_irreflexive(k);
            if has_key(x, k) {
                let i = key_position(x, k);
                assert(a[i + 1].key() == k);
                assert(has_key(a, k));
                let j = key_position(b, k);
                assert(list_lt(a[0].key(), a[i + 1].key()));
                assert(y[j - 1].key() == k);
            }
            if has_key(y, k) {
                let i = key_position(y, k);
                assert(b[i + 1].key() == k);
                assert(has_key(b, k));
                let j = key_position(a, k);
                assert(list_lt(b[0].key(), b[i + 1].key()));
                assert(x[j - 1].key() == k);
            }
        }
        lemma_same_keys(x, y);
        assert forall|i: int| 0 <= i < a.len() implies #[trigger] a[i].key() == b[i].key() by {
            if i > 0 {
                assert(x[i - 1].key() == y[i - 1].key());
            }
        }
    }
}

} // verus!
