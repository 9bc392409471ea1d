//! Text as sequences of characters: searching, splitting, trimming, ordering
//! and number formatting, on `&str` and `String`.
use vstd::prelude::*;
use vstd::utf8::*;

verus! {

// ---------------------------------------------------------------------------
// Characters
// ---------------------------------------------------------------------------

/// `String::from_iter`: collecting characters gives the string that holds
/// exactly those characters, in that order.
#[verifier::external_body]
pub(crate) fn string_of(chars: Vec<char>) -> (s: String)
    ensures
        s@ == chars@,
{
    String::from_iter(chars)
}

/// The characters of `s`, in order.
pub fn chars_of(s: &str) -> (v: Vec<char>)
    ensures
        v@ == s@,
{
    let mut v: Vec<char> = Vec::new();
    for c in it: s.chars()
        invariant
            it.seq() == s@,
            v@ == s@.take(it.index()),
    {
        v.push(c);
        assert(s@.take(it.index() + 1) =~= s@.take(it.index()).push(c));
    }
    assert(s@.take(s@.len() as int) =~= s@);
    v
}

/// The characters of `v` from `from` up to `to`, as a string.
pub fn slice(v: &Vec<char>, from: usize, to: usize) -> (s: String)
    requires
        from <= to <= v@.len(),
    ensures
        s@ == v@.subrange(from as int, to as int),
{
    let mut out: Vec<char> = Vec::new();
    let mut i: usize = from;
    while i < to
        invariant
            from <= i <= to <= v@.len(),
            out@ == v@.subrange(from as int, i as int),
        decreases to - i,
    {
        out.push(v[i]);
        assert(v@.subrange(from as int, i + 1) =~= v@.subrange(from as int, i as int).push(v@[i as int]));
        i = i + 1;
    }
    string_of(out)
}

/// Are the two texts the same?
pub fn same(a: &str, b: &str) -> (r: bool)
    ensures
        r == (a@ == b@),
{
    let x: Vec<char> = chars_of(a);
    let y: Vec<char> = chars_of(b);
    if x.len() != y.len() {
        return false;
    }
    let mut i: usize = 0;
    while i < x.len()
        invariant
            x@ == a@,
            y@ == b@,
            i <= x@.len() == y@.len(),
            forall|j: int| 0 <= j < i ==> x@[j] == y@[j],
        decreases x@.len() - i,
    {
        if x[i] != y[i] {
            assert(x@[i as int] != y@[i as int]);
            return false;
        }
        i = i + 1;
    }
    assert(x@ =~= y@);
    true
}

// ---------------------------------------------------------------------------
// Order
// ---------------------------------------------------------------------------

/// Lexicographic order by code point.
pub open spec fn lex_lt(a: Seq<char>, b: Seq<char>) -> bool
    decreases a.len(),
{
    if b.len() == 0 {
        false
    } else if a.len() == 0 {
        true
    } else if a[0] != b[0] {
        (a[0] as int) < (b[0] as int)
    } else {
        lex_lt(a.drop_first(), b.drop_first())
    }
}

pub proof fn lemma_lex_irreflexive(a: Seq<char>)
    ensures
        !lex_lt(a, a),
    decreases a.len(),
{
    if a.len() > 0 {
        lemma_lex_irreflexive(a.drop_first());
    }
}

pub proof fn lemma_lex_transitive(a: Seq<char>, b: Seq<char>, c: Seq<char>)
    requires
        lex_lt(a, b),
        lex_lt(b, c),
    ensures
        lex_lt(a, c),
    decreases a.len(),
{
    if a.len() > 0 && a[0] == b[0] && b[0] == c[0] {
        lemma_lex_transitive(a.drop_first(), b.drop_first(), c.drop_first());
    }
}

pub proof fn lemma_lex_total(a: Seq<char>, b: Seq<char>)
    ensures
        a == b || lex_lt(a, b) || lex_lt(b, a),
    decreases a.len(),
{
    if a.len() > 0 && b.len() > 0 && a[0] == b[0] {
        lemma_lex_total(a.drop_first(), b.drop_first());
        if a.drop_first() == b.drop_first() {
            assert(a =~= seq![a[0]] + a.drop_first());
            assert(b =~= seq![b[0]] + b.drop_first());
        }
    } else if a.len() == 0 && b.len() == 0 {
        assert(a =~= b);
    } else if a.len() > 0 && b.len() > 0 {
        assert(a[0] as int != b[0] as int);
    }
}

pub proof fn lemma_lex_asymmetric(a: Seq<char>, b: Seq<char>)
    requires
        lex_lt(a, b),
    ensures
        !lex_lt(b, a),
        a != b,
{
    if lex_lt(b, a) {
        lemma_lex_transitive(a, b, a);
    }
    lemma_lex_irreflexive(a);
}

/// The code point of `c`.
pub fn code(c: char) -> (n: u32)
    ensures
        n == c as int,
{
    c as u32
}

/// Does `a` come before `b`?
pub fn less(a: &str, b: &str) -> (r: bool)
    ensures
        r == lex_lt(a@, b@),
{
    let x: Vec<char> = chars_of(a);
    let y: Vec<char> = chars_of(b);
    let mut i: usize = 0;
    proof {
        assert(a@.skip(0) =~= a@);
        assert(b@.skip(0) =~= b@);
    }
    while i < x.len() && i < y.len()
        invariant
            i <= x@.len(),
            i <= y@.len(),
            x@ == a@,
            y@ == b@,
            lex_lt(a@, b@) == lex_lt(a@.skip(i as int), b@.skip(i as int)),
        decreases x@.len() - i,
    {
        if x[i] != y[i] {
            return code(x[i]) < code(y[i]);
        }
        proof {
            assert(a@.skip(i as int).drop_first() =~= a@.skip(i + 1));
            assert(b@.skip(i as int).drop_first() =~= b@.skip(i + 1));
        }
        i = i + 1;
    }
    i < y.len()
}

// ---------------------------------------------------------------------------
// Prefixes and suffixes
// ---------------------------------------------------------------------------

pub open spec fn has_prefix(s: Seq<char>, p: Seq<char>) -> bool {
    p.len() <= s.len() && s.take(p.len() as int) == p
}

pub open spec fn has_suffix(s: Seq<char>, p: Seq<char>) -> bool {
    p.len() <= s.len() && s.skip(s.len() - p.len()) == p
}

/// Does `v` hold `p` from position `at` on?
fn matches_at(v: &Vec<char>, p: &Vec<char>, at: usize) -> (r: bool)
    requires
        at <= v@.len(),
    ensures
        r == has_prefix(v@.skip(at as int), p@),
{
    let n: usize = v.len();
    if n - at < p.len() {
        return false;
    }
    let mut i: usize = 0;
    while i < p.len()
        invariant
            n == v@.len(),
            at + p@.len() <= n,
            i <= p@.len(),
            forall|j: int| 0 <= j < i ==> v@[at + j] == p@[j],
        decreases p@.len() - i,
    {
        if v[at + i] != p[i] {
            assert(v@.skip(at as int).take(p@.len() as int)[i as int] != p@[i as int]);
            return false;
        }
        i = i + 1;
    }
    assert(v@.skip(at as int).take(p@.len() as int) =~= p@);
    true
}

pub fn starts_with(s: &str, p: &str) -> (r: bool)
    ensures
        r == has_prefix(s@, p@),
{
    assert(s@.skip(0) =~= s@);
    matches_at(&chars_of(s), &chars_of(p), 0)
}

pub fn ends_with(s: &str, p: &str) -> (r: bool)
    ensures
        r == has_suffix(s@, p@),
{
    let v: Vec<char> = chars_of(s);
    let w: Vec<char> = chars_of(p);
    if v.len() < w.len() {
        return false;
    }
    let at: usize = v.len() - w.len();
    assert(s@.skip(at as int).take(p@.len() as int) =~= s@.skip(at as int));
    matches_at(&v, &w, at)
}

/// What follows the prefix `p`, where `s` starts with it.
pub fn strip_prefix(s: &str, p: &str) -> (r: Option<String>)
    ensures
        match r {
            Some(t) => has_prefix(s@, p@) && t@ == s@.skip(p@.len() as int),
            None => !has_prefix(s@, p@),
        },
{
    let v: Vec<char> = chars_of(s);
    let w: Vec<char> = chars_of(p);
    assert(s@.skip(0) =~= s@);
    if matches_at(&v, &w, 0) {
        assert(s@.subrange(p@.len() as int, s@.len() as int) =~= s@.skip(p@.len() as int));
        Some(slice(&v, w.len(), v.len()))
    } else {
        None
    }
}

/// What precedes the suffix `p`, where `s` ends with it.
pub fn strip_suffix(s: &str, p: &str) -> (r: Option<String>)
    ensures
        match r {
            Some(t) => has_suffix(s@, p@) && t@ == s@.take(s@.len() - p@.len()),
            None => !has_suffix(s@, p@),
        },
{
    if ends_with(s, p) {
        let v: Vec<char> = chars_of(s);
        let w: Vec<char> = chars_of(p);
        assert(s@.subrange(0, s@.len() - p@.len()) =~= s@.take(s@.len() - p@.len()));
        Some(slice(&v, 0, v.len() - w.len()))
    } else {
        None
    }
}

// ---------------------------------------------------------------------------
// Runs, trimming and whitespace
// ---------------------------------------------------------------------------

/// Length of the longest prefix whose characters all satisfy `f`.
pub open spec fn span(s: Seq<char>, f: spec_fn(char) -> bool) -> nat
    decreases s.len(),
{
    if s.len() == 0 || !f(s[0]) {
        0
    } else {
        1 + span(s.drop_first(), f)
    }
}

/// Length of the longest suffix whose characters all satisfy `f`.
pub open spec fn span_back(s: Seq<char>, f: spec_fn(char) -> bool) -> nat
    decreases s.len(),
{
    if s.len() == 0 || !f(s.last()) {
        0
    } else {
        1 + span_back(s.drop_last(), f)
    }
}

pub proof fn lemma_span_is(s: Seq<char>, f: spec_fn(char) -> bool, k: nat)
    requires
        k <= s.len(),
        forall|j: int| 0 <= j < k ==> f(#[trigger] s[j]),
        k == s.len() || !f(s[k as int]),
    ensures
        span(s, f) == k,
    decreases s.len(),
{
    if k > 0 {
        assert(f(s[0]));
        assert forall|j: int| 0 <= j < k - 1 implies f(#[trigger] s.drop_first()[j]) by {
            assert(s.drop_first()[j] == s[j + 1]);
        }
        lemma_span_is(s.drop_first(), f, (k - 1) as nat);
    }
}

pub proof fn lemma_span_props(s: Seq<char>, f: spec_fn(char) -> bool)
    ensures
        span(s, f) <= s.len(),
        forall|j: int| 0 <= j < span(s, f) ==> f(#[trigger] s[j]),
        span(s, f) < s.len() ==> !f(s[span(s, f) as int]),
    decreases s.len(),
{
    if s.len() > 0 && f(s[0]) {
        let t = s.drop_first();
        lemma_span_props(t, f);
        assert forall|j: int| 0 <= j < span(s, f) implies f(#[trigger] s[j]) by {
            if j > 0 {
                assert(t[j - 1] == s[j]);
            }
        }
        if span(s, f) < s.len() {
            assert(t[span(t, f) as int] == s[span(s, f) as int]);
        }
    }
}

pub proof fn lemma_span_back_is(s: Seq<char>, f: spec_fn(char) -> bool, k: nat)
    requires
        k <= s.len(),
        forall|j: int| s.len() - k <= j < s.len() ==> f(#[trigger] s[j]),
        k == s.len() || !f(s[s.len() - k - 1]),
    ensures
        span_back(s, f) == k,
    decreases s.len(),
{
    if k > 0 {
        assert(f(s[s.len() - 1]));
        assert forall|j: int| s.drop_last().len() - (k - 1) <= j < s.drop_last().len() implies f(
            #[trigger] s.drop_last()[j],
        ) by {
            assert(s.drop_last()[j] == s[j]);
        }
        lemma_span_back_is(s.drop_last(), f, (k - 1) as nat);
    }
}

/// Characters with the Unicode `White_Space` property.
pub open spec fn white(c: char) -> bool {
    let n = c as int;
    ||| 0x9 <= n <= 0xd
    ||| n == 0x20
    ||| n == 0x85
    ||| n == 0xa0
    ||| n == 0x1680
    ||| 0x2000 <= n <= 0x200a
    ||| n == 0x2028
    ||| n == 0x2029
    ||| n == 0x202f
    ||| n == 0x205f
    ||| n == 0x3000
}

pub open spec fn whites() -> spec_fn(char) -> bool {
    |c: char| white(c)
}

pub open spec fn not_whites() -> spec_fn(char) -> bool {
    |c: char| !white(c)
}

/// Everything but the character `c`.
pub open spec fn except(c: char) -> spec_fn(char) -> bool {
    |x: char| x != c
}

/// Only the character `c`.
pub open spec fn only(c: char) -> spec_fn(char) -> bool {
    |x: char| x == c
}

fn is_white(c: char) -> (r: bool)
    ensures
        r == white(c),
{
    let n: u32 = c as u32;
    (0x9 <= n && n <= 0xd) || n == 0x20 || n == 0x85 || n == 0xa0 || n == 0x1680 || (0x2000 <= n
        && n <= 0x200a) || n == 0x2028 || n == 0x2029 || n == 0x202f || n == 0x205f || n == 0x3000
}

/// Position of the first `c` from `from` on, or the length.
fn index_from(v: &Vec<char>, c: char, from: usize) -> (i: usize)
    requires
        from <= v@.len(),
    ensures
        from <= i <= v@.len(),
        i - from == span(v@.skip(from as int), except(c)),
        forall|j: int| from <= j < i ==> v@[j] != c,
        i < v@.len() ==> v@[i as int] == c,
{
    let mut i: usize = from;
    while i < v.len() && v[i] != c
        invariant
            from <= i <= v@.len(),
            forall|j: int| from <= j < i ==> v@[j] != c,
        decreases v@.len() - i,
    {
        i = i + 1;
    }
    proof {
        let t = v@.skip(from as int);
        assert forall|j: int| 0 <= j < i - from implies except(c)(#[trigger] t[j]) by {
            assert(t[j] == v@[from + j]);
        }
        if i < v@.len() {
            assert(t[i - from] == v@[i as int]);
        }
        lemma_span_is(t, except(c), (i - from) as nat);
    }
    i
}

/// `s` without leading whitespace.
pub open spec fn trim_start_spec(s: Seq<char>) -> Seq<char> {
    s.skip(span(s, whites()) as int)
}

/// `s` without trailing whitespace.
pub open spec fn trim_end_spec(s: Seq<char>) -> Seq<char> {
    s.take(s.len() - span_back(s, whites()))
}

/// The characters of `s` without trailing whitespace.
pub fn trim_end(s: &str) -> (r: Vec<char>)
    ensures
        r@ == trim_end_spec(s@),
{
    let mut v: Vec<char> = chars_of(s);
    let ghost all = v@;
    let mut b: usize = v.len();
    while b > 0 && is_white(v[b - 1])
        invariant
            b <= v@.len(),
            v@ == all,
            forall|j: int| b <= j < all.len() ==> white(#[trigger] all[j]),
        decreases b,
    {
        b = b - 1;
    }
    proof {
        assert forall|j: int| all.len() - (all.len() - b) <= j < all.len() implies whites()(
            #[trigger] all[j],
        ) by {}
        lemma_span_back_is(all, whites(), (all.len() - b) as nat);
    }
    v.truncate(b);
    v
}

/// `s` without leading and trailing whitespace.
pub open spec fn trim_spec(s: Seq<char>) -> Seq<char> {
    let t = trim_start_spec(s);
    t.take(t.len() - span_back(t, whites()))
}

pub fn trim(s: &str) -> (r: String)
    ensures
        r@ == trim_spec(s@),
{
    let v: Vec<char> = chars_of(s);
    let mut a: usize = 0;
    while a < v.len() && is_white(v[a])
        invariant
            a <= v@.len(),
            forall|j: int| 0 <= j < a ==> white(#[trigger] v@[j]),
        decreases v@.len() - a,
    {
        a = a + 1;
    }
    proof {
        lemma_span_is(v@, whites(), a as nat);
    }
    let mut b: usize = v.len();
    while b > a && is_white(v[b - 1])
        invariant
            a <= b <= v@.len(),
            forall|j: int| b <= j < v@.len() ==> white(#[trigger] v@[j]),
        decreases b,
    {
        b = b - 1;
    }
    proof {
        let t = v@.skip(a as int);
        assert forall|j: int| t.len() - (v@.len() - b) <= j < t.len() implies whites()(
            #[trigger] t[j],
        ) by {
            assert(t[j] == v@[a + j]);
        }
        if b > a {
            assert(t[b - a - 1] == v@[b - 1]);
        }
        lemma_span_back_is(t, whites(), (v@.len() - b) as nat);
        assert(t.take(b - a) =~= v@.subrange(a as int, b as int));
    }
    slice(&v, a, b)
}

/// `s` without its leading `c`s.
pub fn trim_start_char(s: &str, c: char) -> (r: String)
    ensures
        r@ == s@.skip(span(s@, only(c)) as int),
{
    let v: Vec<char> = chars_of(s);
    let mut a: usize = 0;
    while a < v.len() && v[a] == c
        invariant
            a <= v@.len(),
            forall|j: int| 0 <= j < a ==> #[trigger] v@[j] == c,
        decreases v@.len() - a,
    {
        a = a + 1;
    }
    proof {
        lemma_span_is(v@, only(c), a as nat);
        assert(v@.subrange(a as int, v@.len() as int) =~= v@.skip(a as int));
    }
    slice(&v, a, v.len())
}

/// The maximal runs of non-whitespace characters, in order.
pub open spec fn words(s: Seq<char>) -> Seq<Seq<char>>
    decreases s.len(),
{
    let t = trim_start_spec(s);
    let n = span(t, not_whites());
    if n == 0 || t.len() > s.len() || n > t.len() {
        Seq::empty()
    } else {
        seq![t.take(n as int)] + words(t.skip(n as int))
    }
}

pub fn split_whitespace(s: &str) -> (r: Vec<String>)
    ensures
        views(r@) == words(s@),
{
    let v: Vec<char> = chars_of(s);
    let mut out: Vec<String> = Vec::new();
    let mut i: usize = 0;
    proof {
        assert(v@.skip(0) =~= v@);
        assert(views(out@) + words(v@) =~= words(v@));
    }
    while i < v.len()
        invariant
            v@ == s@,
            i <= v@.len(),
            views(out@) + words(v@.skip(i as int)) == words(s@),
        decreases v@.len() - i,
    {
        let ghost u = v@.skip(i as int);
        let start: usize = i;
        let mut a: usize = i;
        while a < v.len() && is_white(v[a])
            invariant
                start <= a <= v@.len(),
                forall|j: int| start <= j < a ==> white(#[trigger] v@[j]),
            decreases v@.len() - a,
        {
            a = a + 1;
        }
        let mut b: usize = a;
        while b < v.len() && !is_white(v[b])
            invariant
                a <= b <= v@.len(),
                forall|j: int| a <= j < b ==> !white(#[trigger] v@[j]),
            decreases v@.len() - b,
        {
            b = b + 1;
        }
        proof {
            assert forall|j: int| 0 <= j < a - start implies whites()(#[trigger] u[j]) by {
                assert(u[j] == v@[start + j]);
            }
            if a < v@.len() {
                assert(u[a - start] == v@[a as int]);
            }
            lemma_span_is(u, whites(), (a - start) as nat);
            let t = u.skip(a - start);
            assert(t =~= v@.skip(a as int));
            assert forall|j: int| 0 <= j < b - a implies not_whites()(#[trigger] t[j]) by {
                assert(t[j] == v@[a + j]);
            }
            if b < v@.len() {
                assert(t[b - a] == v@[b as int]);
            }
            lemma_span_is(t, not_whites(), (b - a) as nat);
            assert(t.take(b - a) =~= v@.subrange(a as int, b as int));
            assert(t.skip(b - a) =~= v@.skip(b as int));
        }
        if a == b {
            proof {
                assert(words(u) =~= Seq::empty());
                assert(views(out@) + words(u) =~= views(out@));
            }
            return out;
        }
        let ghost before = out@;
        out.push(slice(&v, a, b));
        proof {
            lemma_views_push(before, out@.last());
            assert(views(out@) + words(v@.skip(b as int)) =~= views(before) + (seq![
                v@.subrange(a as int, b as int),
            ] + words(v@.skip(b as int))));
        }
        i = b;
    }
    proof {
        let u = v@.skip(i as int);
        assert(u =~= Seq::empty());
        assert(trim_start_spec(u) =~= Seq::empty());
        assert(words(u) =~= Seq::empty());
        assert(views(out@) + words(u) =~= views(out@));
    }
    out
}

// ---------------------------------------------------------------------------
// Lists of strings
// ---------------------------------------------------------------------------

/// The texts of a list of strings.
pub open spec fn views(s: Seq<String>) -> Seq<Seq<char>> {
    s.map_values(|x: String| x@)
}

pub proof fn lemma_views_push(s: Seq<String>, x: String)
    ensures
        views(s.push(x)) == views(s).push(x@),
{
    assert(views(s.push(x)) =~= views(s).push(x@));
}

/// The texts of `parts` with `sep` between them.
pub open spec fn join_spec(parts: Seq<Seq<char>>, sep: Seq<char>) -> Seq<char>
    decreases parts.len(),
{
    if parts.len() == 0 {
        Seq::empty()
    } else if parts.len() == 1 {
        parts[0]
    } else {
        join_spec(parts.drop_last(), sep) + sep + parts.last()
    }
}

pub fn join(parts: &Vec<String>, sep: &str) -> (r: String)
    ensures
        r@ == join_spec(views(parts@), sep@),
{
    let mut out: String = String::new();
    let mut i: usize = 0;
    let ghost all = views(parts@);
    while i < parts.len()
        invariant
            all == views(parts@),
            i <= parts@.len(),
            out@ == join_spec(all.take(i as int), sep@),
        decreases parts@.len() - i,
    {
        proof {
            assert(all.take(i + 1).drop_last() =~= all.take(i as int));
            assert(all.take(i + 1).last() == parts@[i as int]@);
        }
        if i > 0 {
            out.append(sep);
        }
        out.append(parts[i].as_str());
        proof {
            if i == 0 {
                assert(out@ =~= parts@[0]@);
            }
        }
        i = i + 1;
    }
    assert(all.take(parts@.len() as int) =~= all);
    out
}

/// A copy of a list of strings.
pub fn copy_list(list: &Vec<String>) -> (r: Vec<String>)
    ensures
        r@ == list@,
{
    let mut out: Vec<String> = Vec::new();
    let mut i: usize = 0;
    while i < list.len()
        invariant
            i <= list@.len(),
            out@ == list@.take(i as int),
        decreases list@.len() - i,
    {
        out.push(list[i].clone());
        assert(list@.take(i + 1) =~= list@.take(i as int).push(list@[i as int]));
        i = i + 1;
    }
    assert(list@.take(list@.len() as int) =~= list@);
    out
}

/// Is `s` one of the texts of `list`?
pub fn contains(list: &Vec<String>, s: &str) -> (r: bool)
    ensures
        r == views(list@).contains(s@),
{
    let mut i: usize = 0;
    while i < list.len()
        invariant
            i <= list@.len(),
            forall|j: int| 0 <= j < i ==> list@[j]@ != s@,
        decreases list@.len() - i,
    {
        if same(list[i].as_str(), s) {
            assert(views(list@)[i as int] == s@);
            return true;
        }
        i = i + 1;
    }
    assert forall|j: int| 0 <= j < views(list@).len() implies views(list@)[j] != s@ by {
        assert(views(list@)[j] == list@[j]@);
    }
    false
}

/// Position of the first `x` in the list, or its length.
pub open spec fn position(list: Seq<Seq<char>>, x: Seq<char>) -> nat
    decreases list.len(),
{
    if list.len() == 0 {
        0
    } else if list[0] == x {
        0
    } else {
        1 + position(list.drop_first(), x)
    }
}

pub proof fn lemma_position_bound(list: Seq<Seq<char>>, x: Seq<char>)
    ensures
        position(list, x) <= list.len(),
    decreases list.len(),
{
    if list.len() > 0 {
        lemma_position_bound(list.drop_first(), x);
    }
}

/// Position of the first `x` in the list, or its length.
pub fn position_of(list: &Vec<String>, x: &str) -> (r: usize)
    ensures
        r == position(views(list@), x@),
        r <= list@.len(),
{
    let ghost all = views(list@);
    let mut i: usize = 0;
    proof {
        assert(all.skip(0) =~= all);
    }
    while i < list.len()
        invariant
            all == views(list@),
            i <= list@.len(),
            position(all, x@) == i + position(all.skip(i as int), x@),
        decreases list@.len() - i,
    {
        assert(all.skip(i as int)[0] == list@[i as int]@);
        if same(list[i].as_str(), x) {
            return i;
        }
        proof {
            assert(all.skip(i as int).drop_first() =~= all.skip(i + 1));
        }
        i = i + 1;
    }
    proof {
        assert(all.skip(i as int) =~= Seq::empty());
    }
    i
}

// ---------------------------------------------------------------------------
// Splitting
// ---------------------------------------------------------------------------

/// The pieces of `s` between the `c`s.
pub open spec fn split_spec(s: Seq<char>, c: char) -> Seq<Seq<char>>
    decreases s.len(),
{
    let n = span(s, except(c));
    if n >= s.len() {
        seq![s]
    } else {
        seq![s.take(n as int)] + split_spec(s.skip(n as int + 1), c)
    }
}

pub fn split(s: &str, c: char) -> (r: Vec<String>)
    ensures
        views(r@) == split_spec(s@, c),
        r@.len() >= 1,
{
    let v: Vec<char> = chars_of(s);
    let mut out: Vec<String> = Vec::new();
    let mut i: usize = 0;
    proof {
        assert(v@.skip(0) =~= v@);
        assert(views(out@) + split_spec(s@, c) =~= split_spec(s@, c));
    }
    loop
        invariant
            v@ == s@,
            i <= v@.len(),
            views(out@) + split_spec(v@.skip(i as int), c) == split_spec(s@, c),
        decreases v@.len() - i,
    {
        let e: usize = index_from(&v, c, i);
        let ghost before = out@;
        let ghost u = v@.skip(i as int);
        out.push(slice(&v, i, e));
        proof {
            lemma_views_push(before, out@.last());
            assert(u.take(e - i) =~= v@.subrange(i as int, e as int));
        }
        if e >= v.len() {
            proof {
                assert(u =~= v@.subrange(i as int, e as int));
                assert(views(out@) =~= views(before) + seq![u]);
            }
            return out;
        }
        proof {
            let rest = v@.skip(e + 1);
            assert(u.skip(e - i + 1) =~= rest);
            assert(views(out@) + split_spec(rest, c) =~= views(before) + (seq![
                u.take(e - i),
            ] + split_spec(rest, c)));
        }
        i = e + 1;
    }
}

/// `s` before and after its first `c`.
pub open spec fn split_once_spec(s: Seq<char>, c: char) -> Option<(Seq<char>, Seq<char>)> {
    let n = span(s, except(c));
    if n >= s.len() {
        None
    } else {
        Some((s.take(n as int), s.skip(n as int + 1)))
    }
}

pub fn split_once(s: &str, c: char) -> (r: Option<(String, String)>)
    ensures
        match r {
            Some((a, b)) => split_once_spec(s@, c) == Some((a@, b@)),
            None => split_once_spec(s@, c) is None,
        },
{
    let v: Vec<char> = chars_of(s);
    assert(v@.skip(0) =~= v@);
    let e: usize = index_from(&v, c, 0);
    if e >= v.len() {
        None
    } else {
        proof {
            assert(v@.subrange(0, e as int) =~= v@.take(e as int));
            assert(v@.subrange(e + 1, v@.len() as int) =~= v@.skip(e + 1));
        }
        Some((slice(&v, 0, e), slice(&v, e + 1, v.len())))
    }
}

/// `s` before and after its last `c`.
pub open spec fn rsplit_once_spec(s: Seq<char>, c: char) -> Option<(Seq<char>, Seq<char>)> {
    let n = span_back(s, except(c));
    if n >= s.len() {
        None
    } else {
        Some((s.take(s.len() - n - 1), s.skip(s.len() - n)))
    }
}

pub fn rsplit_once(s: &str, c: char) -> (r: Option<(String, String)>)
    ensures
        match r {
            Some((a, b)) => rsplit_once_spec(s@, c) == Some((a@, b@)),
            None => rsplit_once_spec(s@, c) is None,
        },
{
    let v: Vec<char> = chars_of(s);
    let mut e: usize = v.len();
    while e > 0 && v[e - 1] != c
        invariant
            e <= v@.len(),
            forall|j: int| e <= j < v@.len() ==> #[trigger] v@[j] != c,
        decreases e,
    {
        e = e - 1;
    }
    proof {
        lemma_span_back_is(v@, except(c), (v@.len() - e) as nat);
    }
    if e == 0 {
        None
    } else {
        proof {
            assert(v@.subrange(0, e - 1) =~= v@.take(e - 1));
            assert(v@.subrange(e as int, v@.len() as int) =~= v@.skip(e as int));
        }
        Some((slice(&v, 0, e - 1), slice(&v, e, v.len())))
    }
}

/// Position of the first occurrence of `p` in `s`.
pub open spec fn find_spec(s: Seq<char>, p: Seq<char>) -> Option<nat>
    decreases s.len(),
{
    if has_prefix(s, p) {
        Some(0)
    } else if s.len() == 0 {
        None
    } else {
        match find_spec(s.drop_first(), p) {
            Some(n) => Some(n + 1),
            None => None,
        }
    }
}

pub proof fn lemma_find_bound(s: Seq<char>, p: Seq<char>)
    ensures
        match find_spec(s, p) {
            Some(n) => n + p.len() <= s.len() && has_prefix(s.skip(n as int), p),
            None => true,
        },
    decreases s.len(),
{
    if has_prefix(s, p) {
        assert(s.skip(0) =~= s);
    } else if s.len() > 0 {
        lemma_find_bound(s.drop_first(), p);
        match find_spec(s.drop_first(), p) {
            Some(n) => {
                assert(s.drop_first().skip(n as int) =~= s.skip(n as int + 1));
            },
            None => {},
        }
    }
}

/// Position of the first `p` in `v` from `from` on, counted from `from`.
pub fn find_from(v: &Vec<char>, p: &Vec<char>, from: usize) -> (r: Option<usize>)
    requires
        from <= v@.len(),
    ensures
        match r {
            Some(n) => find_spec(v@.skip(from as int), p@) == Some(n as nat) && from + n + p@.len()
                <= v@.len(),
            None => find_spec(v@.skip(from as int), p@) is None,
        },
{
    let ghost u = v@.skip(from as int);
    let mut i: usize = from;
    proof {
        assert(u.skip(0) =~= u);
    }
    loop
        invariant
            from <= i <= v@.len(),
            u == v@.skip(from as int),
            match find_spec(v@.skip(i as int), p@) {
                Some(n) => find_spec(u, p@) == Some((n + (i - from)) as nat),
                None => find_spec(u, p@) is None,
            },
        decreases v@.len() - i,
    {
        if matches_at(v, p, i) {
            proof {
                lemma_find_bound(v@.skip(i as int), p@);
            }
            return Some(i - from);
        }
        if i == v.len() {
            return None;
        }
        proof {
            assert(v@.skip(i as int).drop_first() =~= v@.skip(i + 1));
        }
        i = i + 1;
    }
}

/// The pieces of `s` between the occurrences of `p`.
pub open spec fn split_str_spec(s: Seq<char>, p: Seq<char>) -> Seq<Seq<char>>
    decreases s.len(),
{
    match find_spec(s, p) {
        Some(n) => if p.len() == 0 || n + p.len() > s.len() {
            seq![s]
        } else {
            seq![s.take(n as int)] + split_str_spec(s.skip(n as int + p.len()), p)
        },
        None => seq![s],
    }
}

pub fn split_str(s: &str, p: &str) -> (r: Vec<String>)
    requires
        p@.len() > 0,
    ensures
        views(r@) == split_str_spec(s@, p@),
        r@.len() >= 1,
{
    let v: Vec<char> = chars_of(s);
    let w: Vec<char> = chars_of(p);
    let mut out: Vec<String> = Vec::new();
    let mut i: usize = 0;
    proof {
        assert(v@.skip(0) =~= v@);
        assert(views(out@) + split_str_spec(s@, p@) =~= split_str_spec(s@, p@));
    }
    let total: usize = v.len();
    loop
        invariant
            v@ == s@,
            w@ == p@,
            p@.len() > 0,
            i <= v@.len() == total,
            views(out@) + split_str_spec(v@.skip(i as int), p@) == split_str_spec(s@, p@),
        decreases v@.len() - i,
    {
        let ghost before = out@;
        let ghost u = v@.skip(i as int);
        match find_from(&v, &w, i) {
            Some(n) => {
                out.push(slice(&v, i, i + n));
                proof {
                    lemma_views_push(before, out@.last());
                    let rest = v@.skip(i + n + p@.len());
                    assert(u.take(n as int) =~= v@.subrange(i as int, i + n));
                    assert(u.skip(n as int + p@.len()) =~= rest);
                    assert(views(out@) + split_str_spec(rest, p@) =~= views(before) + (seq![
                        u.take(n as int),
                    ] + split_str_spec(rest, p@)));
                }
                i = i + n + w.len();
            },
            None => {
                out.push(slice(&v, i, v.len()));
                proof {
                    lemma_views_push(before, out@.last());
                    assert(u =~= v@.subrange(i as int, v@.len() as int));
                    assert(views(out@) =~= views(before) + seq![u]);
                }
                return out;
            },
        }
    }
}

/// `s` without one carriage return at its end.
pub open spec fn strip_cr(s: Seq<char>) -> Seq<char> {
    if s.len() > 0 && s.last() == '\r' {
        s.drop_last()
    } else {
        s
    }
}

/// The lines of `s`: each ends at a line feed (or at a carriage return
/// directly before it) or at the end of the text.
pub open spec fn lines_spec(s: Seq<char>) -> Seq<Seq<char>>
    decreases s.len(),
{
    let n = span(s, except('\n'));
    if s.len() == 0 {
        Seq::empty()
    } else if n >= s.len() {
        seq![s]
    } else {
        seq![strip_cr(s.take(n as int))] + lines_spec(s.skip(n as int + 1))
    }
}

pub fn lines(s: &str) -> (r: Vec<String>)
    ensures
        views(r@) == lines_spec(s@),
{
    let v: Vec<char> = chars_of(s);
    let mut out: Vec<String> = Vec::new();
    let mut i: usize = 0;
    proof {
        assert(v@.skip(0) =~= v@);
        assert(views(out@) + lines_spec(s@) =~= lines_spec(s@));
    }
    while i < v.len()
        invariant
            v@ == s@,
            i <= v@.len(),
            views(out@) + lines_spec(v@.skip(i as int)) == lines_spec(s@),
        decreases v@.len() - i,
    {
        let e: usize = index_from(&v, '\n', i);
        let ghost before = out@;
        let ghost u = v@.skip(i as int);
        if e >= v.len() {
            out.push(slice(&v, i, e));
            proof {
                lemma_views_push(before, out@.last());
                assert(u =~= v@.subrange(i as int, e as int));
                assert(views(out@) =~= views(before) + seq![u]);
            }
            return out;
        }
        let end: usize = if e > i && v[e - 1] == '\r' { e - 1 } else { e };
        out.push(slice(&v, i, end));
        proof {
            lemma_views_push(before, out@.last());
            let rest = v@.skip(e + 1);
            let line = u.take(e - i);
            assert(line =~= v@.subrange(i as int, e as int));
            if e > i {
                assert(line.last() == v@[e - 1]);
            }
            assert(strip_cr(line) =~= v@.subrange(i as int, end as int));
            assert(u.skip(e - i + 1) =~= rest);
            assert(views(out@) + lines_spec(rest) =~= views(before) + (seq![strip_cr(line)]
                + lines_spec(rest)));
        }
        i = e + 1;
    }
    proof {
        assert(v@.skip(i as int) =~= Seq::empty());
        assert(views(out@) + lines_spec(v@.skip(i as int)) =~= views(out@));
    }
    out
}

// ---------------------------------------------------------------------------
// Rewriting
// ---------------------------------------------------------------------------

/// `s` with every `from` replaced by `to`.
pub open spec fn replace_spec(s: Seq<char>, from: char, to: char) -> Seq<char> {
    s.map_values(|c: char| if c == from { to } else { c })
}

pub fn replace(s: &str, from: char, to: char) -> (r: String)
    ensures
        r@ == replace_spec(s@, from, to),
{
    let v: Vec<char> = chars_of(s);
    let mut out: Vec<char> = Vec::new();
    let mut i: usize = 0;
    while i < v.len()
        invariant
            v@ == s@,
            i <= v@.len(),
            out@ == replace_spec(s@, from, to).take(i as int),
        decreases v@.len() - i,
    {
        let c: char = if v[i] == from { to } else { v[i] };
        out.push(c);
        assert(replace_spec(s@, from, to).take(i + 1) =~= replace_spec(s@, from, to).take(
            i as int,
        ).push(c));
        i = i + 1;
    }
    assert(replace_spec(s@, from, to).take(s@.len() as int) =~= replace_spec(s@, from, to));
    string_of(out)
}

// ---------------------------------------------------------------------------
// Putting together
// ---------------------------------------------------------------------------

pub fn cat2(a: &str, b: &str) -> (r: String)
    ensures
        r@ == a@ + b@,
{
    let mut s: String = String::new();
    s.append(a);
    s.append(b);
    assert(s@ =~= a@ + b@);
    s
}

pub fn cat3(a: &str, b: &str, c: &str) -> (r: String)
    ensures
        r@ == a@ + b@ + c@,
{
    let mut s: String = cat2(a, b);
    s.append(c);
    s
}

pub fn cat4(a: &str, b: &str, c: &str, d: &str) -> (r: String)
    ensures
        r@ == a@ + b@ + c@ + d@,
{
    let mut s: String = cat3(a, b, c);
    s.append(d);
    s
}

pub fn cat5(a: &str, b: &str, c: &str, d: &str, e: &str) -> (r: String)
    ensures
        r@ == a@ + b@ + c@ + d@ + e@,
{
    let mut s: String = cat4(a, b, c, d);
    s.append(e);
    s
}

pub fn cat6(a: &str, b: &str, c: &str, d: &str, e: &str, f: &str) -> (r: String)
    ensures
        r@ == a@ + b@ + c@ + d@ + e@ + f@,
{
    let mut s: String = cat5(a, b, c, d, e);
    s.append(f);
    s
}

pub fn cat7(a: &str, b: &str, c: &str, d: &str, e: &str, f: &str, g: &str) -> (r: String)
    ensures
        r@ == a@ + b@ + c@ + d@ + e@ + f@ + g@,
{
    let mut s: String = cat6(a, b, c, d, e, f);
    s.append(g);
    s
}

/// The text of an optional string.
pub open spec fn opt_view(s: Option<String>) -> Option<Seq<char>> {
    match s {
        Some(t) => Some(t@),
        None => None,
    }
}

/// A copy of an optional string.
pub fn copy_opt(s: &Option<String>) -> (r: Option<String>)
    ensures
        r == *s,
{
    match s {
        Some(t) => Some(t.clone()),
        None => None,
    }
}

/// Adds a copy of `s` to the list.
pub fn add_word(list: &mut Vec<String>, s: &str)
    ensures
        views(final(list)@) == views(old(list)@).push(s@),
        final(list)@.len() == old(list)@.len() + 1,
{
    let ghost before = list@;
    list.push(s.to_string());
    proof {
        lemma_views_push(before, list@.last());
    }
}

// ---------------------------------------------------------------------------
// Bytes
// ---------------------------------------------------------------------------

/// What bytes read as text, with what is not UTF-8 replaced.
pub uninterp spec fn lossy_text(bytes: Seq<u8>) -> Seq<char>;

/// Calls `String::from_utf8_lossy`. Valid UTF-8 reads as what it encodes; how
/// replacement characters stand for the rest is left to the name.
#[verifier::external_body]
pub(crate) fn read_lossy(bytes: &[u8]) -> (r: String)
    ensures
        r@ == lossy_text(bytes@),
        valid_utf8(bytes@) ==> r@ == decode_utf8(bytes@),
{
    String::from_utf8_lossy(bytes).into_owned()
}

} // verus!
