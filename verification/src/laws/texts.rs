//! What texts and numbers written as text keep.
use crate::decimals;
use crate::double;
use crate::double::Double;
use crate::numerals;
use crate::paths;
use crate::text;
use vstd::arithmetic::power2::*;
use vstd::prelude::*;

verus! {

// ---------------------------------------------------------------------------
// Numbers as text
// ---------------------------------------------------------------------------

/// A number written in decimal reads back as itself: digits only, and no zero
/// in front of others.
pub proof fn law_decimals_read_back(n: nat)
    ensures
        numerals::digits(n, 10).len() > 0,
        numerals::digits_value(numerals::digits(n, 10)) == n,
        forall|i: int|
            0 <= i < numerals::digits(n, 10).len() ==> '0' <= #[trigger] numerals::digits(n, 10)[i]
                && numerals::digits(n, 10)[i] <= '9',
        n > 0 ==> numerals::digits(n, 10)[0] != '0',
    decreases n,
{
    let all = numerals::digits(n, 10);
    if n < 10 {
        assert(all =~= seq![numerals::digit(n)]);
        assert(all.drop_last() =~= Seq::empty());
        assert(numerals::digits_value(all.drop_last()) == 0);
    } else {
        numerals::lemma_quotient_smaller(n, 10);
        law_decimals_read_back(n / 10);
        let front = numerals::digits(n / 10, 10);
        assert(all == front.push(numerals::digit(n % 10)));
        assert(all.drop_last() =~= front);
        assert forall|i: int| 0 <= i < all.len() implies '0' <= #[trigger] all[i] && all[i]
            <= '9' by {
            if i < front.len() {
                assert(all[i] == front[i]);
            }
        }
        assert(all[0] == front[0]);
    }
}

/// What a count is written as parses to the count.
pub proof fn law_written_counts_parse_back(n: u64)
    ensures
        numerals::parse_u64_spec(numerals::digits(n as nat, 10)) == Some(n),
{
    law_decimals_read_back(n as nat);
    let all = numerals::digits(n as nat, 10);
    assert('0' <= all[0]);
    assert(forall|i: int| 0 <= i < all.len() ==> numerals::is_digit(#[trigger] all[i]));
}

/// A text of digits reads as the number that they stand for, digit by digit.
pub proof fn law_digits_weigh_tenfold(s: Seq<char>, d: nat)
    requires
        d < 10,
    ensures
        numerals::digits_value(Seq::<char>::empty()) == 0,
        numerals::digits_value(s.push(numerals::digit(d))) == 10 * numerals::digits_value(s) + d,
{
    assert(s.push(numerals::digit(d)).drop_last() =~= s);
}

/// Padding brings a text to its width with zeros in front, and leaves a longer
/// one alone.
pub proof fn law_padding_puts_zeros_in_front(s: Seq<char>, width: nat, i: int)
    ensures
        ({
            let p = numerals::zero_padded(s, width);
            &&& p.len() == if s.len() < width {
                width
            } else {
                s.len()
            }
            &&& 0 <= i < p.len() - s.len() ==> p[i] == '0'
            &&& p.skip(p.len() - s.len()) == s
        }),
{
    let p = numerals::zero_padded(s, width);
    assert(p.skip(p.len() - s.len()) =~= s);
}

/// Rounding a fraction gives the whole number nearest to it; of two that are
/// equally near, the even one.
pub proof fn law_halves_round_to_even(n: nat, d: nat)
    requires
        d > 0,
    ensures
        ({
            let q = double::half_even(n, d) as int;
            &&& 2 * (q * d - n) <= d
            &&& 2 * (n - q * d) <= d
            &&& 2 * (q * d - n) == d || 2 * (n - q * d) == d ==> q % 2 == 0
        }),
{
    let f = n / d;
    let q = double::half_even(n, d) as int;
    assert(f * d <= n < (f + 1) * d) by (nonlinear_arith)
        requires
            f == n / d,
            d > 0,
    ;
    assert((f + 1) * d == f * d + d) by (nonlinear_arith);
    assert((2 * f + 1) * d == 2 * (f * d) + d) by (nonlinear_arith);
    assert(q == f || q == f + 1);
    assert(q == f + 1 ==> q * d == f * d + d);
    assert(q == f ==> q * d == f * d);
}

/// Rounding a double gives the whole number nearest to it; of two that are
/// equally near, the one further from zero.
pub proof fn law_halves_round_away_from_zero(units: nat)
    ensures
        ({
            let w = decimals::nearest_whole(units);
            let one = pow2(1074);
            &&& 2 * (w * one - units) <= one
            &&& 2 * (units - w * one) < one
        }),
{
    let one = pow2(1074);
    lemma_pow2_pos(1074);
    let w = decimals::nearest_whole(units);
    let n = 2 * units + one;
    let d = 2 * one;
    assert(w * d <= n < (w + 1) * d) by (nonlinear_arith)
        requires
            w == n / d,
            d > 0,
    ;
    assert(w * d == 2 * (w * one) && (w + 1) * d == 2 * (w * one) + 2 * one) by (nonlinear_arith)
        requires
            d == 2 * one,
    ;
}

/// A finite double is written with the nearest number of hundredths (tenths,
/// wholes), a minus in front exactly where it is negative.
pub proof fn law_fixed_decimals_are_nearest(x: Double, k: nat, plus: bool)
    requires
        x.finite(),
        k <= 2,
    ensures
        exists|r: nat| #[trigger]
            is_rounded(r, x.units(), k) && x.fixed_spec(k, plus) == (if x.neg() {
                "-"@
            } else if plus {
                "+"@
            } else {
                ""@
            }) + written(r, k),
{
    let r = double::half_even(x.units() * decimals::ten_to(k), pow2(1074));
    lemma_pow2_pos(1074);
    law_halves_round_to_even(x.units() * decimals::ten_to(k), pow2(1074));
    assert(is_rounded(r, x.units(), k));
}

/// Is `r` the nearest number of hundredths (tenths, wholes)?
pub open spec fn is_rounded(r: nat, units: nat, k: nat) -> bool {
    let scaled = units * (if k == 0 {
        1nat
    } else if k == 1 {
        10
    } else {
        100
    });
    let one = pow2(1074);
    2 * (r * one - scaled) <= one && 2 * (scaled - r * one) <= one
}

/// So many hundredths (tenths, wholes), written out.
pub open spec fn written(r: nat, k: nat) -> Seq<char> {
    if k == 0 {
        numerals::digits(r, 10)
    } else if k == 1 {
        numerals::digits(r / 10, 10) + "."@ + numerals::zero_padded(
            numerals::digits(r % 10, 10),
            1,
        )
    } else {
        numerals::digits(r / 100, 10) + "."@ + numerals::zero_padded(
            numerals::digits(r % 100, 10),
            2,
        )
    }
}

// ---------------------------------------------------------------------------
// Trimming and splitting
// ---------------------------------------------------------------------------

/// Is every character a blank?
pub open spec fn blank(s: Seq<char>) -> bool {
    forall|i: int| 0 <= i < s.len() ==> text::white(#[trigger] s[i])
}

/// Trimming cuts blanks off both ends, and all of them.
pub proof fn law_trimming_cuts_the_blanks(s: Seq<char>)
    ensures
        ({
            let t = text::trim_spec(s);
            &&& exists|a: Seq<char>, b: Seq<char>|
                blank(a) && blank(b) && #[trigger] cut_from(t, s, a, b)
            &&& t.len() > 0 ==> !text::white(t[0]) && !text::white(t[t.len() - 1])
        }),
{
    let n = text::span(s, text::whites());
    text::lemma_span_props(s, text::whites());
    let rest = text::trim_start_spec(s);
    let m = text::span_back(rest, text::whites());
    lemma_span_back(rest, text::whites());
    let t = text::trim_spec(s);
    let (a, b) = (s.take(n as int), rest.skip(rest.len() - m));
    assert(blank(a)) by {
        assert forall|i: int| 0 <= i < a.len() implies text::white(#[trigger] a[i]) by {
            assert(text::whites()(s[i]));
        }
    }
    assert(blank(b)) by {
        assert forall|i: int| 0 <= i < b.len() implies text::white(#[trigger] b[i]) by {
            assert(text::whites()(rest[rest.len() - m + i]));
        }
    }
    assert(s =~= a + t + b);
    assert(cut_from(t, s, a, b));
    if t.len() > 0 {
        assert(t[0] == rest[0] && rest[0] == s[n as int]);
        assert(!text::whites()(s[n as int]));
        assert(t[t.len() - 1] == rest[rest.len() - m - 1]);
        assert(!text::whites()(rest[rest.len() - m - 1]));
    }
}

pub open spec fn cut_from(t: Seq<char>, s: Seq<char>, a: Seq<char>, b: Seq<char>) -> bool {
    s == a + t + b
}

proof fn lemma_span_back(s: Seq<char>, f: spec_fn(char) -> bool)
    ensures
        text::span_back(s, f) <= s.len(),
        forall|i: int|
            s.len() - text::span_back(s, f) <= i < s.len() ==> f(#[trigger] s[i]),
        text::span_back(s, f) < s.len() ==> !f(s[s.len() - text::span_back(s, f) - 1]),
    decreases s.len(),
{
    if s.len() > 0 && f(s.last()) {
        let front = s.drop_last();
        lemma_span_back(front, f);
        assert forall|i: int| s.len() - text::span_back(s, f) <= i < s.len() implies f(
            #[trigger] s[i],
        ) by {
            if i < front.len() {
                assert(front[i] == s[i]);
            }
        }
    }
}

/// The pieces of a text, with the separator between them again, are the text,
/// and no piece holds the separator.
pub proof fn law_pieces_join_back(s: Seq<char>, c: char)
    ensures
        text::split_spec(s, c).len() > 0,
        text::join_spec(text::split_spec(s, c), seq![c]) == s,
        forall|i: int|
            0 <= i < text::split_spec(s, c).len() ==> !(#[trigger] text::split_spec(
                s,
                c,
            )[i]).contains(c),
    decreases s.len(),
{
    let n = text::span(s, text::except(c));
    text::lemma_span_props(s, text::except(c));
    let all = text::split_spec(s, c);
    let head = s.take(n as int);
    assert(!head.contains(c)) by {
        if head.contains(c) {
            let i = head.index_of(c);
            assert(head[i] == s[i]);
            assert(text::except(c)(s[i]));
        }
    }
    if n >= s.len() {
        assert(head =~= s);
        assert(all =~= seq![s]);
    } else {
        let rest = s.skip(n as int + 1);
        law_pieces_join_back(rest, c);
        let more = text::split_spec(rest, c);
        assert(all =~= seq![head] + more);
        lemma_join_front(head, more, seq![c]);
        assert(!text::except(c)(s[n as int]));
        assert(s =~= head + seq![c] + rest);
        assert forall|i: int| 0 <= i < all.len() implies !(#[trigger] all[i]).contains(c) by {
            if i > 0 {
                assert(all[i] == more[i - 1]);
            }
        }
    }
}

proof fn lemma_join_front(head: Seq<char>, more: Seq<Seq<char>>, sep: Seq<char>)
    requires
        more.len() > 0,
    ensures
        text::join_spec(seq![head] + more, sep) == head + sep + text::join_spec(more, sep),
    decreases more.len(),
{
    let all = seq![head] + more;
    if more.len() == 1 {
        assert(all.drop_last() =~= seq![head]);
        assert(text::join_spec(seq![head], sep) == head);
        assert(all.last() == more[0]);
    } else {
        lemma_join_front(head, more.drop_last(), sep);
        assert(all.drop_last() =~= seq![head] + more.drop_last());
        assert(all.last() == more.last());
        assert(head + sep + (text::join_spec(more.drop_last(), sep) + sep + more.last()) =~= (head
            + sep + text::join_spec(more.drop_last(), sep)) + sep + more.last());
    }
}

/// A text is found where it first occurs.
pub proof fn law_finds_are_the_first(s: Seq<char>, p: Seq<char>, k: int)
    ensures
        match text::find_spec(s, p) {
            Some(n) => n + p.len() <= s.len() && s.subrange(n as int, (n + p.len()) as int) == p
                && (0 <= k < n ==> s.subrange(k, k + p.len() as int) != p || k + p.len()
                > s.len()),
            None => 0 <= k && k + p.len() <= s.len() ==> s.subrange(k, k + p.len() as int) != p,
        },
    decreases s.len(),
{
    if text::has_prefix(s, p) {
        assert(s.subrange(0, p.len() as int) =~= s.take(p.len() as int));
    } else if s.len() > 0 {
        let rest = s.drop_first();
        law_finds_are_the_first(rest, p, k - 1);
        match text::find_spec(rest, p) {
            Some(n) => {
                assert(s.subrange(n as int + 1, (n + 1 + p.len()) as int) =~= rest.subrange(
                    n as int,
                    (n + p.len()) as int,
                ));
            },
            None => {},
        }
        if k == 0 && p.len() <= s.len() {
            assert(s.subrange(0, p.len() as int) =~= s.take(p.len() as int));
        }
        if k > 0 && k + p.len() <= s.len() {
            assert(s.subrange(k, k + p.len() as int) =~= rest.subrange(
                k - 1,
                k - 1 + p.len() as int,
            ));
        }
    } else if k == 0 && p.len() == 0 {
        assert(s.take(0) =~= p);
    }
}

/// Words are runs of characters that are no blanks.
pub proof fn law_words_hold_no_blanks(s: Seq<char>, i: int, j: int)
    requires
        0 <= i < text::words(s).len(),
    ensures
        text::words(s)[i].len() > 0,
        0 <= j < text::words(s)[i].len() ==> !text::white(text::words(s)[i][j]),
    decreases s.len(),
{
    let t = text::trim_start_spec(s);
    let n = text::span(t, text::not_whites());
    text::lemma_span_props(s, text::whites());
    text::lemma_span_props(t, text::not_whites());
    let all = text::words(s);
    if n > 0 {
        let rest = text::words(t.skip(n as int));
        assert(all =~= seq![t.take(n as int)] + rest);
        if i > 0 {
            law_words_hold_no_blanks(t.skip(n as int), i - 1, j);
            assert(all[i] == rest[i - 1]);
        } else if 0 <= j < n {
            assert(text::not_whites()(t[j]));
            assert(all[0][j] == t[j]);
        }
    }
}

/// Replacing a character touches no other, and keeps the length.
pub proof fn law_replacing_touches_one_character(s: Seq<char>, from: char, to: char, i: int)
    ensures
        text::replace_spec(s, from, to).len() == s.len(),
        0 <= i < s.len() && s[i] == from ==> text::replace_spec(s, from, to)[i] == to,
        0 <= i < s.len() && s[i] != from ==> text::replace_spec(s, from, to)[i] == s[i],
{
}

/// Lines hold no line feed.
pub proof fn law_lines_hold_no_line_feed(s: Seq<char>, i: int)
    requires
        0 <= i < text::lines_spec(s).len(),
    ensures
        !text::lines_spec(s)[i].contains('\n'),
    decreases s.len(),
{
    let n = text::span(s, text::except('\n'));
    text::lemma_span_props(s, text::except('\n'));
    let all = text::lines_spec(s);
    let head = s.take(n as int);
    assert(!head.contains('\n')) by {
        if head.contains('\n') {
            let k = head.index_of('\n');
            assert(head[k] == s[k]);
            assert(text::except('\n')(s[k]));
        }
    }
    if n >= s.len() {
        assert(head =~= s);
        assert(all =~= seq![s]);
    } else {
        let rest = text::lines_spec(s.skip(n as int + 1));
        assert(all =~= seq![text::strip_cr(head)] + rest);
        if i > 0 {
            law_lines_hold_no_line_feed(s.skip(n as int + 1), i - 1);
            assert(all[i] == rest[i - 1]);
        } else {
            let line = text::strip_cr(head);
            if line.contains('\n') {
                let k = line.index_of('\n');
                assert(head[k] == line[k]);
                assert(head.contains('\n'));
            }
        }
    }
}

/// The pieces between the occurrences of a text, with it put back between them,
/// are the whole.
pub proof fn law_pieces_around_a_text_join_back(s: Seq<char>, p: Seq<char>)
    requires
        p.len() > 0,
    ensures
        text::join_spec(text::split_str_spec(s, p), p) == s,
        text::split_str_spec(s, p).len() > 0,
    decreases s.len(),
{
    text::lemma_find_bound(s, p);
    match text::find_spec(s, p) {
        Some(n) => {
            let rest = s.skip(n as int + p.len());
            law_pieces_around_a_text_join_back(rest, p);
            let tail = text::split_str_spec(rest, p);
            lemma_joined_in_front(s.take(n as int), tail, p);
            assert(s.skip(n as int).take(p.len() as int) =~= p);
            assert(s =~= s.take(n as int) + p + rest);
        },
        None => {},
    }
}

proof fn lemma_joined_in_front(head: Seq<char>, tail: Seq<Seq<char>>, sep: Seq<char>)
    requires
        tail.len() > 0,
    ensures
        text::join_spec(seq![head] + tail, sep) == head + sep + text::join_spec(tail, sep),
    decreases tail.len(),
{
    let all = seq![head] + tail;
    assert(all.last() == tail.last());
    assert(all.drop_last() =~= seq![head] + tail.drop_last());
    if tail.len() == 1 {
        assert(all.drop_last() =~= seq![head]);
        assert(text::join_spec(all.drop_last(), sep) == head);
    } else {
        lemma_joined_in_front(head, tail.drop_last(), sep);
        assert(head + sep + (text::join_spec(tail.drop_last(), sep) + sep + tail.last()) =~= head
            + sep + text::join_spec(tail.drop_last(), sep) + sep + tail.last());
    }
}

/// A text cut at its first (or last) mark: the parts with the mark between them
/// are the whole, and the first (or last) part does not hold it.
pub proof fn law_cuts_are_at_the_first_or_the_last_mark(s: Seq<char>, c: char)
    ensures
        match text::split_once_spec(s, c) {
            Some((a, b)) => s == a.push(c) + b && !a.contains(c),
            None => !s.contains(c),
        },
        match text::rsplit_once_spec(s, c) {
            Some((a, b)) => s == a.push(c) + b && !b.contains(c),
            None => !s.contains(c),
        },
{
    let n = text::span(s, text::except(c));
    text::lemma_span_props(s, text::except(c));
    if n < s.len() {
        assert(s =~= s.take(n as int).push(c) + s.skip(n as int + 1));
        let a = s.take(n as int);
        if a.contains(c) {
            let k = a.index_of(c);
            assert(s[k] == a[k]);
        }
    } else if s.contains(c) {
        let k = s.index_of(c);
        assert(text::except(c)(s[k]));
    }
    let m = text::span_back(s, text::except(c));
    lemma_span_back(s, text::except(c));
    if m < s.len() {
        let b = s.skip(s.len() - m);
        assert(s =~= s.take(s.len() - m - 1).push(c) + b);
        if b.contains(c) {
            let k = b.index_of(c);
            assert(s[k + s.len() - m] == b[k]);
        }
    } else if s.contains(c) {
        let k = s.index_of(c);
        assert(text::except(c)(s[k]));
    }
}

/// The final name of a joined path is what was joined, where that names
/// something.
pub proof fn law_joined_names_are_final(base: Seq<char>, name: Seq<char>)
    requires
        name.len() > 0,
        !name.contains('/'),
        name != seq!['.'],
        name != seq!['.', '.'],
    ensures
        paths::file_name_spec(paths::join_spec(base, name)) == Some(name),
{
    reveal_strlit("/");
    assert(name[0] != '/') by {
        if name[0] == '/' {
            assert(name.contains('/'));
        }
    }
    let path = paths::join_spec(base, name);
    let lead = path.take(path.len() - name.len());
    assert(lead.len() == 0 || lead.last() == '/');
    assert(path =~= lead + name);
    lemma_final_piece(lead, name);
}

proof fn lemma_final_piece(lead: Seq<char>, name: Seq<char>)
    requires
        !name.contains('/'),
        lead.len() == 0 || lead.last() == '/',
    ensures
        text::split_spec(lead + name, '/').len() > 0,
        text::split_spec(lead + name, '/').last() == name,
    decreases lead.len(),
{
    let path = lead + name;
    text::lemma_span_props(path, text::except('/'));
    let n = text::span(path, text::except('/'));
    if lead.len() == 0 {
        assert(path =~= name);
        if n < path.len() {
            assert(name.contains(path[n as int]));
        }
    } else {
        if n >= lead.len() {
            assert(text::except('/')(path[lead.len() - 1]));
        }
        let rest = lead.skip(n as int + 1);
        if rest.len() > 0 {
            assert(rest.last() == lead.last());
        }
        lemma_final_piece(rest, name);
        assert(path.skip(n as int + 1) =~= rest + name);
        let pieces = text::split_spec(path.skip(n as int + 1), '/');
        assert((seq![path.take(n as int)] + pieces).last() == pieces.last());
    }
}

/// What only starts like a directory's name does not lie in it.
pub proof fn law_namesakes_lie_elsewhere(base: Seq<char>, more: Seq<char>)
    requires
        base.len() > 0,
        base.last() != '/',
        more.len() > 0,
        more[0] != '/',
    ensures
        paths::relative_spec(base, base + more) == base + more,
{
    assert((base + more).skip(base.len() as int) =~= more);
}

} // verus!
