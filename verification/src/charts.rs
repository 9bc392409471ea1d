//! What the charts show: relative-speed bars, violin (distribution) plots and
//! trends — sizes, ranges, colors, labels and where every mark goes. Putting
//! the marks on a bitmap is up to the program around.
use crate::criterion_results::Row;
use crate::double;
use crate::double::Double;
use crate::sorting;
use crate::sorting::Ranked;
use crate::text;
use crate::config;
use vstd::prelude::*;
use vstd::utf8::*;

verus! {

/// All charts render at twice their size and are displayed downscaled.
pub const SS: u32 = 2;

/// 1.15
pub const HEADROOM: u64 = 0x3FF2_6666_6666_6666;

/// 118.0
pub const LEAST_PERCENT_RANGE: u64 = 0x405D_8000_0000_0000;

/// 0.06
pub const VIOLIN_PAD: u64 = 0x3FAE_B851_EB85_1EB8;

/// 0.001
pub const THOUSANDTH: u64 = 0x3F50_624D_D2F1_A9FC;

/// 1e-9
pub const TINY: u64 = 0x3E11_2E0B_E826_D695;

/// 0.04
pub const LEAST_SPAN: u64 = 0x3FA4_7AE1_47AE_147B;

/// 0.1
pub const TENTH: u64 = 0x3FB9_9999_9999_999A;

/// 1.6
pub const TOP_PAD: u64 = 0x3FF9_9999_9999_999A;

/// 0.01
pub const NEAR: u64 = 0x3F84_7AE1_47AE_147B;

/// 200.0
pub const GRID_STEPS: u64 = 0x4069_0000_0000_0000;

// ---------------------------------------------------------------------------
// Colors
// ---------------------------------------------------------------------------

/// A color, eight bits per channel.
#[derive(Debug, Clone, Copy, PartialEq, Eq, PartialOrd, Ord, Hash, Structural)]
pub struct Rgb {
    pub r: u8,
    pub g: u8,
    pub b: u8,
}

/// The 8-slot categorical palette: blue, aqua, yellow, green, violet, red,
/// magenta, orange.
pub open spec fn palette_spec(i: nat) -> Rgb {
    if i == 0 {
        Rgb { r: 0x2a, g: 0x78, b: 0xd6 }
    } else if i == 1 {
        Rgb { r: 0x1b, g: 0xaf, b: 0x7a }
    } else if i == 2 {
        Rgb { r: 0xed, g: 0xa1, b: 0x00 }
    } else if i == 3 {
        Rgb { r: 0x00, g: 0x83, b: 0x00 }
    } else if i == 4 {
        Rgb { r: 0x4a, g: 0x3a, b: 0xa7 }
    } else if i == 5 {
        Rgb { r: 0xe3, g: 0x49, b: 0x48 }
    } else if i == 6 {
        Rgb { r: 0xe8, g: 0x7b, b: 0xa4 }
    } else {
        Rgb { r: 0xeb, g: 0x68, b: 0x34 }
    }
}

/// A slot of the palette.
pub fn palette(i: usize) -> (r: Rgb)
    ensures
        r == palette_spec(i as nat),
{
    match i {
        0 => Rgb { r: 0x2a, g: 0x78, b: 0xd6 },
        1 => Rgb { r: 0x1b, g: 0xaf, b: 0x7a },
        2 => Rgb { r: 0xed, g: 0xa1, b: 0x00 },
        3 => Rgb { r: 0x00, g: 0x83, b: 0x00 },
        4 => Rgb { r: 0x4a, g: 0x3a, b: 0xa7 },
        5 => Rgb { r: 0xe3, g: 0x49, b: 0x48 },
        6 => Rgb { r: 0xe8, g: 0x7b, b: 0xa4 },
        _ => Rgb { r: 0xeb, g: 0x68, b: 0x34 },
    }
}

/// Status color for regression markers — reserved, never a series color.
pub open spec fn alert_red_spec() -> Rgb {
    Rgb { r: 0xd0, g: 0x3b, b: 0x3b }
}

pub fn alert_red() -> (r: Rgb)
    ensures
        r == alert_red_spec(),
{
    Rgb { r: 0xd0, g: 0x3b, b: 0x3b }
}

/// Neutral color reserved for the baseline subject.
pub open spec fn baseline_gray_spec() -> Rgb {
    Rgb { r: 144, g: 153, b: 176 }
}

pub fn baseline_gray() -> (r: Rgb)
    ensures
        r == baseline_gray_spec(),
{
    Rgb { r: 144, g: 153, b: 176 }
}

/// Each channel at three fifths.
pub open spec fn darkened(c: Rgb) -> Rgb {
    Rgb { r: (c.r * 3 / 5) as u8, g: (c.g * 3 / 5) as u8, b: (c.b * 3 / 5) as u8 }
}

/// Each channel halfway to white.
pub open spec fn lightened(c: Rgb) -> Rgb {
    Rgb { r: (c.r / 2 + 128) as u8, g: (c.g / 2 + 128) as u8, b: (c.b / 2 + 128) as u8 }
}

/// The color of a palette slot: past the base palette its hues come back
/// darkened, then lightened, then as they were.
pub open spec fn series_color_spec(i: nat) -> Rgb {
    let base = palette_spec(i % 8);
    let round = (i / 8) % 3;
    if round == 0 {
        base
    } else if round == 1 {
        darkened(base)
    } else {
        lightened(base)
    }
}

pub fn series_color(i: usize) -> (r: Rgb)
    ensures
        r == series_color_spec(i as nat),
{
    let base: Rgb = palette(i % 8);
    match (i / 8) % 3 {
        0 => base,
        1 => Rgb {
            r: (base.r as u16 * 3 / 5) as u8,
            g: (base.g as u16 * 3 / 5) as u8,
            b: (base.b as u16 * 3 / 5) as u8,
        },
        _ => Rgb { r: base.r / 2 + 128, g: base.g / 2 + 128, b: base.b / 2 + 128 },
    }
}

/// The first 24 slots are told apart by color, and none of them wears a
/// reserved one.
pub proof fn law_series_colors_are_distinct(i: nat, j: nat)
    requires
        i < 24,
        j < 24,
        i != j,
    ensures
        series_color_spec(i) != series_color_spec(j),
        series_color_spec(i) != alert_red_spec(),
        series_color_spec(i) != baseline_gray_spec(),
{
    assert(i % 8 == j % 8 ==> (i / 8) % 3 != (j / 8) % 3);
}

/// Subject-to-color assignment shared by every subject-keyed chart of a run:
/// the baseline gets its reserved gray; the priority (headline) subjects take
/// the leading palette slots in alphabetical order, the remaining subjects
/// follow alphabetically.
#[derive(Debug, Clone, PartialEq, Eq)]
pub struct SubjectColors {
    baseline: String,
    ordered: Vec<String>,
}

/// Does `a` take a slot before `b`?
pub open spec fn slot_before(a: Seq<char>, b: Seq<char>, priority: Seq<Seq<char>>) -> bool {
    let x = config::any_star_match(priority, a);
    let y = config::any_star_match(priority, b);
    (x && !y) || (x == y && text::lex_lt(a, b))
}

pub open spec fn in_slot_order(subjects: Seq<Seq<char>>, priority: Seq<Seq<char>>) -> bool {
    forall|i: int, j: int|
        0 <= i < j < subjects.len() ==> slot_before(
            #[trigger] subjects[i],
            #[trigger] subjects[j],
            priority,
        )
}

fn goes_before(a: &str, b: &str, priority: &Vec<String>) -> (r: bool)
    ensures
        r == slot_before(a@, b@, text::views(priority@)),
{
    let x: bool = config::any_pattern_matches(priority, a);
    let y: bool = config::any_pattern_matches(priority, b);
    (x && !y) || (x == y && text::less(a, b))
}

proof fn lemma_slot_transitive(a: Seq<char>, b: Seq<char>, c: Seq<char>, priority: Seq<Seq<char>>)
    requires
        slot_before(a, b, priority),
        slot_before(b, c, priority),
    ensures
        slot_before(a, c, priority),
{
    if text::lex_lt(a, b) && text::lex_lt(b, c) {
        text::lemma_lex_transitive(a, b, c);
    }
}

/// Puts a subject into its slot, where it is not there yet.
fn add_slot(ordered: &mut Vec<String>, subject: &String, priority: &Vec<String>)
    requires
        in_slot_order(text::views(old(ordered)@), text::views(priority@)),
    ensures
        in_slot_order(text::views(final(ordered)@), text::views(priority@)),
        forall|s: Seq<char>| #[trigger]
            text::views(final(ordered)@).contains(s) <==> text::views(old(ordered)@).contains(s)
                || s == subject@,
{
    let ghost before = text::views(ordered@);
    let ghost pri = text::views(priority@);
    let mut p: usize = 0;
    while p < ordered.len() && goes_before(ordered[p].as_str(), subject.as_str(), priority)
        invariant
            before == text::views(ordered@),
            pri == text::views(priority@),
            in_slot_order(before, pri),
            p <= ordered@.len(),
            forall|i: int| 0 <= i < p ==> slot_before(#[trigger] before[i], subject@, pri),
        decreases ordered@.len() - p,
    {
        assert(before[p as int] == ordered@[p as int]@);
        p = p + 1;
    }
    if p < ordered.len() && text::same(ordered[p].as_str(), subject.as_str()) {
        proof {
            assert(before[p as int] == subject@);
        }
        return;
    }
    let ghost old_ordered = ordered@;
    ordered.insert(p, subject.clone());
    proof {
        let after = text::views(ordered@);
        assert(after =~= before.insert(p as int, subject@));
        if p < before.len() {
            assert(before[p as int] == old_ordered[p as int]@);
            text::lemma_lex_total(before[p as int], subject@);
        }
        assert forall|i: int| p <= i < before.len() implies slot_before(
            subject@,
            #[trigger] before[i],
            pri,
        ) by {
            if i > p {
                lemma_slot_transitive(subject@, before[p as int], before[i], pri);
            }
        }
        assert forall|i: int, j: int| 0 <= i < j < after.len() implies slot_before(
            #[trigger] after[i],
            #[trigger] after[j],
            pri,
        ) by {
            if i < p && j == p {
                assert(after[i] == before[i]);
            } else if i < p && j > p {
                assert(after[i] == before[i] && after[j] == before[j - 1]);
            } else if i == p {
                assert(after[j] == before[j - 1]);
            } else if i > p {
                assert(after[i] == before[i - 1] && after[j] == before[j - 1]);
            }
        }
        assert forall|s: Seq<char>| #[trigger]
            after.contains(s) <==> before.contains(s) || s == subject@ by {
            if before.contains(s) {
                let i = before.index_of(s);
                let j = if i < p { i } else { i + 1 };
                assert(after[j] == s);
            }
            if s == subject@ {
                assert(after[p as int] == s);
            }
            if after.contains(s) {
                let j = after.index_of(s);
                if j != p {
                    let i = if j < p { j } else { j - 1 };
                    assert(before[i] == s);
                }
            }
        }
    }
}

impl SubjectColors {
    pub closed spec fn baseline_spec(self) -> Seq<char> {
        self.baseline@
    }

    /// The subjects by slot.
    pub closed spec fn slots(self) -> Seq<Seq<char>> {
        text::views(self.ordered@)
    }

    /// The color of a subject.
    pub open spec fn color_spec(self, subject: Seq<char>) -> Rgb {
        if subject == self.baseline_spec() {
            baseline_gray_spec()
        } else {
            series_color_spec(text::position(self.slots(), subject))
        }
    }

    /// The assignment for a run's subjects; `priority` holds the patterns of
    /// those that get the leading slots.
    pub fn new(baseline_subject: &str, subjects: &Vec<String>, priority: &Vec<String>) -> (r:
        SubjectColors)
        ensures
            r.baseline_spec() == baseline_subject@,
            in_slot_order(r.slots(), text::views(priority@)),
            forall|s: Seq<char>| #[trigger]
                r.slots().contains(s) <==> text::views(subjects@).contains(s) && s
                    != baseline_subject@,
    {
        let mut ordered: Vec<String> = Vec::new();
        let mut i: usize = 0;
        while i < subjects.len()
            invariant
                i <= subjects@.len(),
                in_slot_order(text::views(ordered@), text::views(priority@)),
                forall|s: Seq<char>| #[trigger]
                    text::views(ordered@).contains(s) <==> text::views(
                        subjects@.take(i as int),
                    ).contains(s) && s != baseline_subject@,
            decreases subjects@.len() - i,
        {
            let ghost had = text::views(ordered@);
            if !text::same(subjects[i].as_str(), baseline_subject) {
                add_slot(&mut ordered, &subjects[i], priority);
            }
            proof {
                let a = text::views(subjects@.take(i as int));
                let b = text::views(subjects@.take(i + 1));
                let x = subjects@[i as int]@;
                assert(b =~= a.push(x));
                assert forall|s: Seq<char>| #[trigger]
                    text::views(ordered@).contains(s) <==> b.contains(s) && s
                        != baseline_subject@ by {
                    assert(had.contains(s) <==> a.contains(s) && s != baseline_subject@);
                    if a.contains(s) {
                        assert(b[a.index_of(s)] == s);
                    }
                    if s == x {
                        assert(b[i as int] == s);
                    }
                    if b.contains(s) && b.index_of(s) < i {
                        assert(a[b.index_of(s)] == s);
                    }
                }
            }
            i = i + 1;
        }
        assert(subjects@.take(subjects@.len() as int) =~= subjects@);
        SubjectColors { baseline: baseline_subject.to_string(), ordered }
    }

    pub fn color(&self, subject: &str) -> (r: Rgb)
        ensures
            r == self.color_spec(subject@),
    {
        if text::same(subject, self.baseline.as_str()) {
            baseline_gray()
        } else {
            series_color(text::position_of(&self.ordered, subject))
        }
    }

    pub fn baseline(&self) -> (r: &str)
        ensures
            r@ == self.baseline_spec(),
    {
        self.baseline.as_str()
    }
}

/// Two subjects of a run with at most 24 non-baseline subjects never wear the
/// same color, and only the baseline wears its gray.
pub proof fn law_subjects_keep_unique_colors(colors: SubjectColors, a: Seq<char>, b: Seq<char>)
    requires
        colors.slots().len() <= 24,
        a == colors.baseline_spec() || colors.slots().contains(a),
        b == colors.baseline_spec() || colors.slots().contains(b),
        a != b,
    ensures
        colors.color_spec(a) != colors.color_spec(b),
{
    let slots = colors.slots();
    lemma_position_found(slots, a);
    lemma_position_found(slots, b);
    let i = text::position(slots, a);
    let j = text::position(slots, b);
    if a != colors.baseline_spec() && b != colors.baseline_spec() {
        law_series_colors_are_distinct(i, j);
    } else if a != colors.baseline_spec() {
        let other = if i == 0 {
            1nat
        } else {
            0
        };
        law_series_colors_are_distinct(i, other);
    } else {
        let other = if j == 0 {
            1nat
        } else {
            0
        };
        law_series_colors_are_distinct(j, other);
    }
}

proof fn lemma_position_found(list: Seq<Seq<char>>, x: Seq<char>)
    ensures
        list.contains(x) ==> text::position(list, x) < list.len() && list[text::position(
            list,
            x,
        ) as int] == x,
    decreases list.len(),
{
    if list.len() > 0 && list[0] != x {
        lemma_position_found(list.drop_first(), x);
        if list.contains(x) {
            let i = list.index_of(x);
            assert(list.drop_first()[i - 1] == x);
        }
    }
}

// ---------------------------------------------------------------------------
// Ticks
// ---------------------------------------------------------------------------

/// Which whole number a tick position stands for: the nearest one, where it is
/// within a hundredth and not negative.
pub open spec fn tick_spec(v: Double) -> Option<int> {
    let i = v.round_spec();
    if (Double { bits: NEAR }).lt_spec(v.sub_spec(i).abs_spec()) || i.lt_spec(
        (Double { bits: 0 }),
    ) {
        None
    } else if i.nan() {
        Some(0)
    } else if i.infinite() {
        None
    } else {
        Some(double::ceil_spec(i.units()))
    }
}

/// The index among `n` labels that a tick position stands for.
pub fn tick_index(v: Double, n: usize) -> (r: Option<usize>)
    ensures
        r == (match tick_spec(v) {
            Some(i) => if i < n {
                Some(i as usize)
            } else {
                None
            },
            None => None,
        }),
{
    let i: Double = v.round();
    if Double::from_bits(NEAR).lt(v.minus(i).abs()) || i.lt(Double::from_bits(0)) {
        return None;
    }
    if i.is_nan() {
        if n > 0 {
            return Some(0);
        }
        return None;
    }
    if !i.is_finite() {
        return None;
    }
    let size: Double = i.abs();
    proof {
        lemma_abs(i);
        lemma_ceil_nonneg(i.units());
    }
    let k: u64 = size.ceil_to_u64();
    if k < n as u64 {
        Some(k as usize)
    } else {
        None
    }
}

/// The absolute value keeps the magnitude.
proof fn lemma_abs(d: Double)
    ensures
        d.abs_spec().mag() == d.mag(),
        !d.abs_spec().neg(),
        d.abs_spec().finite() == d.finite(),
        d.abs_spec().units() == d.units(),
{
    assert(d.mag() < double::SIGN);
    assert(d.abs_spec().bits == d.mag());
    assert(d.mag() % double::SIGN == d.mag());
}

proof fn lemma_ceil_nonneg(units: nat)
    ensures
        double::ceil_spec(units) >= 0,
{
    vstd::arithmetic::power2::lemma_pow2_pos(1074);
    let d = vstd::arithmetic::power2::pow2(1074) as int;
    assert((units + d - 1) / d >= 0) by (nonlinear_arith)
        requires
            d > 0,
            units >= 0,
    ;
}

/// The label of a tick, counted from the top; empty off the marks.
pub open spec fn top_down_label(v: Double, labels: Seq<Seq<char>>) -> Seq<char> {
    match tick_spec(v) {
        Some(i) => if i < labels.len() {
            labels[labels.len() - 1 - i]
        } else {
            Seq::empty()
        },
        None => Seq::empty(),
    }
}

/// Maps near-integer tick positions to the labels in top-down order, everything
/// else to an empty label.
pub fn integer_tick_label(v: Double, labels: &Vec<String>) -> (r: String)
    ensures
        r@ == top_down_label(v, text::views(labels@)),
{
    let n: usize = labels.len();
    match tick_index(v, n) {
        Some(i) => {
            proof {
                if tick_spec(v)->0 < 0 {
                    lemma_ceil_nonneg(v.round_spec().units());
                }
            }
            labels[n - 1 - i].clone()
        },
        None => String::new(),
    }
}

// ---------------------------------------------------------------------------
// Speed bars
// ---------------------------------------------------------------------------

/// One item of the speed bar chart: the baseline plus each headline subject's
/// relative speed (`100 × baseline_time / subject_time`).
#[derive(Debug, Clone, PartialEq)]
pub struct SpeedBarItem {
    pub item: String,
    /// `(subject, percent)`, baseline first.
    pub bars: Vec<(String, Double)>,
}

/// A legend entry.
#[derive(Debug, Clone, PartialEq)]
pub struct Swatch {
    pub subject: String,
    pub color: Rgb,
}

/// A bar: where it stands, how long it is, what it says.
#[derive(Debug, Clone, PartialEq)]
pub struct Bar {
    pub y: Double,
    pub percent: Double,
    pub text: String,
    pub color: Rgb,
}

/// A grouped horizontal bar chart, one group per item, item 0 at the top, with
/// the legend in a panel right of the plot.
#[derive(Debug, Clone, PartialEq)]
pub struct SpeedBarsChart {
    pub title: String,
    pub x_desc: String,
    pub height: u32,
    pub legend_width: u32,
    /// Right end of the percent axis.
    pub x_max: Double,
    /// Top of the band axis.
    pub total: Double,
    /// The items, and the band positions they are named at.
    pub labels: Vec<(String, Double)>,
    /// The bars of each item.
    pub bars: Vec<Vec<Bar>>,
    pub legend: Vec<Swatch>,
}

/// The subjects of a list of bars, without those met before.
pub open spec fn new_subjects(bars: Seq<(String, Double)>, met: Seq<Seq<char>>) -> Seq<Seq<char>>
    decreases bars.len(),
{
    if bars.len() == 0 {
        met
    } else {
        let before = new_subjects(bars.drop_last(), met);
        if before.contains(bars.last().0@) {
            before
        } else {
            before.push(bars.last().0@)
        }
    }
}

/// The subjects of the items, in order of first appearance.
pub open spec fn legend_subjects(items: Seq<SpeedBarItem>) -> Seq<Seq<char>>
    decreases items.len(),
{
    if items.len() == 0 {
        Seq::empty()
    } else {
        new_subjects(items.last().bars@, legend_subjects(items.drop_last()))
    }
}

/// The largest percent of a list of bars, or what it was before.
pub open spec fn bars_max(bars: Seq<(String, Double)>, so_far: Double) -> Double
    decreases bars.len(),
{
    if bars.len() == 0 {
        so_far
    } else {
        bars_max(bars.drop_last(), so_far).max_spec(bars.last().1)
    }
}

/// The largest percent of all bars, 100 at least.
pub open spec fn items_max(items: Seq<SpeedBarItem>) -> Double
    decreases items.len(),
{
    if items.len() == 0 {
        Double { bits: double::HUNDRED }
    } else {
        bars_max(items.last().bars@, items_max(items.drop_last()))
    }
}

/// A whole number as a double.
pub open spec fn whole(n: nat) -> Double {
    Double::from_nat_spec(n)
}

/// How many slots a band has: one per subject, and a gap.
pub open spec fn band_spec(subjects: nat) -> Double {
    whole(
        if subjects == 0 {
            1
        } else {
            subjects
        },
    ).add_spec(Double { bits: double::ONE })
}

/// The lowest position of item `i` of `n`.
pub open spec fn base_spec(i: int, n: nat, subjects: nat) -> Double {
    whole((n - 1 - i) as nat).mul_spec(band_spec(subjects))
}

/// The middle of item `i`'s band.
pub open spec fn center_spec(i: int, n: nat, subjects: nat) -> Double {
    base_spec(i, n, subjects).add_spec(
        whole(subjects).sub_spec(Double { bits: double::ONE }).div_spec(
            Double { bits: double::TWO },
        ),
    )
}

/// Which slot, from the bottom, bar `b` of a band with `subjects` slots takes.
pub open spec fn bar_slot(b: int, subjects: nat) -> nat {
    let at = if b < subjects - 1 {
        b
    } else {
        subjects - 1
    };
    (subjects - 1 - at) as nat
}

pub open spec fn clamp(v: int, lo: int, hi: int) -> int {
    if v < lo {
        lo
    } else if v > hi {
        hi
    } else {
        v
    }
}

/// How many bytes a text takes.
pub open spec fn byte_len(s: Seq<char>) -> nat {
    encode_utf8(s).len()
}

/// The most bytes that one of the texts takes.
pub open spec fn widest(texts: Seq<Seq<char>>) -> nat
    decreases texts.len(),
{
    if texts.len() == 0 {
        0
    } else {
        let before = widest(texts.drop_last());
        if byte_len(texts.last()) > before {
            byte_len(texts.last())
        } else {
            before
        }
    }
}

fn widest_of(texts: &Vec<String>) -> (r: usize)
    ensures
        r == widest(text::views(texts@)),
{
    let ghost all = text::views(texts@);
    let mut most: usize = 0;
    let mut i: usize = 0;
    while i < texts.len()
        invariant
            all == text::views(texts@),
            i <= texts@.len(),
            most == widest(all.take(i as int)),
        decreases texts@.len() - i,
    {
        let n: usize = texts[i].as_str().as_bytes().len();
        proof {
            assert(all.take(i + 1).drop_last() =~= all.take(i as int));
            assert(all.take(i + 1).last() == texts@[i as int]@);
        }
        if n > most {
            most = n;
        }
        i = i + 1;
    }
    assert(all.take(all.len() as int) =~= all);
    most
}

/// `clamp(a + n * step, lo, hi)`, doubled for supersampling.
fn panel_size(a: u32, n: usize, step: u32, lo: u32, hi: u32) -> (r: u32)
    requires
        a <= 1000,
        1 <= step <= 1000,
        lo <= hi <= 10000,
    ensures
        r == clamp(a + n * step, lo as int, hi as int) * SS,
{
    if n > 10000 {
        assert(n * step > 10000) by (nonlinear_arith)
            requires
                n > 10000,
                step >= 1,
        ;
        return hi * SS;
    }
    assert(n * step <= 10000 * 1000) by (nonlinear_arith)
        requires
            n <= 10000,
            step <= 1000,
    ;
    let v: u32 = a + n as u32 * step;
    if v < lo {
        lo * SS
    } else if v > hi {
        hi * SS
    } else {
        v * SS
    }
}

/// Is `chart` the bar chart of the items?
pub open spec fn is_speed_bars(
    chart: SpeedBarsChart,
    items: Seq<SpeedBarItem>,
    colors: SubjectColors,
) -> bool {
    let subjects = legend_subjects(items);
    let l = subjects.len();
    let n = items.len();
    &&& chart.height == clamp((150 + n * (l * 22 + 14)) as int, 300, 2200) * SS
    &&& chart.legend_width == clamp((60 + widest(subjects) * 8) as int, 140, 320) * SS
    &&& chart.x_max == items_max(items).mul_spec(Double { bits: HEADROOM }).max_spec(
        Double { bits: LEAST_PERCENT_RANGE },
    )
    &&& chart.total == whole(n).mul_spec(band_spec(l)).sub_spec(Double { bits: double::ONE })
    &&& chart.labels@.len() == n
    &&& forall|i: int|
        0 <= i < n ==> (#[trigger] chart.labels@[i]).0@ == items[i].item@ && chart.labels@[i].1
            == center_spec(i, n, l)
    &&& chart.bars@.len() == n
    &&& forall|i: int| 0 <= i < n ==> (#[trigger] chart.bars@[i])@.len() == items[i].bars@.len()
    &&& forall|i: int, b: int|
        0 <= i < n && 0 <= b < items[i].bars@.len() ==> is_bar(
            #[trigger] chart.bars@[i]@[b],
            items[i].bars@[b],
            base_spec(i, n, l),
            bar_slot(b, l),
            colors,
        )
    &&& chart.legend@.len() == l
    &&& forall|k: int|
        0 <= k < l ==> (#[trigger] chart.legend@[k]).subject@ == subjects[k]
            && chart.legend@[k].color == colors.color_spec(subjects[k])
}

/// Is `bar` the bar of a subject's percent, in a slot above `base`?
pub open spec fn is_bar(
    bar: Bar,
    entry: (String, Double),
    base: Double,
    slot: nat,
    colors: SubjectColors,
) -> bool {
    &&& bar.y == base.add_spec(whole(slot))
    &&& bar.percent == entry.1
    &&& bar.text@ == entry.1.fixed_spec(0, false) + "%"@
    &&& bar.color == colors.color_spec(entry.0@)
}

/// The legend's subjects, in order of first appearance.
fn legend_of(items: &[SpeedBarItem]) -> (r: Vec<String>)
    ensures
        text::views(r@) == legend_subjects(items@),
{
    let mut out: Vec<String> = Vec::new();
    let mut i: usize = 0;
    assert(text::views(out@) =~= legend_subjects(items@.take(0)));
    while i < items.len()
        invariant
            i <= items@.len(),
            text::views(out@) == legend_subjects(items@.take(i as int)),
        decreases items@.len() - i,
    {
        proof {
            assert(items@.take(i + 1).drop_last() =~= items@.take(i as int));
            assert(items@.take(i + 1).last() == items@[i as int]);
        }
        let bars: &Vec<(String, Double)> = &items[i].bars;
        let ghost met = text::views(out@);
        let mut b: usize = 0;
        while b < bars.len()
            invariant
                b <= bars@.len(),
                text::views(out@) == new_subjects(bars@.take(b as int), met),
            decreases bars@.len() - b,
        {
            proof {
                assert(bars@.take(b + 1).drop_last() =~= bars@.take(b as int));
                assert(bars@.take(b + 1).last() == bars@[b as int]);
            }
            let subject: &String = &bars[b].0;
            if !text::contains(&out, subject.as_str()) {
                let s: String = subject.clone();
                proof {
                    text::lemma_views_push(out@, s);
                }
                out.push(s);
            }
            b = b + 1;
        }
        assert(bars@.take(bars@.len() as int) =~= bars@);
        i = i + 1;
    }
    assert(items@.take(items@.len() as int) =~= items@);
    out
}

fn max_percent(items: &[SpeedBarItem]) -> (r: Double)
    ensures
        r == items_max(items@),
{
    let mut most: Double = Double::from_bits(double::HUNDRED);
    let mut i: usize = 0;
    while i < items.len()
        invariant
            i <= items@.len(),
            most == items_max(items@.take(i as int)),
        decreases items@.len() - i,
    {
        proof {
            assert(items@.take(i + 1).drop_last() =~= items@.take(i as int));
            assert(items@.take(i + 1).last() == items@[i as int]);
        }
        let bars: &Vec<(String, Double)> = &items[i].bars;
        let ghost before = most;
        let mut b: usize = 0;
        while b < bars.len()
            invariant
                b <= bars@.len(),
                most == bars_max(bars@.take(b as int), before),
            decreases bars@.len() - b,
        {
            proof {
                assert(bars@.take(b + 1).drop_last() =~= bars@.take(b as int));
                assert(bars@.take(b + 1).last() == bars@[b as int]);
            }
            most = most.max(bars[b].1);
            b = b + 1;
        }
        assert(bars@.take(bars@.len() as int) =~= bars@);
        i = i + 1;
    }
    assert(items@.take(items@.len() as int) =~= items@);
    most
}

/// Every subject of a bar is in the legend.
proof fn lemma_legend_not_empty(items: Seq<SpeedBarItem>, i: int)
    requires
        0 <= i < items.len(),
        items[i].bars@.len() > 0,
    ensures
        legend_subjects(items).len() > 0,
    decreases items.len(),
{
    let last = items.last().bars@;
    lemma_new_subjects_grow(last, legend_subjects(items.drop_last()));
    if i < items.len() - 1 {
        lemma_legend_not_empty(items.drop_last(), i);
    }
}

proof fn lemma_new_subjects_grow(bars: Seq<(String, Double)>, met: Seq<Seq<char>>)
    ensures
        new_subjects(bars, met).len() >= met.len(),
        bars.len() > 0 ==> new_subjects(bars, met).len() > 0,
    decreases bars.len(),
{
    if bars.len() > 0 {
        lemma_new_subjects_grow(bars.drop_last(), met);
        let before = new_subjects(bars.drop_last(), met);
        if before.contains(bars.last().0@) {
            assert(before.len() > 0);
        }
    }
}

/// The bars of one item.
fn item_bars(
    item: &SpeedBarItem,
    base: Double,
    subjects: usize,
    colors: &SubjectColors,
) -> (r: Vec<Bar>)
    requires
        item.bars@.len() > 0 ==> subjects > 0,
    ensures
        r@.len() == item.bars@.len(),
        forall|b: int|
            0 <= b < r@.len() ==> is_bar(
                #[trigger] r@[b],
                item.bars@[b],
                base,
                bar_slot(b, subjects as nat),
                *colors,
            ),
{
    let mut out: Vec<Bar> = Vec::new();
    let mut b: usize = 0;
    while b < item.bars.len()
        invariant
            item.bars@.len() > 0 ==> subjects > 0,
            b <= item.bars@.len(),
            out@.len() == b,
            forall|k: int|
                0 <= k < b ==> is_bar(
                    #[trigger] out@[k],
                    item.bars@[k],
                    base,
                    bar_slot(k, subjects as nat),
                    *colors,
                ),
        decreases item.bars@.len() - b,
    {
        let subject: &String = &item.bars[b].0;
        let percent: Double = item.bars[b].1;
        let at: usize = if b < subjects - 1 {
            b
        } else {
            subjects - 1
        };
        let slot: usize = subjects - 1 - at;
        out.push(
            Bar {
                y: base.plus(Double::from_u64(slot as u64)),
                percent,
                text: text::cat2(percent.fixed(0, false).as_str(), "%"),
                color: colors.color(subject.as_str()),
            },
        );
        b = b + 1;
    }
    out
}

/// Lays out the bar chart of the items. The legend lists the subjects in order
/// of first appearance, which also fixes each band's slot count.
pub fn render_speed_bars(
    title: &str,
    x_desc: &str,
    items: &[SpeedBarItem],
    colors: &SubjectColors,
) -> (r: Result<SpeedBarsChart, String>)
    ensures
        match r {
            Ok(chart) => items@.len() > 0 && chart.title@ == title@ && chart.x_desc@ == x_desc@
                && is_speed_bars(chart, items@, *colors),
            Err(e) => items@.len() == 0 && e@ == "no items to render speed bars for"@,
        },
{
    let n: usize = items.len();
    if n == 0 {
        return Err("no items to render speed bars for".to_string());
    }
    let subjects: Vec<String> = legend_of(items);
    let l: usize = subjects.len();
    let slots: usize = if l == 0 {
        1
    } else {
        l
    };
    let one: Double = Double::from_bits(double::ONE);
    let band: Double = Double::from_u64(slots as u64).plus(one);
    let total: Double = Double::from_u64(n as u64).times(band).minus(one);
    let x_max: Double = max_percent(items).times(Double::from_bits(HEADROOM)).max(
        Double::from_bits(LEAST_PERCENT_RANGE),
    );
    let height: u32 = if l > 10000 {
        proof {
            assert(n * (l * 22 + 14) > 2200) by (nonlinear_arith)
                requires
                    n >= 1,
                    l > 10000,
            ;
        }
        2200 * SS
    } else {
        let step: usize = l * 22 + 14;
        if n > 10000 {
            proof {
                assert(n * (l * 22 + 14) > 2200) by (nonlinear_arith)
                    requires
                        n > 10000,
                        l >= 0,
                ;
            }
            2200 * SS
        } else {
            assert(n * step <= 10000 * 220014) by (nonlinear_arith)
                requires
                    n <= 10000,
                    step <= 220014,
            ;
            let v: u64 = 150 + n as u64 * step as u64;
            let c: u64 = if v < 300 {
                300
            } else if v > 2200 {
                2200
            } else {
                v
            };
            c as u32 * SS
        }
    };
    let middle: Double = Double::from_u64(l as u64).minus(one).over(
        Double::from_bits(double::TWO),
    );
    let mut labels: Vec<(String, Double)> = Vec::new();
    let mut bars: Vec<Vec<Bar>> = Vec::new();
    let mut i: usize = 0;
    while i < n
        invariant
            i <= n,
            n == items@.len(),
            l == legend_subjects(items@).len(),
            band == band_spec(l as nat),
            middle == whole(l as nat).sub_spec(Double { bits: double::ONE }).div_spec(
                Double { bits: double::TWO },
            ),
            labels@.len() == i,
            bars@.len() == i,
            forall|k: int|
                0 <= k < i ==> (#[trigger] labels@[k]).0@ == items@[k].item@ && labels@[k].1
                    == center_spec(k, n as nat, l as nat),
            forall|k: int|
                0 <= k < i ==> (#[trigger] bars@[k])@.len() == items@[k].bars@.len(),
            forall|k: int, b: int|
                0 <= k < i && 0 <= b < items@[k].bars@.len() ==> is_bar(
                    #[trigger] bars@[k]@[b],
                    items@[k].bars@[b],
                    base_spec(k, n as nat, l as nat),
                    bar_slot(b, l as nat),
                    *colors,
                ),
        decreases n - i,
    {
        let base: Double = Double::from_u64((n - 1 - i) as u64).times(band);
        proof {
            if items@[i as int].bars@.len() > 0 {
                lemma_legend_not_empty(items@, i as int);
            }
        }
        labels.push((items[i].item.clone(), base.plus(middle)));
        bars.push(item_bars(&items[i], base, l, colors));
        i = i + 1;
    }
    let mut legend: Vec<Swatch> = Vec::new();
    let mut k: usize = 0;
    while k < l
        invariant
            k <= l,
            l == subjects@.len(),
            legend@.len() == k,
            forall|j: int|
                0 <= j < k ==> (#[trigger] legend@[j]).subject@ == text::views(subjects@)[j]
                    && legend@[j].color == colors.color_spec(text::views(subjects@)[j]),
        decreases l - k,
    {
        legend.push(
            Swatch { subject: subjects[k].clone(), color: colors.color(subjects[k].as_str()) },
        );
        k = k + 1;
    }
    Ok(
        SpeedBarsChart {
            title: title.to_string(),
            x_desc: x_desc.to_string(),
            height,
            legend_width: panel_size(60, widest_of(&subjects), 8, 140, 320),
            x_max,
            total,
            labels,
            bars,
            legend,
        },
    )
}

// ---------------------------------------------------------------------------
// Violins
// ---------------------------------------------------------------------------

/// One subject's violin: its label, where it stands and what its body, whisker
/// and mean tick are drawn from.
#[derive(Debug, Clone, PartialEq)]
pub struct Violin {
    pub label: String,
    pub color: Rgb,
    pub y: Double,
    /// Per-call µs samples.
    pub samples_us: Vec<Double>,
    pub lo: Double,
    pub hi: Double,
    pub mean: Double,
    /// Where the density is evaluated: 201 points from `lo` to `hi`.
    pub grid: Vec<Double>,
}

/// A horizontal violin plot, one violin per subject, the first one at the top.
#[derive(Debug, Clone, PartialEq)]
pub struct ViolinChart {
    pub title: String,
    pub height: u32,
    pub x_lo: Double,
    pub x_hi: Double,
    pub violins: Vec<Violin>,
}

/// Nanoseconds as microseconds.
pub open spec fn in_us(samples: Seq<Double>) -> Seq<Double> {
    samples.map_values(|ns: Double| ns.div_spec(Double { bits: double::THOUSAND }))
}

pub open spec fn least(samples: Seq<Double>, so_far: Double) -> Double
    decreases samples.len(),
{
    if samples.len() == 0 {
        so_far
    } else {
        least(samples.drop_last(), so_far).min_spec(samples.last())
    }
}

pub open spec fn most(samples: Seq<Double>, so_far: Double) -> Double
    decreases samples.len(),
{
    if samples.len() == 0 {
        so_far
    } else {
        most(samples.drop_last(), so_far).max_spec(samples.last())
    }
}

pub open spec fn plus_inf() -> Double {
    Double { bits: double::INF }
}

pub open spec fn minus_inf() -> Double {
    double::signed(true, double::INF)
}

/// The sum of a non-empty list, from the front.
pub open spec fn sum(samples: Seq<Double>) -> Double
    decreases samples.len(),
{
    if samples.len() <= 1 {
        samples[0]
    } else {
        sum(samples.drop_last()).add_spec(samples.last())
    }
}

pub open spec fn mean_spec(samples: Seq<Double>) -> Double {
    sum(samples).div_spec(whole(samples.len()))
}

/// The coefficient of variation in percent; zero where the mean is zero.
pub open spec fn cv_spec(std_dev_ns: Double, mean_us: Double) -> Double {
    if mean_us.zero() {
        Double { bits: 0 }
    } else {
        std_dev_ns.div_spec(Double { bits: double::THOUSAND }).div_spec(mean_us).mul_spec(
            Double { bits: double::HUNDRED },
        )
    }
}

/// `<subject> (<mean> µs, CV <cv>%)`.
pub open spec fn violin_label(row: Row) -> Seq<char> {
    let mean = mean_spec(in_us(row.samples_ns@));
    row.subject@ + " ("@ + mean.fixed_spec(2, false) + " µs, CV "@ + cv_spec(
        row.std_dev_ns,
        mean,
    ).fixed_spec(1, false) + "%)"@
}

/// The `k`-th of 201 points from `lo` to `hi`.
pub open spec fn grid_point(lo: Double, hi: Double, k: nat) -> Double {
    lo.add_spec(hi.sub_spec(lo).mul_spec(whole(k)).div_spec(Double { bits: GRID_STEPS }))
}

/// Is `v` the violin of a row, `above` places from the bottom?
pub open spec fn is_violin(v: Violin, row: Row, above: nat, colors: SubjectColors) -> bool {
    let us = in_us(row.samples_ns@);
    &&& v.label@ == violin_label(row)
    &&& v.color == colors.color_spec(row.subject@)
    &&& v.y == whole(above)
    &&& v.samples_us@ == us
    &&& v.lo == least(us, plus_inf())
    &&& v.hi == most(us, minus_inf())
    &&& v.mean == mean_spec(us)
    &&& v.grid@ == Seq::new(201, |k: int| grid_point(v.lo, v.hi, k as nat))
}

/// The least sample of all picked rows.
pub open spec fn rows_least(rows: Seq<Row>, picked: Seq<usize>) -> Double
    decreases picked.len(),
{
    if picked.len() == 0 {
        plus_inf()
    } else {
        least(
            in_us(rows[picked.last() as int].samples_ns@),
            rows_least(rows, picked.drop_last()),
        )
    }
}

/// The greatest sample of all picked rows.
pub open spec fn rows_most(rows: Seq<Row>, picked: Seq<usize>) -> Double
    decreases picked.len(),
{
    if picked.len() == 0 {
        minus_inf()
    } else {
        most(in_us(rows[picked.last() as int].samples_ns@), rows_most(rows, picked.drop_last()))
    }
}

/// How far the value axis goes past the samples.
pub open spec fn violin_pad(x_min: Double, x_max: Double) -> Double {
    x_max.sub_spec(x_min).mul_spec(Double { bits: VIOLIN_PAD }).max_spec(
        x_max.abs_spec().mul_spec(Double { bits: THOUSANDTH }),
    ).max_spec(Double { bits: TINY })
}

/// Why a violin plot of the picked rows cannot be had.
pub open spec fn violin_fault(rows: Seq<Row>, picked: Seq<usize>) -> Option<Seq<char>> {
    if picked.len() == 0 {
        Some("no rows to render a violin for"@)
    } else if exists|i: int|
        0 <= i < picked.len() && rows[(#[trigger] picked[i]) as int].samples_ns@.len() == 0 {
        Some("a row has no samples"@)
    } else {
        None
    }
}

/// Is `chart` the violin plot of the picked rows?
pub open spec fn is_violin_chart(
    chart: ViolinChart,
    rows: Seq<Row>,
    picked: Seq<usize>,
    colors: SubjectColors,
) -> bool {
    let n = picked.len();
    let (x_min, x_max) = (rows_least(rows, picked), rows_most(rows, picked));
    &&& chart.height == clamp((120 + n * 110) as int, 260, 1200) * SS
    &&& chart.x_lo == x_min.sub_spec(violin_pad(x_min, x_max))
    &&& chart.x_hi == x_max.add_spec(violin_pad(x_min, x_max))
    &&& chart.violins@.len() == n
    &&& forall|i: int|
        0 <= i < n ==> is_violin(
            #[trigger] chart.violins@[i],
            rows[picked[i] as int],
            (n - 1 - i) as nat,
            colors,
        )
}

fn samples_in_us(samples: &Vec<Double>) -> (r: Vec<Double>)
    ensures
        r@ == in_us(samples@),
{
    let mut out: Vec<Double> = Vec::new();
    let mut i: usize = 0;
    while i < samples.len()
        invariant
            i <= samples@.len(),
            out@ == in_us(samples@).take(i as int),
        decreases samples@.len() - i,
    {
        let us: Double = samples[i].over(Double::from_bits(double::THOUSAND));
        out.push(us);
        proof {
            let all = in_us(samples@);
            assert(all[i as int] == us);
            assert(all.take(i + 1) =~= all.take(i as int).push(us));
        }
        i = i + 1;
    }
    proof {
        let all = in_us(samples@);
        assert(all.take(all.len() as int) =~= all);
    }
    out
}

fn least_of(samples: &Vec<Double>, so_far: Double) -> (r: Double)
    ensures
        r == least(samples@, so_far),
{
    let mut r: Double = so_far;
    let mut i: usize = 0;
    while i < samples.len()
        invariant
            i <= samples@.len(),
            r == least(samples@.take(i as int), so_far),
        decreases samples@.len() - i,
    {
        proof {
            assert(samples@.take(i + 1).drop_last() =~= samples@.take(i as int));
            assert(samples@.take(i + 1).last() == samples@[i as int]);
        }
        r = r.min(samples[i]);
        i = i + 1;
    }
    assert(samples@.take(samples@.len() as int) =~= samples@);
    r
}

fn most_of(samples: &Vec<Double>, so_far: Double) -> (r: Double)
    ensures
        r == most(samples@, so_far),
{
    let mut r: Double = so_far;
    let mut i: usize = 0;
    while i < samples.len()
        invariant
            i <= samples@.len(),
            r == most(samples@.take(i as int), so_far),
        decreases samples@.len() - i,
    {
        proof {
            assert(samples@.take(i + 1).drop_last() =~= samples@.take(i as int));
            assert(samples@.take(i + 1).last() == samples@[i as int]);
        }
        r = r.max(samples[i]);
        i = i + 1;
    }
    assert(samples@.take(samples@.len() as int) =~= samples@);
    r
}

fn mean_of(samples: &Vec<Double>) -> (r: Double)
    requires
        samples@.len() > 0,
    ensures
        r == mean_spec(samples@),
{
    let n: usize = samples.len();
    let mut total: Double = samples[0];
    let mut i: usize = 1;
    while i < n
        invariant
            1 <= i <= n,
            n == samples@.len(),
            total == sum(samples@.take(i as int)),
        decreases n - i,
    {
        proof {
            assert(samples@.take(i + 1).drop_last() =~= samples@.take(i as int));
            assert(samples@.take(i + 1).last() == samples@[i as int]);
        }
        total = total.plus(samples[i]);
        i = i + 1;
    }
    assert(samples@.take(n as int) =~= samples@);
    total.over(Double::from_u64(n as u64))
}

/// One row's violin, `above` places from the bottom.
fn violin_of(row: &Row, above: usize, colors: &SubjectColors) -> (v: Violin)
    requires
        row.samples_ns@.len() > 0,
    ensures
        is_violin(v, *row, above as nat, *colors),
{
    let samples_us: Vec<Double> = samples_in_us(&row.samples_ns);
    let mean: Double = mean_of(&samples_us);
    let cv: Double = if mean.bits % double::SIGN == 0 {
        Double::from_bits(0)
    } else {
        row.std_dev_ns.over(Double::from_bits(double::THOUSAND)).over(mean).times(
            Double::from_bits(double::HUNDRED),
        )
    };
    let label: String = text::cat6(
        row.subject.as_str(),
        " (",
        mean.fixed(2, false).as_str(),
        " µs, CV ",
        cv.fixed(1, false).as_str(),
        "%)",
    );
    let lo: Double = least_of(&samples_us, Double::from_bits(double::INF));
    let hi: Double = most_of(&samples_us, Double::from_bits(double::INF).negate());
    let mut grid: Vec<Double> = Vec::new();
    let mut k: usize = 0;
    let ghost all = Seq::new(201, |k: int| grid_point(lo, hi, k as nat));
    while k < 201
        invariant
            k <= 201,
            all == Seq::new(201, |k: int| grid_point(lo, hi, k as nat)),
            grid@ == all.take(k as int),
        decreases 201 - k,
    {
        let p: Double = lo.plus(
            hi.minus(lo).times(Double::from_u64(k as u64)).over(Double::from_bits(GRID_STEPS)),
        );
        grid.push(p);
        proof {
            assert(all[k as int] == p);
            assert(all.take(k + 1) =~= all.take(k as int).push(p));
        }
        k = k + 1;
    }
    assert(all.take(201) =~= all);
    Violin {
        label,
        color: colors.color(row.subject.as_str()),
        y: Double::from_u64(above as u64),
        samples_us,
        lo,
        hi,
        mean,
        grid,
    }
}

/// Lays out the violin plot of one `(group, workload)`: one violin per picked
/// row, x = per-call time in µs.
pub fn render_violin(
    title: &str,
    rows: &[Row],
    picked: &Vec<usize>,
    colors: &SubjectColors,
) -> (r: Result<ViolinChart, String>)
    requires
        forall|i: int| 0 <= i < picked@.len() ==> (#[trigger] picked@[i]) < rows@.len(),
    ensures
        match r {
            Ok(chart) => violin_fault(rows@, picked@) is None && chart.title@ == title@
                && is_violin_chart(chart, rows@, picked@, *colors),
            Err(e) => violin_fault(rows@, picked@) == Some(e@),
        },
{
    let n: usize = picked.len();
    if n == 0 {
        return Err("no rows to render a violin for".to_string());
    }
    let mut i: usize = 0;
    while i < n
        invariant
            i <= n,
            n == picked@.len(),
            n > 0,
            forall|k: int| 0 <= k < picked@.len() ==> (#[trigger] picked@[k]) < rows@.len(),
            forall|k: int|
                0 <= k < i ==> rows@[(#[trigger] picked@[k]) as int].samples_ns@.len() > 0,
        decreases n - i,
    {
        if rows[picked[i]].samples_ns.len() == 0 {
            assert(rows@[picked@[i as int] as int].samples_ns@.len() == 0);
            return Err("a row has no samples".to_string());
        }
        i = i + 1;
    }
    let mut x_min: Double = Double::from_bits(double::INF);
    let mut x_max: Double = Double::from_bits(double::INF).negate();
    let mut violins: Vec<Violin> = Vec::new();
    let mut j: usize = 0;
    while j < n
        invariant
            j <= n,
            n == picked@.len(),
            forall|k: int| 0 <= k < picked@.len() ==> (#[trigger] picked@[k]) < rows@.len(),
            forall|k: int|
                0 <= k < n ==> rows@[(#[trigger] picked@[k]) as int].samples_ns@.len() > 0,
            x_min == rows_least(rows@, picked@.take(j as int)),
            x_max == rows_most(rows@, picked@.take(j as int)),
            violins@.len() == j,
            forall|k: int|
                0 <= k < j ==> is_violin(
                    #[trigger] violins@[k],
                    rows@[picked@[k] as int],
                    (n - 1 - k) as nat,
                    *colors,
                ),
        decreases n - j,
    {
        let row: &Row = &rows[picked[j]];
        proof {
            assert(picked@.take(j + 1).drop_last() =~= picked@.take(j as int));
            assert(picked@.take(j + 1).last() == picked@[j as int]);
            assert(row.samples_ns@.len() > 0);
        }
        let v: Violin = violin_of(row, n - 1 - j, colors);
        x_min = least_of(&v.samples_us, x_min);
        x_max = most_of(&v.samples_us, x_max);
        violins.push(v);
        j = j + 1;
    }
    assert(picked@.take(picked@.len() as int) =~= picked@);
    let pad: Double = x_max.minus(x_min).times(Double::from_bits(VIOLIN_PAD)).max(
        x_max.abs().times(Double::from_bits(THOUSANDTH)),
    ).max(Double::from_bits(TINY));
    Ok(
        ViolinChart {
            title: title.to_string(),
            height: panel_size(120, n, 110, 260, 1200),
            x_lo: x_min.minus(pad),
            x_hi: x_max.plus(pad),
            violins,
        },
    )
}

// ---------------------------------------------------------------------------
// Trends
// ---------------------------------------------------------------------------

/// One trend series: a row's ratio across a window's commits (an absent ratio
/// skips that commit's point).
#[derive(Debug, Clone, PartialEq)]
pub struct TrendSeries {
    pub label: String,
    pub ratios: Vec<Option<Double>>,
    /// Same length as `ratios` (or empty = no markers): marks a point that
    /// tripped the regression threshold vs the window's prior median.
    pub alerts: Vec<bool>,
}

/// A point of a trend line: the commit's place in the window, and the ratio.
#[derive(Debug, Clone, Copy, PartialEq, Eq, Structural)]
pub struct TrendPoint {
    pub x: usize,
    pub ratio: Double,
}

/// A trend line: color and marker shape follow its palette slot.
#[derive(Debug, Clone, PartialEq)]
pub struct TrendLine {
    pub label: String,
    pub color: Rgb,
    /// Marker shape, one of four.
    pub shape: usize,
    pub points: Vec<TrendPoint>,
    /// The points that tripped the regression threshold.
    pub rings: Vec<TrendPoint>,
    /// The legend's value column: the last ratio, or a dash.
    pub last: String,
}

/// A trend chart: headline-row ratios over the last commits.
#[derive(Debug, Clone, PartialEq)]
pub struct TrendPlot {
    pub title: String,
    pub y_desc: String,
    pub legend_width: u32,
    pub y_lo: Double,
    pub y_hi: Double,
    /// Is the 1.0× line inside the range?
    pub parity: bool,
    pub commit_labels: Vec<String>,
    pub lines: Vec<TrendLine>,
    /// The lines in the order of the legend.
    pub legend: Vec<usize>,
}

/// The points of a series.
pub open spec fn points_spec(ratios: Seq<Option<Double>>) -> Seq<TrendPoint>
    decreases ratios.len(),
{
    if ratios.len() == 0 {
        Seq::empty()
    } else {
        let before = points_spec(ratios.drop_last());
        match ratios.last() {
            Some(ratio) => before.push(TrendPoint { x: (ratios.len() - 1) as usize, ratio }),
            None => before,
        }
    }
}

/// The points of a series that carry an alert.
pub open spec fn rings_spec(ratios: Seq<Option<Double>>, alerts: Seq<bool>) -> Seq<TrendPoint>
    decreases ratios.len(),
{
    if ratios.len() == 0 {
        Seq::empty()
    } else {
        let before = rings_spec(ratios.drop_last(), alerts);
        let x = ratios.len() - 1;
        match ratios.last() {
            Some(ratio) => if x < alerts.len() && alerts[x] {
                before.push(TrendPoint { x: x as usize, ratio })
            } else {
                before
            },
            None => before,
        }
    }
}

/// The last ratio of a series.
pub open spec fn last_value(ratios: Seq<Option<Double>>) -> Option<Double>
    decreases ratios.len(),
{
    if ratios.len() == 0 {
        None
    } else {
        match ratios.last() {
            Some(r) => Some(r),
            None => last_value(ratios.drop_last()),
        }
    }
}

/// What the legend shows as a series' value.
pub open spec fn last_text(ratios: Seq<Option<Double>>) -> Seq<char> {
    match last_value(ratios) {
        Some(v) => v.fixed_spec(2, false) + "×"@,
        None => "—"@,
    }
}

/// Where a double stands in the total order of doubles: minus zero below zero,
/// NaNs at the ends.
pub open spec fn total_place(d: Double) -> int {
    if d.neg() {
        -(d.mag() as int) - 1
    } else {
        d.mag() as int
    }
}

/// Where a series stands in the legend order: by its last value.
pub open spec fn legend_place(ratios: Seq<Option<Double>>) -> int {
    match last_value(ratios) {
        Some(v) => total_place(v),
        None => total_place(minus_inf()),
    }
}

/// Does series `i` take a palette slot before series `j`? By label, and by
/// place among equal labels.
pub open spec fn slots_before(series: Seq<TrendSeries>, i: int, j: int) -> bool {
    text::lex_lt(series[i].label@, series[j].label@) || (series[i].label@ == series[j].label@ && i
        < j)
}

/// Does series `i` come before series `j` in the legend? By last value
/// descending, and by place among equal values.
pub open spec fn listed_before(series: Seq<TrendSeries>, i: int, j: int) -> bool {
    let a = legend_place(series[i].ratios@);
    let b = legend_place(series[j].ratios@);
    a > b || (a == b && i < j)
}

/// Is `order` the numbers below `n`, each once, as `before` has them?
pub open spec fn is_ranking(order: Seq<usize>, n: nat, before: spec_fn(int, int) -> bool) -> bool {
    &&& order.len() == n
    &&& forall|p: int| 0 <= p < n ==> (#[trigger] order[p]) < n
    &&& forall|p: int, q: int|
        0 <= p < q < n ==> (#[trigger] order[p]) != (#[trigger] order[q]) && before(
            order[p] as int,
            order[q] as int,
        )
}

/// The least of all ratios.
pub open spec fn series_least(series: Seq<TrendSeries>) -> Double
    decreases series.len(),
{
    if series.len() == 0 {
        plus_inf()
    } else {
        least(ratios_there(series.last().ratios@), series_least(series.drop_last()))
    }
}

/// The greatest of all ratios.
pub open spec fn series_most(series: Seq<TrendSeries>) -> Double
    decreases series.len(),
{
    if series.len() == 0 {
        minus_inf()
    } else {
        most(ratios_there(series.last().ratios@), series_most(series.drop_last()))
    }
}

/// The ratios that are there, in order.
pub open spec fn ratios_there(ratios: Seq<Option<Double>>) -> Seq<Double> {
    points_spec(ratios).map_values(|p: TrendPoint| p.ratio)
}

/// Has some series a point?
pub open spec fn any_point(series: Seq<TrendSeries>) -> bool {
    exists|i: int| 0 <= i < series.len() && points_spec((#[trigger] series[i]).ratios@).len() > 0
}

/// Why a trend chart cannot be had.
pub open spec fn plot_fault(labels: nat, series: Seq<TrendSeries>) -> Option<Seq<char>> {
    if series.len() == 0 || labels == 0 {
        Some("no trend data to render"@)
    } else if !any_point(series) {
        Some("trend series contain no ratio points"@)
    } else {
        None
    }
}

/// How tall the value axis is taken to be: the data's span, with a minimum so
/// that a flat window does not zoom into noise.
pub open spec fn span_spec(y_min: Double, y_max: Double) -> Double {
    y_max.sub_spec(y_min).max_spec(y_max.abs_spec().mul_spec(Double { bits: LEAST_SPAN })).max_spec(
        Double { bits: TINY },
    )
}

/// Is `line` the line of a series in a palette slot?
pub open spec fn is_line(line: TrendLine, s: TrendSeries, slot: nat) -> bool {
    &&& line.label@ == s.label@
    &&& line.color == series_color_spec(slot)
    &&& line.shape == slot % 4
    &&& line.points@ == points_spec(s.ratios@)
    &&& line.rings@ == rings_spec(s.ratios@, s.alerts@)
    &&& line.last@ == last_text(s.ratios@)
}

/// How many series take a slot before series `i`.
pub open spec fn slot_of(series: Seq<TrendSeries>, i: int, n: nat) -> nat
    decreases n,
{
    if n == 0 {
        0
    } else {
        slot_of(series, i, (n - 1) as nat) + if slots_before(series, n - 1, i) {
            1nat
        } else {
            0
        }
    }
}

pub open spec fn series_labels(series: Seq<TrendSeries>) -> Seq<Seq<char>> {
    series.map_values(|s: TrendSeries| s.label@)
}

/// Is `plot` the trend chart of the series?
pub open spec fn is_plot(plot: TrendPlot, series: Seq<TrendSeries>) -> bool {
    let (y_min, y_max) = (series_least(series), series_most(series));
    let pad = span_spec(y_min, y_max).mul_spec(Double { bits: TENTH });
    &&& plot.legend_width == clamp((110 + widest(series_labels(series)) * 7) as int, 220, 460) * SS
    &&& plot.y_lo == y_min.sub_spec(pad)
    &&& plot.y_hi == y_max.add_spec(pad.mul_spec(Double { bits: TOP_PAD }))
    &&& plot.parity == (plot.y_lo.le_spec(Double { bits: double::ONE }) && (Double {
        bits: double::ONE,
    }).lt_spec(plot.y_hi))
    &&& plot.lines@.len() == series.len()
    &&& forall|i: int|
        0 <= i < series.len() ==> is_line(
            #[trigger] plot.lines@[i],
            series[i],
            slot_of(series, i, series.len()),
        )
    &&& is_ranking(plot.legend@, series.len(), |i: int, j: int| listed_before(series, i, j))
}

fn points_of(ratios: &Vec<Option<Double>>) -> (r: Vec<TrendPoint>)
    ensures
        r@ == points_spec(ratios@),
{
    let mut out: Vec<TrendPoint> = Vec::new();
    let mut i: usize = 0;
    while i < ratios.len()
        invariant
            i <= ratios@.len(),
            out@ == points_spec(ratios@.take(i as int)),
        decreases ratios@.len() - i,
    {
        proof {
            assert(ratios@.take(i + 1).drop_last() =~= ratios@.take(i as int));
            assert(ratios@.take(i + 1).last() == ratios@[i as int]);
        }
        match ratios[i] {
            Some(ratio) => {
                out.push(TrendPoint { x: i, ratio });
            },
            None => {},
        }
        i = i + 1;
    }
    assert(ratios@.take(ratios@.len() as int) =~= ratios@);
    out
}

fn rings_of(ratios: &Vec<Option<Double>>, alerts: &Vec<bool>) -> (r: Vec<TrendPoint>)
    ensures
        r@ == rings_spec(ratios@, alerts@),
{
    let mut out: Vec<TrendPoint> = Vec::new();
    let mut i: usize = 0;
    while i < ratios.len()
        invariant
            i <= ratios@.len(),
            out@ == rings_spec(ratios@.take(i as int), alerts@),
        decreases ratios@.len() - i,
    {
        proof {
            assert(ratios@.take(i + 1).drop_last() =~= ratios@.take(i as int));
            assert(ratios@.take(i + 1).last() == ratios@[i as int]);
        }
        match ratios[i] {
            Some(ratio) => {
                if i < alerts.len() && alerts[i] {
                    out.push(TrendPoint { x: i, ratio });
                }
            },
            None => {},
        }
        i = i + 1;
    }
    assert(ratios@.take(ratios@.len() as int) =~= ratios@);
    out
}

fn last_of(ratios: &Vec<Option<Double>>) -> (r: Option<Double>)
    ensures
        r == last_value(ratios@),
{
    let mut n: usize = ratios.len();
    assert(ratios@.take(n as int) =~= ratios@);
    while n > 0
        invariant
            n <= ratios@.len(),
            last_value(ratios@) == last_value(ratios@.take(n as int)),
        decreases n,
    {
        proof {
            assert(ratios@.take(n as int).last() == ratios@[n - 1]);
            assert(ratios@.take(n as int).drop_last() =~= ratios@.take(n - 1));
        }
        match ratios[n - 1] {
            Some(r) => {
                return Some(r);
            },
            None => {},
        }
        n = n - 1;
    }
    None
}

/// Is the total place of `a` below that of `b`?
fn below(a: Double, b: Double) -> (r: bool)
    ensures
        r == (total_place(a) < total_place(b)),
{
    let (x, y): (u64, u64) = (a.bits % double::SIGN, b.bits % double::SIGN);
    let (m, n): (bool, bool) = (a.bits >= double::SIGN, b.bits >= double::SIGN);
    if m && n {
        y < x
    } else if m {
        true
    } else if n {
        false
    } else {
        x < y
    }
}

/// How many series take a slot before series `i`.
fn slot_count(series: &[TrendSeries], i: usize) -> (r: usize)
    requires
        i < series@.len(),
    ensures
        r == slot_of(series@, i as int, series@.len()),
{
    let label: &str = series[i].label.as_str();
    let mut count: usize = 0;
    let mut n: usize = 0;
    while n < series.len()
        invariant
            i < series@.len(),
            label@ == series@[i as int].label@,
            n <= series@.len(),
            count <= n,
            count == slot_of(series@, i as int, n as nat),
        decreases series@.len() - n,
    {
        let other: &str = series[n].label.as_str();
        if text::less(other, label) || (text::same(other, label) && n < i) {
            count = count + 1;
        }
        n = n + 1;
    }
    count
}

/// A series' last value and place, for the legend.
pub struct Listed {
    pub value: Double,
    pub index: usize,
}

impl Ranked for Listed {
    open spec fn before(self, other: Listed) -> bool {
        total_place(self.value) > total_place(other.value) || (total_place(self.value)
            == total_place(other.value) && self.index < other.index)
    }

    fn comes_before(&self, other: &Listed) -> (r: bool) {
        below(other.value, self.value) || (!below(self.value, other.value) && self.index
            < other.index)
    }
}

/// The series in the order of the legend: last value descending, ties as they
/// came.
fn legend_order(series: &[TrendSeries]) -> (r: Vec<usize>)
    ensures
        is_ranking(r@, series@.len(), |i: int, j: int| listed_before(series@, i, j)),
{
    let mut all: Vec<Listed> = Vec::new();
    let mut i: usize = 0;
    while i < series.len()
        invariant
            i <= series@.len(),
            all@.len() == i,
            forall|k: int|
                0 <= k < i ==> (#[trigger] all@[k]).index == k && total_place(all@[k].value)
                    == legend_place(series@[k].ratios@),
        decreases series@.len() - i,
    {
        let value: Double = match last_of(&series[i].ratios) {
            Some(v) => v,
            None => Double::from_bits(double::INF).negate(),
        };
        all.push(Listed { value, index: i });
        i = i + 1;
    }
    let ghost listed = all@;
    let sorted: Vec<Listed> = sorting::sort(all);
    proof {
        assert(listed.no_duplicates());
        sorting::lemma_sorted_no_duplicates(listed);
        sorting::lemma_sorted_contains(listed);
        sorting::lemma_sorted_ordered(listed);
        assert forall|p: int| 0 <= p < sorted@.len() implies (#[trigger] sorted@[p]).index
            < series@.len() && listed[sorted@[p].index as int] == sorted@[p] by {
            assert(sorted@.contains(sorted@[p]));
            let x = listed.index_of(sorted@[p]);
            assert(listed[x] == sorted@[p]);
        }
    }
    let mut out: Vec<usize> = Vec::new();
    let mut p: usize = 0;
    while p < sorted.len()
        invariant
            p <= sorted@.len(),
            out@.len() == p,
            forall|k: int| 0 <= k < p ==> (#[trigger] out@[k]) == sorted@[k].index,
        decreases sorted@.len() - p,
    {
        out.push(sorted[p].index);
        p = p + 1;
    }
    proof {
        assert forall|p: int, q: int| 0 <= p < q < out@.len() implies (#[trigger] out@[p])
            != (#[trigger] out@[q]) && listed_before(series@, out@[p] as int, out@[q] as int) by {
            assert(!sorted@[q].before(sorted@[p]));
            assert(listed[sorted@[p].index as int] == sorted@[p]);
            assert(listed[sorted@[q].index as int] == sorted@[q]);
            assert(sorted@[p] != sorted@[q]);
        }
    }
    out
}

fn labels_of(series: &[TrendSeries]) -> (r: Vec<String>)
    ensures
        text::views(r@) == series_labels(series@),
{
    let mut out: Vec<String> = Vec::new();
    let mut i: usize = 0;
    while i < series.len()
        invariant
            i <= series@.len(),
            text::views(out@) == series_labels(series@).take(i as int),
        decreases series@.len() - i,
    {
        let label: String = series[i].label.clone();
        proof {
            let all = series_labels(series@);
            text::lemma_views_push(out@, label);
            assert(all.take(i + 1) =~= all.take(i as int).push(all[i as int]));
        }
        out.push(label);
        i = i + 1;
    }
    proof {
        let all = series_labels(series@);
        assert(all.take(all.len() as int) =~= all);
    }
    out
}

/// The ratios of points.
fn point_ratios(points: &Vec<TrendPoint>) -> (r: Vec<Double>)
    ensures
        r@ == points@.map_values(|p: TrendPoint| p.ratio),
{
    let ghost all = points@.map_values(|p: TrendPoint| p.ratio);
    let mut out: Vec<Double> = Vec::new();
    let mut i: usize = 0;
    while i < points.len()
        invariant
            i <= points@.len(),
            all == points@.map_values(|p: TrendPoint| p.ratio),
            out@ == all.take(i as int),
        decreases points@.len() - i,
    {
        out.push(points[i].ratio);
        assert(all.take(i + 1) =~= all.take(i as int).push(all[i as int]));
        i = i + 1;
    }
    assert(all.take(all.len() as int) =~= all);
    out
}

/// Lays out a trend chart. Color and marker follow the row, not its rank:
/// palette slots go by label, so they are stable for a stable set of rows. The
/// legend runs by last value descending, like the line ends.
pub fn render_trend(
    title: &str,
    y_desc: &str,
    commit_labels: &Vec<String>,
    series: &[TrendSeries],
) -> (r: Result<TrendPlot, String>)
    ensures
        match r {
            Ok(plot) => plot_fault(commit_labels@.len(), series@) is None && plot.title@ == title@
                && plot.y_desc@ == y_desc@ && text::views(plot.commit_labels@) == text::views(
                commit_labels@,
            ) && is_plot(plot, series@),
            Err(e) => plot_fault(commit_labels@.len(), series@) == Some(e@),
        },
{
    if series.len() == 0 || commit_labels.len() == 0 {
        return Err("no trend data to render".to_string());
    }
    let mut y_min: Double = Double::from_bits(double::INF);
    let mut y_max: Double = Double::from_bits(double::INF).negate();
    let mut found: bool = false;
    let mut lines: Vec<TrendLine> = Vec::new();
    let mut i: usize = 0;
    while i < series.len()
        invariant
            i <= series@.len(),
            y_min == series_least(series@.take(i as int)),
            y_max == series_most(series@.take(i as int)),
            found == exists|k: int|
                0 <= k < i && points_spec((#[trigger] series@[k]).ratios@).len() > 0,
            lines@.len() == i,
            forall|k: int|
                0 <= k < i ==> is_line(
                    #[trigger] lines@[k],
                    series@[k],
                    slot_of(series@, k, series@.len()),
                ),
        decreases series@.len() - i,
    {
        let s: &TrendSeries = &series[i];
        proof {
            assert(series@.take(i + 1).drop_last() =~= series@.take(i as int));
            assert(series@.take(i + 1).last() == series@[i as int]);
        }
        let points: Vec<TrendPoint> = points_of(&s.ratios);
        if points.len() > 0 {
            assert(points_spec(series@[i as int].ratios@).len() > 0);
            found = true;
        }
        let there: Vec<Double> = point_ratios(&points);
        y_min = least_of(&there, y_min);
        y_max = most_of(&there, y_max);
        let slot: usize = slot_count(series, i);
        let last: String = match last_of(&s.ratios) {
            Some(v) => text::cat2(v.fixed(2, false).as_str(), "×"),
            None => "—".to_string(),
        };
        lines.push(
            TrendLine {
                label: s.label.clone(),
                color: series_color(slot),
                shape: slot % 4,
                points,
                rings: rings_of(&s.ratios, &s.alerts),
                last,
            },
        );
        i = i + 1;
    }
    assert(series@.take(series@.len() as int) =~= series@);
    if !found {
        return Err("trend series contain no ratio points".to_string());
    }
    let one: Double = Double::from_bits(double::ONE);
    let span: Double = y_max.minus(y_min).max(
        y_max.abs().times(Double::from_bits(LEAST_SPAN)),
    ).max(Double::from_bits(TINY));
    let pad: Double = span.times(Double::from_bits(TENTH));
    let y_lo: Double = y_min.minus(pad);
    let y_hi: Double = y_max.plus(pad.times(Double::from_bits(TOP_PAD)));
    let labels: Vec<String> = labels_of(series);
    Ok(
        TrendPlot {
            title: title.to_string(),
            y_desc: y_desc.to_string(),
            legend_width: panel_size(110, widest_of(&labels), 7, 220, 460),
            y_lo,
            y_hi,
            parity: y_lo.le(one) && one.lt(y_hi),
            commit_labels: text::copy_list(commit_labels),
            lines,
            legend: legend_order(series),
        },
    )
}

/// Palette slots go by label: series with distinct labels never share one.
pub proof fn law_slots_follow_labels(series: Seq<TrendSeries>, i: int, j: int)
    requires
        0 <= i < series.len(),
        0 <= j < series.len(),
        slots_before(series, i, j),
    ensures
        slot_of(series, i, series.len()) < slot_of(series, j, series.len()),
{
    lemma_slot_counts(series, i, j, series.len());
}

proof fn lemma_slot_counts(series: Seq<TrendSeries>, i: int, j: int, n: nat)
    requires
        0 <= i < series.len(),
        0 <= j < series.len(),
        n <= series.len(),
        slots_before(series, i, j),
    ensures
        slot_of(series, i, n) + (if i < n {
            1nat
        } else {
            0
        }) <= slot_of(series, j, n),
    decreases n,
{
    if n > 0 {
        lemma_slot_counts(series, i, j, (n - 1) as nat);
        let k = n - 1;
        if k == i {
            text::lemma_lex_irreflexive(series[i].label@);
        } else if slots_before(series, k, i) {
            if text::lex_lt(series[k].label@, series[i].label@) && text::lex_lt(
                series[i].label@,
                series[j].label@,
            ) {
                text::lemma_lex_transitive(series[k].label@, series[i].label@, series[j].label@);
            }
        }
    }
}

} // verus!
