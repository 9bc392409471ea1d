//! What the cards say.
use crate::cards;
use crate::cards::{
    AlertCardParams, AlertRow, CardKind, DigestCardParams, DigestTableRow, ImageView, RenderedCard,
};
use crate::double;
use crate::double::Double;
use crate::json;
use crate::json::JsonView;
use crate::state;
use crate::storage;
use crate::text;
use vstd::prelude::*;

verus! {

/// Is this the text with the part between these two?
pub open spec fn framed(text: Seq<char>, a: Seq<char>, part: Seq<char>, b: Seq<char>) -> bool {
    text == (a + part) + b
}

/// Does the text hold that part?
pub open spec fn holds(text: Seq<char>, part: Seq<char>) -> bool {
    exists|a: Seq<char>, b: Seq<char>| #[trigger] framed(text, a, part, b)
}

proof fn lemma_holds_more(text: Seq<char>, part: Seq<char>, front: Seq<char>, back: Seq<char>)
    requires
        holds(text, part),
    ensures
        holds(front + text + back, part),
{
    let (a, b) = choose|a: Seq<char>, b: Seq<char>| #[trigger] framed(text, a, part, b);
    assert(front + text + back =~= ((front + a) + part) + (b + back));
    assert(framed(front + text + back, front + a, part, b + back));
}

/// Does the line say these three, in this order, one apart from the other?
pub open spec fn says(
    line: Seq<char>,
    first: Seq<char>,
    second: Seq<char>,
    third: Seq<char>,
) -> bool {
    exists|a: Seq<char>, b: Seq<char>, c: Seq<char>, d: Seq<char>| #[trigger]
        spelled(line, a, first, b, second, c, third, d)
}

pub open spec fn spelled(
    line: Seq<char>,
    a: Seq<char>,
    first: Seq<char>,
    b: Seq<char>,
    second: Seq<char>,
    c: Seq<char>,
    third: Seq<char>,
    d: Seq<char>,
) -> bool {
    line == (a + first + b + second + c + third) + d
}

proof fn lemma_regressed_lines(rows: Seq<AlertRow>, i: int)
    requires
        0 <= i < rows.len(),
    ensures
        holds(cards::regressed_lines(rows), cards::regressed_line(rows[i])),
    decreases rows.len(),
{
    let front = rows.drop_last();
    let n = rows.len() - 1;
    let before = cards::regressed_lines(front);
    let last = cards::regressed_line(rows[n]);
    let none = Seq::<char>::empty();
    if i < n {
        assert(front[i] == rows[i]);
        lemma_regressed_lines(front, i);
        lemma_holds_more(before, cards::regressed_line(rows[i]), none, last);
        assert(none + before + last =~= before + last);
    } else {
        assert(cards::regressed_lines(rows) =~= (before + last) + none);
        assert(framed(cards::regressed_lines(rows), before, last, none));
    }
}

proof fn lemma_recovered_lines(rows: Seq<AlertRow>, i: int)
    requires
        0 <= i < rows.len(),
    ensures
        holds(cards::recovered_lines(rows), cards::recovered_line(rows[i])),
    decreases rows.len(),
{
    let front = rows.drop_last();
    let n = rows.len() - 1;
    let before = cards::recovered_lines(front);
    let last = cards::recovered_line(rows[n]);
    let none = Seq::<char>::empty();
    if i < n {
        assert(front[i] == rows[i]);
        lemma_recovered_lines(front, i);
        lemma_holds_more(before, cards::recovered_line(rows[i]), none, last);
        assert(none + before + last =~= before + last);
    } else {
        assert(cards::recovered_lines(rows) =~= (before + last) + none);
        assert(framed(cards::recovered_lines(rows), before, last, none));
    }
}

proof fn lemma_regressed_line(row: AlertRow)
    ensures
        says(
            cards::regressed_line(row),
            row.row_key@,
            row.median.fixed_spec(2, false),
            row.current.fixed_spec(2, false),
        ),
        holds(
            cards::regressed_line(row),
            row.current.sub_spec(row.median).div_spec(row.median).mul_spec(
                Double { bits: double::HUNDRED },
            ).fixed_spec(1, true),
        ),
{
    let line = cards::regressed_line(row);
    let over = state::pct_over_spec(row.current, row.median).fixed_spec(1, true);
    let key = "- **"@ + row.row_key@ + "**: "@;
    let arrow = "×"@ + " → "@;
    let tail = "×"@ + (" (**"@ + over + "%**)\n"@);
    assert(line =~= ("- **"@ + row.row_key@ + "**: "@ + row.median.fixed_spec(2, false) + arrow
        + row.current.fixed_spec(2, false)) + tail);
    assert(spelled(
        line,
        "- **"@,
        row.row_key@,
        "**: "@,
        row.median.fixed_spec(2, false),
        arrow,
        row.current.fixed_spec(2, false),
        tail,
    ));
    let front = key + cards::ratio_text(row.median) + " → "@ + cards::ratio_text(row.current)
        + " (**"@;
    assert(line =~= (front + over) + "%**)\n"@);
    assert(framed(line, front, over, "%**)\n"@));
}

/// Every regressed row has its line in the body of the alert: its key, the
/// median that it was held against, its ratio, and by how many percent that is
/// over.
pub proof fn law_alerts_name_every_regressed_row(params: AlertCardParams, i: int)
    requires
        0 <= i < params.regressed@.len(),
    ensures
        ({
            let row = params.regressed@[i];
            let line = cards::regressed_line(row);
            let over = row.current.sub_spec(row.median).div_spec(row.median).mul_spec(
                Double { bits: double::HUNDRED },
            );
            &&& holds(cards::alert_body(params), line)
            &&& says(
                line,
                row.row_key@,
                row.median.fixed_spec(2, false),
                row.current.fixed_spec(2, false),
            )
            &&& holds(line, over.fixed_spec(1, true))
        }),
{
    let row = params.regressed@[i];
    let line = cards::regressed_line(row);
    let lines = cards::regressed_lines(params.regressed@);
    lemma_regressed_lines(params.regressed@, i);
    let head = "**提交:** "@ + cards::link_spec(params.github@, params.sha@) + "\n"@;
    let lead = "\n**回归行**（相对 revm_pinned 的倍率 vs 滚动中位数）:\n"@;
    let back = if params.recovered@.len() == 0 {
        Seq::empty()
    } else {
        "\n**已恢复**:\n"@ + cards::recovered_lines(params.recovered@)
    };
    lemma_holds_more(lines, line, head + lead, back);
    assert(cards::alert_body(params) =~= (head + lead) + lines + back);
    lemma_regressed_line(row);
}

proof fn lemma_recovered_line(row: AlertRow)
    ensures
        says(
            cards::recovered_line(row),
            row.row_key@,
            row.current.fixed_spec(2, false),
            row.median.fixed_spec(2, false),
        ),
{
    let line = cards::recovered_line(row);
    let back = "×"@ + ")\n"@;
    let middle = "×"@ + " (滚动中位数 "@;
    assert(line =~= ("- **"@ + row.row_key@ + "**: 回到 "@ + row.current.fixed_spec(2, false)
        + middle + row.median.fixed_spec(2, false)) + back);
    assert(spelled(
        line,
        "- **"@,
        row.row_key@,
        "**: 回到 "@,
        row.current.fixed_spec(2, false),
        middle,
        row.median.fixed_spec(2, false),
        back,
    ));
}

/// Every recovered row has its line in the body of the alert: its key, its
/// ratio and the median that it is back at.
pub proof fn law_alerts_name_every_recovered_row(params: AlertCardParams, i: int)
    requires
        0 <= i < params.recovered@.len(),
    ensures
        ({
            let row = params.recovered@[i];
            let line = cards::recovered_line(row);
            &&& holds(cards::alert_body(params), line)
            &&& says(
                line,
                row.row_key@,
                row.current.fixed_spec(2, false),
                row.median.fixed_spec(2, false),
            )
        }),
{
    let row = params.recovered@[i];
    let line = cards::recovered_line(row);
    let lines = cards::recovered_lines(params.recovered@);
    lemma_recovered_lines(params.recovered@, i);
    let head = "**提交:** "@ + cards::link_spec(params.github@, params.sha@) + "\n"@;
    let regressed = if params.regressed@.len() == 0 {
        Seq::empty()
    } else {
        "\n**回归行**（相对 revm_pinned 的倍率 vs 滚动中位数）:\n"@ + cards::regressed_lines(
            params.regressed@,
        )
    };
    let lead = head + regressed + "\n**已恢复**:\n"@;
    lemma_holds_more(lines, line, lead, Seq::empty());
    assert(cards::alert_body(params) =~= lead + lines + Seq::<char>::empty());
    lemma_recovered_line(row);
}

/// An alert with a regressed row is a regression alert, in red; any other is a
/// recovery, in green.
pub proof fn law_alerts_are_red_while_a_row_regresses(params: AlertCardParams)
    ensures
        cards::alert_kind(params) is RegressionAlert <==> params.regressed@.len() > 0,
        cards::alert_kind(params) is Recovery <==> params.regressed@.len() == 0,
        params.regressed@.len() > 0 ==> cards::alert_vars(params)["header_color"@] == "red"@,
        params.regressed@.len() == 0 ==> cards::alert_vars(params)["header_color"@] == "green"@,
        cards::alert_vars(params)["body_md"@] == cards::alert_body(params),
        cards::alert_vars(params)["title"@] == cards::alert_title(params),
        cards::alert_vars(params)["footer"@] == cards::alert_footer(params),
{
    lemma_names();
}

proof fn lemma_names()
    ensures
        "header_color"@ != "title"@ && "header_color"@ != "body_md"@ && "header_color"@
            != "footer"@,
        "title"@ != "body_md"@ && "title"@ != "footer"@ && "body_md"@ != "footer"@,
{
    reveal_strlit("header_color");
    reveal_strlit("title");
    reveal_strlit("body_md");
    reveal_strlit("footer");
    assert("header_color"@.len() == 12);
    assert("title"@.len() == 5);
    assert("body_md"@.len() == 7);
    assert("footer"@.len() == 6);
}

/// A digest row's change is that from its first ratio to its last, in percent
/// of the first; there is none where one is missing or the first is zero.
pub proof fn law_digest_changes_run_from_first_to_last(row: DigestTableRow)
    ensures
        match cards::delta_pct_spec(row.first, row.last) {
            Some(d) => row.first is Some && row.last is Some && !row.first->0.zero() && d
                == row.last->0.sub_spec(row.first->0).div_spec(row.first->0).mul_spec(
                Double { bits: double::HUNDRED },
            ),
            None => row.first is None || row.last is None || row.first->0.zero(),
        },
{
}

/// Every row of a digest has its line in the table: its key, then the median,
/// then the first and the last ratio.
pub proof fn law_digest_tables_list_every_row(rows: Seq<DigestTableRow>, i: int)
    requires
        0 <= i < rows.len(),
    ensures
        holds(cards::table_lines(rows), cards::table_line(rows[i])),
        says(
            cards::table_line(rows[i]),
            rows[i].row_key@,
            cards::opt_ratio_text(rows[i].median),
            cards::opt_ratio_text(rows[i].first) + "|"@ + cards::opt_ratio_text(rows[i].last),
        ),
    decreases rows.len(),
{
    let front = rows.drop_last();
    let n = rows.len() - 1;
    let before = cards::table_lines(front);
    let last = cards::table_line(rows[n]);
    let none = Seq::<char>::empty();
    if i < n {
        assert(front[i] == rows[i]);
        law_digest_tables_list_every_row(front, i);
        lemma_holds_more(before, cards::table_line(rows[i]), none, last);
        assert(none + before + last =~= before + last);
    } else {
        assert(cards::table_lines(rows) =~= (before + last) + none);
        assert(framed(cards::table_lines(rows), before, last, none));
    }
    let row = rows[i];
    let delta = match cards::delta_pct_spec(row.first, row.last) {
        Some(d) => d.fixed_spec(1, true) + "%"@,
        None => "–"@,
    };
    let pair = cards::opt_ratio_text(row.first) + "|"@ + cards::opt_ratio_text(row.last);
    let tail = "|"@ + delta + "|\n"@;
    assert(cards::table_line(row) =~= ("|"@ + row.row_key@ + "|"@ + cards::opt_ratio_text(
        row.median,
    ) + "|"@ + pair) + tail);
    assert(spelled(
        cards::table_line(row),
        "|"@,
        row.row_key@,
        "|"@,
        cards::opt_ratio_text(row.median),
        "|"@,
        pair,
        tail,
    ));
}

// ---------------------------------------------------------------------------
// Templates
// ---------------------------------------------------------------------------

/// Filling in placeholders keeps a template's shape: as many items, each filled
/// in on its own.
pub proof fn law_lists_keep_their_items(
    items: Seq<JsonView>,
    vars: Map<Seq<char>, Seq<char>>,
    i: int,
)
    ensures
        cards::list_substituted(items, vars).len() == items.len(),
        0 <= i < items.len() ==> cards::list_substituted(items, vars)[i] == cards::substituted(
            items[i],
            vars,
        ),
    decreases items.len(),
{
    if items.len() > 0 {
        law_lists_keep_their_items(items.drop_last(), vars, i);
    }
}

/// Filling in placeholders keeps the names of fields, and fills in their values.
pub proof fn law_fields_keep_their_names(
    fields: Seq<(Seq<char>, JsonView)>,
    vars: Map<Seq<char>, Seq<char>>,
    i: int,
)
    ensures
        cards::fields_substituted(fields, vars).len() == fields.len(),
        0 <= i < fields.len() ==> cards::fields_substituted(fields, vars)[i] == (
            fields[i].0,
            cards::substituted(fields[i].1, vars),
        ),
    decreases fields.len(),
{
    if fields.len() > 0 {
        law_fields_keep_their_names(fields.drop_last(), vars, i);
    }
}

/// An image marker gives way to one image element per image of its group, in
/// order; what is in front of it stays in front.
pub proof fn law_markers_give_way_to_their_images(
    items: Seq<JsonView>,
    marker: JsonView,
    images: Map<Seq<char>, Seq<ImageView>>,
    group: Seq<char>,
    i: int,
)
    requires
        cards::marker_group(marker) == Some(group),
        images.dom().contains(group),
    ensures
        ({
            let before = cards::list_with_images(items, images);
            let after = cards::list_with_images(items.push(marker), images);
            &&& after.len() == before.len() + images[group].len()
            &&& 0 <= i < before.len() ==> after[i] == before[i]
            &&& 0 <= i < images[group].len() ==> after[before.len() + i] == cards::img_spec(
                images[group][i],
            )
        }),
{
    assert(items.push(marker).drop_last() =~= items);
}

/// A list without image markers keeps its items.
pub proof fn law_lists_without_markers_keep_their_items(
    items: Seq<JsonView>,
    images: Map<Seq<char>, Seq<ImageView>>,
    i: int,
)
    requires
        forall|k: int| 0 <= k < items.len() ==> cards::marker_group(#[trigger] items[k]) is None,
    ensures
        cards::list_with_images(items, images).len() == items.len(),
        0 <= i < items.len() ==> cards::list_with_images(items, images)[i] == cards::with_images(
            items[i],
            images,
        ),
    decreases items.len(),
{
    if items.len() > 0 {
        let front = items.drop_last();
        let n = items.len() - 1;
        assert(cards::marker_group(items[n]) is None);
        assert forall|k: int| 0 <= k < front.len() implies cards::marker_group(
            #[trigger] front[k],
        ) is None by {
            assert(front[k] == items[k]);
        }
        law_lists_without_markers_keep_their_items(front, images, i);
    }
}

/// A card is made exactly where its template is JSON; it attaches the charts it
/// was given, in their order.
pub proof fn law_cards_attach_their_charts(
    r: Result<RenderedCard, String>,
    template: Seq<char>,
    kind: CardKind,
    vars: Map<Seq<char>, Seq<char>>,
    charts: Seq<ImageView>,
)
    requires
        cards::is_rendered(r, template, kind, vars, charts),
    ensures
        r is Ok <==> json::parsed(template) is Ok,
        r matches Ok(card) ==> {
            &&& card.kind == kind
            &&& card.attachments@.len() == charts.len()
            &&& forall|i: int|
                0 <= i < charts.len() ==> (#[trigger] card.attachments@[i])@ == charts[i].path
        },
{
    if let Ok(card) = r {
        let paths = text::views(card.attachments@);
        assert(paths.len() == charts.len());
        assert forall|i: int| 0 <= i < charts.len() implies (#[trigger] card.attachments@[i])@
            == charts[i].path by {
            assert(paths[i] == card.attachments@[i]@);
            assert(cards::image_paths(charts)[i] == charts[i].path);
        }
    }
}

/// A digest card calls out the failed targets, and nothing behind its rows where
/// none failed.
pub proof fn law_digest_cards_call_out_failed_targets(params: DigestCardParams)
    ensures
        ({
            let rows = cards::table_lines(params.rows@);
            let table = cards::digest_table(params);
            &&& text::has_prefix(table, rows)
            &&& params.failed_targets@.len() == 0 <==> table.len() == rows.len()
            &&& params.failed_targets@.len() > 0 ==> text::has_suffix(
                table,
                text::join_spec(text::views(params.failed_targets@), ", "@) + "\n"@,
            )
        }),
{
    reveal_strlit("\n");
    let rows = cards::table_lines(params.rows@);
    let table = cards::digest_table(params);
    assert(table.take(rows.len() as int) =~= rows);
    if params.failed_targets@.len() > 0 {
        let end = text::join_spec(text::views(params.failed_targets@), ", "@) + "\n"@;
        assert(table.skip(table.len() - end.len()) =~= end);
    }
}

/// An alert's title warns exactly where a row regresses, and ends with the short
/// sha.
pub proof fn law_alert_titles_warn_of_regressions(params: AlertCardParams)
    ensures
        params.regressed@.len() > 0 <==> text::has_prefix(
            cards::alert_title(params),
            "⚠️ "@ + params.repo_name@,
        ),
        params.regressed@.len() == 0 <==> text::has_prefix(
            cards::alert_title(params),
            "✅ "@ + params.repo_name@,
        ),
        text::has_suffix(cards::alert_title(params), storage::short_spec(params.sha@)),
{
    reveal_strlit("⚠️ ");
    reveal_strlit("✅ ");
    let (warn, well) = ("⚠️ "@ + params.repo_name@, "✅ "@ + params.repo_name@);
    let title = cards::alert_title(params);
    let short = storage::short_spec(params.sha@);
    assert(warn[0] != well[0]);
    if params.regressed@.len() > 0 {
        assert(title.take(warn.len() as int) =~= warn);
        if text::has_prefix(title, well) {
            assert(title.take(well.len() as int)[0] == title[0]);
        }
    } else {
        assert(title.take(well.len() as int) =~= well);
        if text::has_prefix(title, warn) {
            assert(title.take(warn.len() as int)[0] == title[0]);
        }
    }
    assert(title.skip(title.len() - short.len()) =~= short);
}

} // verus!
