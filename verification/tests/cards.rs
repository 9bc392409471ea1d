use mega_bench_reporter::cards::{
    commit_link, expand_placeholders, format_ratio, image_placeholder, render_alert_card,
    render_digest_card, AlertCardParams, AlertRow, CardKind, DigestCardParams, DigestTableRow,
    ImageRef, RenderedCard,
};
use mega_bench_reporter::double::Double;
use mega_bench_reporter::json::{parse, Json};
use mega_bench_reporter::strmap::StrMap;
use serde_json::Value;

fn d(x: f64) -> Double {
    Double::from_bits(x.to_bits())
}

const REGRESSION_ALERT: &str = r#"{
  "schema": "2.0",
  "header": {"template": "{{header_color}}", "title": {"tag": "plain_text", "content": "{{title}}"}},
  "body": {"elements": [
    {"tag": "markdown", "content": "{{body_md}}"},
    {"tag": "__images__", "group": "charts"},
    {"tag": "markdown", "content": "{{footer}}", "size": 12, "bold": true, "icon": null}
  ]}
}"#;

const TREND_DIGEST: &str = r#"{
  "header": {"template": "blue", "title": {"tag": "plain_text", "content": "{{title}}"}},
  "body": {"elements": [
    {"tag": "markdown", "content": "{{summary_md}}"},
    {"tag": "markdown", "content": "{{table_md}}"},
    {"tag": "__images__", "group": "charts"},
    {"tag": "markdown", "content": "{{footer}}"}
  ]}
}"#;

fn value(card: &Json) -> Value {
    match card {
        Json::Null => Value::Null,
        Json::Bool(b) => Value::Bool(*b),
        Json::Number(n) => serde_json::from_str(n).unwrap(),
        Json::Text(s) => Value::String(s.clone()),
        Json::List(items) => Value::Array(items.iter().map(value).collect()),
        Json::Object(fields) => {
            Value::Object(fields.iter().map(|(k, v)| (k.clone(), value(v))).collect())
        }
    }
}

fn card_text(card: &Json) -> String {
    serde_json::to_string(&value(card)).unwrap()
}

fn alert_params(regressed: Vec<AlertRow>, recovered: Vec<AlertRow>) -> AlertCardParams {
    AlertCardParams {
        repo_name: "mega-evm".into(),
        github: "megaeth-labs/mega-evm".into(),
        sha: "abcdef0123456789".into(),
        regressed,
        recovered,
        threshold_pct: d(10.0),
        window: 20,
        images: vec![
            ImageRef::new("/data/mega-evm/commits/20260702-abcdef0/compare_table.png", "对比图"),
            ImageRef::new(
                "/data/mega-evm/commits/20260702-abcdef0/dist_salt_dynamic_gas_sstore_100.png",
                "分布图",
            ),
        ],
    }
}

fn row(key: &str, median: f64, current: f64) -> AlertRow {
    AlertRow { row_key: key.into(), median: d(median), current: d(current) }
}

fn alert(params: &AlertCardParams) -> Result<RenderedCard, String> {
    render_alert_card(params, REGRESSION_ALERT)
}

#[test]
fn test_regression_alert_card() {
    let params =
        alert_params(vec![row("salt_dynamic_gas/rex5_salt/sstore_100", 2.0, 2.3)], vec![]);
    let rendered = alert(&params).unwrap();
    assert_eq!(rendered.kind, CardKind::RegressionAlert);
    let text = card_text(&rendered.card);
    assert!(text.contains("基准回归告警"));
    assert!(text.contains("abcdef0"));
    assert!(text.contains("+15.0%"));
    assert!(text.contains(r#""template":"red""#));
    // No unexpanded placeholders left.
    assert!(!text.contains("{{"), "unsubstituted placeholder in {text}");
    assert!(!text.contains("__images__"));
    // Both chart images expanded, in order, with ${image:} keys + attachments.
    assert!(text.contains("${image:compare_table.png}"));
    assert!(text.contains("${image:dist_salt_dynamic_gas_sstore_100.png}"));
    assert_eq!(rendered.attachments.len(), 2);
    // What is no text stays what it is.
    assert!(text.contains(r#""size":12"#) && text.contains(r#""bold":true"#));
    assert!(text.contains(r#""icon":null"#));
}

#[test]
fn test_recovery_card_is_green_and_no_regression_wording() {
    let params =
        alert_params(vec![], vec![row("salt_dynamic_gas/rex5_salt/sstore_100", 2.0, 2.02)]);
    let rendered = alert(&params).unwrap();
    assert_eq!(rendered.kind, CardKind::Recovery);
    let text = card_text(&rendered.card);
    assert!(text.contains("基准回归恢复"));
    assert!(text.contains(r#""template":"green""#));
    assert!(!text.contains("回归行"));
}

#[test]
fn test_alert_card_with_nothing_to_report_errors() {
    assert!(alert(&alert_params(vec![], vec![])).is_err());
}

fn digest_params() -> DigestCardParams {
    DigestCardParams {
        repo_name: "mega-evm".into(),
        github: "megaeth-labs/mega-evm".into(),
        first_sha: "1111111aaaa".into(),
        last_sha: "2222222bbbb".into(),
        commit_count: 10,
        rows: vec![
            DigestTableRow {
                row_key: "salt_dynamic_gas/rex5_salt/sstore_100".into(),
                first: Some(d(2.0)),
                last: Some(d(2.1)),
                median: Some(d(2.05)),
            },
            DigestTableRow {
                row_key: "empty_transaction/rex5".into(),
                first: None,
                last: Some(d(1.2)),
                median: Some(d(1.2)),
            },
        ],
        failed_targets: vec!["block_bench".into()],
        trend_image: ImageRef::new("/data/mega-evm/digests/20260702-111..222/trend.png", "趋势图"),
    }
}

#[test]
fn test_trend_digest_card() {
    let rendered = render_digest_card(&digest_params(), TREND_DIGEST).unwrap();
    assert_eq!(rendered.kind, CardKind::TrendDigest);
    let text = card_text(&rendered.card);
    assert!(text.contains("趋势汇总（近 10 次提交）"));
    assert!(text.contains("2.05×"));
    assert!(text.contains("+5.0%"));
    // Missing first ratio renders a dash, not a crash or a bogus delta.
    assert!(text.contains("|–|1.20×|–|") || text.contains("|–|1.20×|–|\\n"));
    assert!(text.contains("block_bench"));
    assert!(text.contains("${image:trend.png}"));
    assert!(!text.contains("{{"));
    assert_eq!(rendered.attachments.len(), 1);
}

#[test]
fn test_substituted_values_are_not_re_expanded() {
    // A row name containing a literal placeholder must come out verbatim,
    // not expand the card's other variables into the body.
    let mut params = alert_params(vec![row("g/rex5/x{{title}}y", 1.0, 1.2)], vec![]);
    params.images = vec![];
    let rendered = alert(&params).unwrap();
    let text = card_text(&rendered.card);
    assert!(text.contains(r"x{{title}}y"), "placeholder in value was re-expanded: {text}");
}

#[test]
fn test_substitution_handles_json_meta_characters() {
    // A value containing quotes/backslashes/newlines must survive the
    // template round-trip intact (substitution is on decoded strings).
    let mut params = alert_params(vec![row("g/s/w", 1.0, 1.2)], vec![]);
    params.repo_name = r#"we"ird\repo"#.into();
    params.images = vec![];
    let rendered = alert(&params).unwrap();
    let title = rendered
        .card
        .get("header")
        .unwrap()
        .get("title")
        .unwrap()
        .get_str("content")
        .unwrap();
    assert!(title.contains(r#"we"ird\repo"#));
}

#[test]
fn a_template_that_is_no_json_is_refused() {
    let params = alert_params(vec![row("g/s/w", 1.0, 1.2)], vec![]);
    let err = render_alert_card(&params, "{not json").unwrap_err();
    assert!(err.starts_with("card template for RegressionAlert is not valid JSON: "), "{err}");
}

#[test]
fn placeholders_without_a_value_stay() {
    let mut vars = StrMap::new();
    vars.insert("a".to_string(), "1".to_string());
    assert_eq!(expand_placeholders("x{{a}}{{b}}{{a", &vars), "x1{{b}}{{a");
    assert_eq!(expand_placeholders("plain", &vars), "plain");
    assert_eq!(expand_placeholders("{{a}}{{a}}", &vars), "11");
}

#[test]
fn links_ratios_and_images_are_written_alike_everywhere() {
    assert_eq!(
        commit_link("o/r", "abcdef0123"),
        "[abcdef0](https://github.com/o/r/commit/abcdef0123)"
    );
    assert_eq!(format_ratio(d(2.0)), "2.00×");
    assert_eq!(image_placeholder("/d/x.png"), "${image:x.png}");
    assert_eq!(CardKind::TrendDigest.tag(), "trend_digest");
    assert_eq!(CardKind::Recovery.tag(), "recovery");
    assert_eq!(CardKind::RegressionAlert.tag(), "regression_alert");
}

#[test]
fn json_is_read_as_it_is_written() {
    let json = parse(r#" {"a": [1, 2.5, -3e2, "x\né", true, null], "b": {}} "#).unwrap();
    assert_eq!(
        card_text(&json),
        r#"{"a":[1,2.5,-300.0,"x\né",true,null],"b":{}}"#
    );
    assert!(json.get("c").is_none());
    assert!(json.as_str().is_none());
    assert!(parse("[1,]").unwrap_err().contains("line 1"));
}
