use mega_bench_reporter::config::{
    default_profile_secs, default_retention_days, star_pattern_matches, Config, ConfigError,
    RepoConfig, Settings, Tuning,
};
use mega_bench_reporter::double::Double;

fn d(x: f64) -> Double {
    Double::from_bits(x.to_bits())
}

fn text(table: &toml::Table, key: &str) -> String {
    table[key].as_str().unwrap().to_string()
}

fn list(table: &toml::Table, key: &str) -> Vec<String> {
    table[key].as_array().unwrap().iter().map(|v| v.as_str().unwrap().to_string()).collect()
}

fn tuning(table: &toml::Table) -> Tuning {
    let float = |key: &str| table.get(key).map(|v| d(v.as_float().unwrap()));
    Tuning {
        regression_threshold_pct: float("regression_threshold_pct"),
        recovery_threshold_pct: float("recovery_threshold_pct"),
        instr_regression_threshold_pct: float("instr_regression_threshold_pct"),
        instr_recovery_threshold_pct: float("instr_recovery_threshold_pct"),
        rolling_window: table.get("rolling_window").map(|v| v.as_integer().unwrap() as usize),
        digest_batch_size: table.get("digest_batch_size").map(|v| v.as_integer().unwrap() as u32),
        bench_profile: table.get("bench_profile").map(|v| v.as_str().unwrap().to_string()),
    }
}

/// Reads the parts of a config file that these tests write.
fn parse(source: &str) -> Result<Config, ConfigError> {
    let table: toml::Table = source.parse().unwrap();
    let repos = table["repos"].as_array().unwrap();
    Config {
        defaults: match table.get("defaults") {
            Some(t) => tuning(t.as_table().unwrap()),
            None => Tuning::default(),
        },
        repos: repos
            .iter()
            .map(|r| {
                let r = r.as_table().unwrap();
                RepoConfig {
                    name: text(r, "name"),
                    github: text(r, "github"),
                    branch: text(r, "branch"),
                    clone_url: text(r, "clone_url"),
                    bench_targets: list(r, "bench_targets"),
                    baseline_subject: text(r, "baseline_subject"),
                    headline_subjects: list(r, "headline_subjects"),
                    subject_order: None,
                    package: None,
                    tuning: tuning(r),
                    flamegraph: None,
                    instructions: None,
                }
            })
            .collect(),
    }
    .checked()
}

const SAMPLE: &str = r#"
[[repos]]
name = "mega-evm"
github = "megaeth-labs/mega-evm"
branch = "main"
clone_url = "git@github.com:megaeth-labs/mega-evm.git"
bench_targets = ["transact", "revm_bench", "mega_bench", "comp_cost", "block_bench"]
baseline_subject = "revm_pinned"
headline_subjects = ["rex5", "rex5_*"]
"#;

#[test]
fn test_star_pattern_matches() {
    assert!(star_pattern_matches("rex5", "rex5"));
    assert!(!star_pattern_matches("rex5", "rex5_salt"));
    assert!(star_pattern_matches("rex5_*", "rex5_salt"));
    assert!(!star_pattern_matches("rex5_*", "rex5"));
    // A lone `*` is the match-everything pattern.
    assert!(star_pattern_matches("*", "anything/at/all"));
    // The star is only a wildcard at the end.
    assert!(!star_pattern_matches("*_salt", "rex5_salt"));
}

#[test]
fn test_parse_single_repo() {
    let cfg = parse(SAMPLE).expect("parses");
    assert_eq!(cfg.repos.len(), 1);
    let repo = cfg.repo("mega-evm").expect("found");
    assert_eq!(repo.github, "megaeth-labs/mega-evm");
    assert_eq!(repo.branch, "main");
    assert_eq!(repo.baseline_subject, "revm_pinned");
    assert_eq!(repo.bench_targets.len(), 5);
    assert!(repo.is_headline("rex5"));
    assert!(repo.is_headline("rex5_salt"));
    assert!(!repo.is_headline("rex4"));
    assert!(!repo.is_headline("revm_pinned"));
    assert_eq!(repo.subject_order(), vec!["revm_pinned".to_string()]);
}

#[test]
fn test_parse_multiple_repos_is_a_list_not_a_special_case() {
    let two = format!(
        "{SAMPLE}\n[[repos]]\nname = \"mega-reth\"\ngithub = \"megaeth-labs/mega-reth\"\n\
         branch = \"main\"\nclone_url = \"git@github.com:megaeth-labs/mega-reth.git\"\n\
         bench_targets = []\nbaseline_subject = \"reth_pinned\"\nheadline_subjects = [\"mega\"]\n"
    );
    let cfg = parse(&two).expect("parses");
    assert_eq!(cfg.repos.len(), 2);
    assert!(cfg.repo("mega-reth").is_ok());
}

#[test]
fn test_unknown_repo_name_errors() {
    let cfg = parse(SAMPLE).expect("parses");
    assert!(cfg.repo("does-not-exist").is_err());
}

#[test]
fn test_empty_repos_list_errors() {
    let err = parse("repos = []").unwrap_err();
    assert!(err.message().contains("no [[repos]] entries"));
}

#[test]
fn test_settings_built_in_defaults_when_nothing_configured() {
    let cfg = parse(SAMPLE).expect("parses");
    let settings = cfg.settings(cfg.repo("mega-evm").unwrap()).unwrap();
    assert_eq!(settings.regression_threshold_pct, d(10.0));
    // Unset recovery threshold = the regression threshold (no hysteresis).
    assert_eq!(settings.recovery_threshold_pct, d(10.0));
    assert_eq!(settings.rolling_window, 20);
    assert_eq!(settings.digest_batch_size, 10);
    assert_eq!(settings.bench_profile, None);
}

#[test]
fn test_settings_recovery_threshold_follows_configured_regression_threshold() {
    // Only the regression threshold set: recovery follows it, not the
    // built-in default.
    let cfg = parse(&format!("{SAMPLE}\nregression_threshold_pct = 5.0\n")).expect("parses");
    let settings = cfg.settings(cfg.repo("mega-evm").unwrap()).unwrap();
    assert_eq!(settings.recovery_threshold_pct, d(5.0));

    // Both set: an explicit lower recovery threshold is hysteresis.
    let cfg = parse(&format!(
        "{SAMPLE}\nregression_threshold_pct = 10.0\nrecovery_threshold_pct = 5.0\n"
    ))
    .expect("parses");
    let settings = cfg.settings(cfg.repo("mega-evm").unwrap()).unwrap();
    assert_eq!(settings.regression_threshold_pct, d(10.0));
    assert_eq!(settings.recovery_threshold_pct, d(5.0));
}

#[test]
fn test_settings_rejects_out_of_range_values() {
    for bad in [
        "rolling_window = 0",
        "digest_batch_size = 0",
        "regression_threshold_pct = -5.0",
        "recovery_threshold_pct = 0.0",
        // Recovering above the regression trigger would flap.
        "regression_threshold_pct = 5.0\nrecovery_threshold_pct = 8.0",
    ] {
        let cfg = parse(&format!("{SAMPLE}\n{bad}\n")).expect("parses");
        assert!(
            cfg.settings(cfg.repo("mega-evm").unwrap()).is_err(),
            "'{bad}' should be rejected"
        );
    }
}

#[test]
fn test_settings_defaults_section_and_per_repo_override() {
    let text = format!(
        "[defaults]\nregression_threshold_pct = 15.0\nrolling_window = 30\n\
         bench_profile = \"profiling\"\n\n{SAMPLE}\nregression_threshold_pct = 5.0\n\
         digest_batch_size = 5\n"
    );
    let cfg = parse(&text).expect("parses");
    let settings = cfg.settings(cfg.repo("mega-evm").unwrap()).unwrap();
    // Per-repo override wins.
    assert_eq!(settings.regression_threshold_pct, d(5.0));
    assert_eq!(settings.digest_batch_size, 5);
    // [defaults] fills what the repo leaves unset.
    assert_eq!(settings.rolling_window, 30);
    assert_eq!(settings.bench_profile.as_deref(), Some("profiling"));
}

#[test]
fn every_setting_out_of_range_has_its_error() {
    let refuse = |bad: &str| -> ConfigError {
        let cfg = parse(&format!("{SAMPLE}\n{bad}\n")).unwrap();
        let err = cfg.settings(cfg.repo("mega-evm").unwrap()).unwrap_err();
        assert!(!err.message().is_empty());
        err
    };
    assert_eq!(refuse("regression_threshold_pct = -5.0"), ConfigError::RegressionNotPositive);
    assert_eq!(refuse("recovery_threshold_pct = 0.0"), ConfigError::RecoveryNotPositive);
    assert_eq!(
        refuse("regression_threshold_pct = 5.0\nrecovery_threshold_pct = 8.0"),
        ConfigError::RecoveryAboveRegression
    );
    assert_eq!(
        refuse("instr_regression_threshold_pct = 0.0"),
        ConfigError::InstrRegressionNotPositive
    );
    assert_eq!(
        refuse("instr_recovery_threshold_pct = -1.0"),
        ConfigError::InstrRecoveryNotPositive
    );
    assert_eq!(
        refuse("instr_recovery_threshold_pct = 3.0"),
        ConfigError::InstrRecoveryAboveRegression
    );
    assert_eq!(refuse("rolling_window = 0"), ConfigError::EmptyWindow);
    assert_eq!(refuse("digest_batch_size = 0"), ConfigError::EmptyDigestBatch);
    assert_eq!(parse("repos = []").unwrap_err(), ConfigError::NoRepos);
}

#[test]
fn instructions_thresholds_default_to_two_percent() {
    let settings = Settings::resolve(&Tuning::default(), &Tuning::default()).unwrap();
    assert_eq!(settings.instr_regression_threshold_pct, d(2.0));
    assert_eq!(settings.instr_recovery_threshold_pct, d(2.0));
    assert_eq!(default_profile_secs(), 30);
    assert_eq!(default_retention_days(), 30);
}

#[test]
fn a_nan_threshold_is_not_out_of_range() {
    let nan = Tuning { regression_threshold_pct: Some(d(f64::NAN)), ..Tuning::default() };
    assert!(Settings::resolve(&nan, &Tuning::default()).is_ok());
}

#[test]
fn the_package_defaults_to_the_repo_name() {
    let cfg = parse(SAMPLE).unwrap();
    let mut repo = cfg.repos[0].clone();
    assert_eq!(repo.package(), "mega-evm");
    assert_eq!(repo.headline_label(), "rex5, rex5_*");
    repo.package = Some("mega-evm-core".to_string());
    assert_eq!(repo.package(), "mega-evm-core");
    repo.subject_order = Some(vec!["rex5".to_string(), "revm_pinned".to_string()]);
    assert_eq!(repo.subject_order(), vec!["rex5", "revm_pinned"]);
}
