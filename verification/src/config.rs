//! Which repos are tracked, what to bench, and how their subjects are
//! interpreted.
use crate::double;
use crate::double::Double;
use crate::lane::Lane;
use crate::state::Thresholds;
use crate::text;
use vstd::prelude::*;

verus! {

#[derive(Debug, Clone, PartialEq)]
pub struct RepoConfig {
    pub name: String,
    pub github: String,
    pub branch: String,
    pub clone_url: String,
    pub bench_targets: Vec<String>,
    /// The subject every ratio is computed against.
    pub baseline_subject: String,
    /// Subject patterns that headline this repo: exact names or trailing-`*`
    /// prefixes. Headline rows drive regression events, the ratio column, and
    /// digests.
    pub headline_subjects: Vec<String>,
    /// Display order for subjects in the comparison table; unlisted subjects
    /// follow alphabetically. Defaults to baseline-first.
    pub subject_order: Option<Vec<String>>,
    /// Cargo package the bench targets live in; defaults to `name`.
    pub package: Option<String>,
    /// Per-repo tuning overrides.
    pub tuning: Tuning,
    /// Flame-graph settings; absent = not available for this repo.
    pub flamegraph: Option<FlamegraphConfig>,
    /// Instructions-lane settings; absent = the lane is off.
    pub instructions: Option<InstructionsConfig>,
}

/// Is `value` matched by `pattern`: exactly, or as a prefix where the pattern
/// ends with `*`?
pub open spec fn star_match(pattern: Seq<char>, value: Seq<char>) -> bool {
    if pattern.len() > 0 && pattern.last() == '*' {
        text::has_prefix(value, pattern.drop_last())
    } else {
        pattern == value
    }
}

/// Is `value` matched by one of the patterns?
pub open spec fn any_star_match(patterns: Seq<Seq<char>>, value: Seq<char>) -> bool {
    exists|i: int| 0 <= i < patterns.len() && star_match(#[trigger] patterns[i], value)
}

/// The pattern `*` matches everything.
pub proof fn law_bare_star_matches_everything(patterns: Seq<Seq<char>>, value: Seq<char>)
    requires
        patterns.contains("*"@),
    ensures
        any_star_match(patterns, value),
{
    reveal_strlit("*");
    let i = patterns.index_of("*"@);
    assert("*"@.drop_last() =~= Seq::empty());
    assert(value.take(0) =~= Seq::empty());
    assert(star_match(patterns[i], value));
}

/// `true` when `value` matches `pattern` — exact, or prefix when the pattern
/// ends with `*`. The one pattern grammar of every user-facing filter.
pub fn star_pattern_matches(pattern: &str, value: &str) -> (r: bool)
    ensures
        r == star_match(pattern@, value@),
{
    proof {
        reveal_strlit("*");
        let p = pattern@;
        if p.len() > 0 {
            assert(p.skip(p.len() - 1) =~= seq![p.last()]);
            assert(p.take(p.len() - 1) =~= p.drop_last());
        }
        assert("*"@ =~= seq!['*']);
        assert(seq!['*'][0] == '*');
        if p.len() > 0 && p.last() != '*' {
            assert(seq![p.last()][0] != seq!['*'][0]);
        }
    }
    match text::strip_suffix(pattern, "*") {
        Some(prefix) => text::starts_with(value, prefix.as_str()),
        None => text::same(pattern, value),
    }
}

/// Does any of the patterns match?
pub fn any_pattern_matches(patterns: &Vec<String>, value: &str) -> (r: bool)
    ensures
        r == any_star_match(text::views(patterns@), value@),
{
    let mut i: usize = 0;
    while i < patterns.len()
        invariant
            i <= patterns@.len(),
            forall|j: int| 0 <= j < i ==> !star_match(#[trigger] patterns@[j]@, value@),
        decreases patterns@.len() - i,
    {
        if star_pattern_matches(patterns[i].as_str(), value) {
            assert(star_match(text::views(patterns@)[i as int], value@));
            return true;
        }
        i = i + 1;
    }
    assert forall|j: int| 0 <= j < patterns@.len() implies !star_match(
        #[trigger] text::views(patterns@)[j],
        value@,
    ) by {
        assert(!star_match(patterns@[j]@, value@));
    }
    false
}

impl RepoConfig {
    pub open spec fn package_spec(self) -> Seq<char> {
        match self.package {
            Some(p) => p@,
            None => self.name@,
        }
    }

    pub open spec fn headline_spec(self, subject: Seq<char>) -> bool {
        any_star_match(text::views(self.headline_subjects@), subject)
    }

    pub open spec fn label_spec(self) -> Seq<char> {
        text::join_spec(text::views(self.headline_subjects@), ", "@)
    }

    pub open spec fn order_spec(self) -> Seq<Seq<char>> {
        match self.subject_order {
            Some(order) => text::views(order@),
            None => seq![self.baseline_subject@],
        }
    }

    pub fn package(&self) -> (r: &str)
        ensures
            r@ == self.package_spec(),
    {
        match &self.package {
            Some(p) => p.as_str(),
            None => self.name.as_str(),
        }
    }

    /// Does `subject` match any headline pattern?
    pub fn is_headline(&self, subject: &str) -> (r: bool)
        ensures
            r == self.headline_spec(subject@),
    {
        any_pattern_matches(&self.headline_subjects, subject)
    }

    /// Human-readable label for the headline family.
    pub fn headline_label(&self) -> (r: String)
        ensures
            r@ == self.label_spec(),
    {
        text::join(&self.headline_subjects, ", ")
    }

    /// Resolved subject display order: configured list, or baseline-first.
    pub fn subject_order(&self) -> (r: Vec<String>)
        ensures
            text::views(r@) == self.order_spec(),
    {
        match &self.subject_order {
            Some(order) => text::copy_list(order),
            None => {
                let mut r: Vec<String> = Vec::new();
                r.push(self.baseline_subject.clone());
                assert(text::views(r@) =~= seq![self.baseline_subject@]);
                r
            },
        }
    }
}

/// The tunable knobs, all optional at both the `[defaults]` and per-repo
/// level. Resolution order: repo value, `[defaults]` value, built-in.
#[derive(Debug, Clone, PartialEq)]
pub struct Tuning {
    /// Alert when a headline row rises more than this % over its rolling
    /// median (built-in: 10).
    pub regression_threshold_pct: Option<Double>,
    /// A latched row recovers only when back within this % of its frozen
    /// median. Unset = the regression threshold, i.e. no hysteresis.
    pub recovery_threshold_pct: Option<Double>,
    /// The instructions lane's regression threshold (built-in: 2).
    pub instr_regression_threshold_pct: Option<Double>,
    /// The instructions lane's recovery threshold. Unset = the lane's
    /// regression threshold.
    pub instr_recovery_threshold_pct: Option<Double>,
    /// How many healthy runs feed the rolling median (built-in: 20).
    pub rolling_window: Option<usize>,
    /// Commits per trend digest (built-in: 10).
    pub digest_batch_size: Option<u32>,
    /// Cargo profile for `cargo bench` runs. Unset = cargo's default bench
    /// profile.
    pub bench_profile: Option<String>,
}

impl Default for Tuning {
    fn default() -> (r: Tuning)
        ensures
            r.regression_threshold_pct is None,
            r.recovery_threshold_pct is None,
            r.instr_regression_threshold_pct is None,
            r.instr_recovery_threshold_pct is None,
            r.rolling_window is None,
            r.digest_batch_size is None,
            r.bench_profile is None,
    {
        Tuning {
            regression_threshold_pct: None,
            recovery_threshold_pct: None,
            instr_regression_threshold_pct: None,
            instr_recovery_threshold_pct: None,
            rolling_window: None,
            digest_batch_size: None,
            bench_profile: None,
        }
    }
}

/// Built-in values used when neither the repo nor `[defaults]` sets a knob.
pub const DEFAULT_ROLLING_WINDOW: usize = 20;

pub const DEFAULT_DIGEST_BATCH_SIZE: u32 = 10;

/// Fully-resolved settings for one repo.
#[derive(Debug, Clone, PartialEq)]
pub struct Settings {
    pub regression_threshold_pct: Double,
    /// Defaults to `regression_threshold_pct` when not configured.
    pub recovery_threshold_pct: Double,
    pub instr_regression_threshold_pct: Double,
    /// Defaults to `instr_regression_threshold_pct` when not configured.
    pub instr_recovery_threshold_pct: Double,
    pub rolling_window: usize,
    pub digest_batch_size: u32,
    pub bench_profile: Option<String>,
}

/// Why a configuration is turned down.
#[derive(Debug, Clone, Copy, PartialEq, Eq, Structural)]
pub enum ConfigError {
    NoRepos,
    RegressionNotPositive,
    RecoveryNotPositive,
    RecoveryAboveRegression,
    InstrRegressionNotPositive,
    InstrRecoveryNotPositive,
    InstrRecoveryAboveRegression,
    EmptyWindow,
    EmptyDigestBatch,
}

impl ConfigError {
    pub open spec fn message_spec(self) -> Seq<char> {
        match self {
            ConfigError::NoRepos => "config has no [[repos]] entries"@,
            ConfigError::RegressionNotPositive => "regression_threshold_pct must be > 0"@,
            ConfigError::RecoveryNotPositive => "recovery_threshold_pct must be > 0"@,
            ConfigError::RecoveryAboveRegression =>
                "recovery_threshold_pct must be <= regression_threshold_pct"@,
            ConfigError::InstrRegressionNotPositive =>
                "instr_regression_threshold_pct must be > 0"@,
            ConfigError::InstrRecoveryNotPositive => "instr_recovery_threshold_pct must be > 0"@,
            ConfigError::InstrRecoveryAboveRegression =>
                "instr_recovery_threshold_pct must be <= instr_regression_threshold_pct"@,
            ConfigError::EmptyWindow => "rolling_window must be >= 1"@,
            ConfigError::EmptyDigestBatch => "digest_batch_size must be >= 1"@,
        }
    }

    pub fn message(self) -> (r: String)
        ensures
            r@ == self.message_spec(),
    {
        match self {
            ConfigError::NoRepos => "config has no [[repos]] entries".to_string(),
            ConfigError::RegressionNotPositive => "regression_threshold_pct must be > 0".to_string(),
            ConfigError::RecoveryNotPositive => "recovery_threshold_pct must be > 0".to_string(),
            ConfigError::RecoveryAboveRegression =>
                "recovery_threshold_pct must be <= regression_threshold_pct".to_string(),
            ConfigError::InstrRegressionNotPositive =>
                "instr_regression_threshold_pct must be > 0".to_string(),
            ConfigError::InstrRecoveryNotPositive =>
                "instr_recovery_threshold_pct must be > 0".to_string(),
            ConfigError::InstrRecoveryAboveRegression =>
                "instr_recovery_threshold_pct must be <= instr_regression_threshold_pct".to_string(),
            ConfigError::EmptyWindow => "rolling_window must be >= 1".to_string(),
            ConfigError::EmptyDigestBatch => "digest_batch_size must be >= 1".to_string(),
        }
    }
}

/// The first of the two values that is set, else the last.
pub open spec fn pick<T>(repo: Option<T>, defaults: Option<T>, built_in: T) -> T {
    match repo {
        Some(v) => v,
        None => match defaults {
            Some(v) => v,
            None => built_in,
        },
    }
}

fn pick_double(repo: Option<Double>, defaults: Option<Double>, built_in: Double) -> (r: Double)
    ensures
        r == pick(repo, defaults, built_in),
{
    match repo {
        Some(v) => v,
        None => match defaults {
            Some(v) => v,
            None => built_in,
        },
    }
}

impl Settings {
    /// The settings that the knobs resolve to, before any check.
    pub open spec fn resolved(repo: Tuning, defaults: Tuning) -> Settings {
        let regression = pick(
            repo.regression_threshold_pct,
            defaults.regression_threshold_pct,
            Double { bits: double::TEN },
        );
        let instr = pick(
            repo.instr_regression_threshold_pct,
            defaults.instr_regression_threshold_pct,
            Double { bits: double::TWO },
        );
        Settings {
            regression_threshold_pct: regression,
            recovery_threshold_pct: pick(
                repo.recovery_threshold_pct,
                defaults.recovery_threshold_pct,
                regression,
            ),
            instr_regression_threshold_pct: instr,
            instr_recovery_threshold_pct: pick(
                repo.instr_recovery_threshold_pct,
                defaults.instr_recovery_threshold_pct,
                instr,
            ),
            rolling_window: pick(
                repo.rolling_window,
                defaults.rolling_window,
                DEFAULT_ROLLING_WINDOW,
            ),
            digest_batch_size: pick(
                repo.digest_batch_size,
                defaults.digest_batch_size,
                DEFAULT_DIGEST_BATCH_SIZE,
            ),
            bench_profile: match repo.bench_profile {
                Some(p) => Some(p),
                None => defaults.bench_profile,
            },
        }
    }

    /// What is wrong with the settings, checked in this order: thresholds must
    /// be positive and recovery at most regression (walltime, then
    /// instructions), the window and the batch not empty.
    pub open spec fn fault(self) -> Option<ConfigError> {
        let zero = Double { bits: 0 };
        if self.regression_threshold_pct.le_spec(zero) {
            Some(ConfigError::RegressionNotPositive)
        } else if self.recovery_threshold_pct.le_spec(zero) {
            Some(ConfigError::RecoveryNotPositive)
        } else if self.regression_threshold_pct.lt_spec(self.recovery_threshold_pct) {
            Some(ConfigError::RecoveryAboveRegression)
        } else if self.instr_regression_threshold_pct.le_spec(zero) {
            Some(ConfigError::InstrRegressionNotPositive)
        } else if self.instr_recovery_threshold_pct.le_spec(zero) {
            Some(ConfigError::InstrRecoveryNotPositive)
        } else if self.instr_regression_threshold_pct.lt_spec(self.instr_recovery_threshold_pct) {
            Some(ConfigError::InstrRecoveryAboveRegression)
        } else if self.rolling_window == 0 {
            Some(ConfigError::EmptyWindow)
        } else if self.digest_batch_size == 0 {
            Some(ConfigError::EmptyDigestBatch)
        } else {
            None
        }
    }

    pub open spec fn thresholds_spec(self, lane: Lane) -> Thresholds {
        match lane {
            Lane::Walltime => Thresholds {
                regression_pct: self.regression_threshold_pct,
                recovery_pct: self.recovery_threshold_pct,
            },
            Lane::Instructions => Thresholds {
                regression_pct: self.instr_regression_threshold_pct,
                recovery_pct: self.instr_recovery_threshold_pct,
            },
        }
    }

    /// Resolves the knobs: repo value over `[defaults]` over built-in.
    /// Values that would silently disable alerting or spam it are rejected.
    pub fn resolve(repo: &Tuning, defaults: &Tuning) -> (r: Result<Settings, ConfigError>)
        ensures
            match r {
                Ok(settings) => settings == Settings::resolved(*repo, *defaults)
                    && settings.fault() is None,
                Err(e) => Settings::resolved(*repo, *defaults).fault() == Some(e),
            },
    {
        let regression: Double = pick_double(
            repo.regression_threshold_pct,
            defaults.regression_threshold_pct,
            Double { bits: double::TEN },
        );
        let instr: Double = pick_double(
            repo.instr_regression_threshold_pct,
            defaults.instr_regression_threshold_pct,
            Double { bits: double::TWO },
        );
        let rolling_window: usize = match repo.rolling_window {
            Some(n) => n,
            None => match defaults.rolling_window {
                Some(n) => n,
                None => DEFAULT_ROLLING_WINDOW,
            },
        };
        let digest_batch_size: u32 = match repo.digest_batch_size {
            Some(n) => n,
            None => match defaults.digest_batch_size {
                Some(n) => n,
                None => DEFAULT_DIGEST_BATCH_SIZE,
            },
        };
        let settings = Settings {
            regression_threshold_pct: regression,
            recovery_threshold_pct: pick_double(
                repo.recovery_threshold_pct,
                defaults.recovery_threshold_pct,
                regression,
            ),
            instr_regression_threshold_pct: instr,
            instr_recovery_threshold_pct: pick_double(
                repo.instr_recovery_threshold_pct,
                defaults.instr_recovery_threshold_pct,
                instr,
            ),
            rolling_window,
            digest_batch_size,
            bench_profile: match &repo.bench_profile {
                Some(p) => Some(p.clone()),
                None => text::copy_opt(&defaults.bench_profile),
            },
        };
        let zero = Double { bits: 0 };
        if settings.regression_threshold_pct.le(zero) {
            return Err(ConfigError::RegressionNotPositive);
        }
        if settings.recovery_threshold_pct.le(zero) {
            return Err(ConfigError::RecoveryNotPositive);
        }
        if settings.regression_threshold_pct.lt(settings.recovery_threshold_pct) {
            return Err(ConfigError::RecoveryAboveRegression);
        }
        if settings.instr_regression_threshold_pct.le(zero) {
            return Err(ConfigError::InstrRegressionNotPositive);
        }
        if settings.instr_recovery_threshold_pct.le(zero) {
            return Err(ConfigError::InstrRecoveryNotPositive);
        }
        if settings.instr_regression_threshold_pct.lt(settings.instr_recovery_threshold_pct) {
            return Err(ConfigError::InstrRecoveryAboveRegression);
        }
        if settings.rolling_window == 0 {
            return Err(ConfigError::EmptyWindow);
        }
        if settings.digest_batch_size == 0 {
            return Err(ConfigError::EmptyDigestBatch);
        }
        Ok(settings)
    }

    /// The threshold pair that a lane's check uses.
    pub fn thresholds(&self, lane: Lane) -> (r: Thresholds)
        ensures
            r == self.thresholds_spec(lane),
    {
        match lane {
            Lane::Walltime => Thresholds {
                regression_pct: self.regression_threshold_pct,
                recovery_pct: self.recovery_threshold_pct,
            },
            Lane::Instructions => Thresholds {
                regression_pct: self.instr_regression_threshold_pct,
                recovery_pct: self.instr_recovery_threshold_pct,
            },
        }
    }
}

/// Nightly flame-graph settings. The workload set is config, not code, so
/// adjusting which benchmark ids get profiled is a config change.
#[derive(Debug, Clone, PartialEq, Eq)]
pub struct FlamegraphConfig {
    /// The bench target (`--bench <this>`) containing the workloads.
    pub bench_target: String,
    /// Seconds passed to criterion's `--profile-time` per workload.
    pub profile_secs: u64,
    /// Days of `flame/<date>/` directories to keep.
    pub retention_days: u32,
    /// Baseline/feature benchmark-id pairs; each side gets its own SVG and the
    /// pair gets a differential SVG (feature vs baseline).
    pub workloads: Vec<FlameWorkloadPair>,
}

#[derive(Debug, Clone, PartialEq, Eq)]
pub struct FlameWorkloadPair {
    /// Full benchmark id, e.g. `salt_dynamic_gas/revm_pinned/sstore_100`.
    pub baseline: String,
    /// Full benchmark id, e.g. `salt_dynamic_gas/rex5_salt/sstore_100`.
    pub feature: String,
}

/// Instructions-lane settings.
#[derive(Debug, Clone, PartialEq, Eq)]
pub struct InstructionsConfig {
    /// Narrows the instrumented run to matching benchmarks.
    pub bench_filter: Option<String>,
    /// Turns a skipped or failed lane into a failing run.
    pub require_instructions: bool,
}

impl Default for InstructionsConfig {
    fn default() -> (r: InstructionsConfig)
        ensures
            r.bench_filter is None,
            !r.require_instructions,
    {
        InstructionsConfig { bench_filter: None, require_instructions: false }
    }
}

pub fn default_profile_secs() -> (r: u64)
    ensures
        r == 30,
{
    30
}

pub fn default_retention_days() -> (r: u32)
    ensures
        r == 30,
{
    30
}

#[derive(Debug, Clone, PartialEq)]
pub struct Config {
    /// Global tuning defaults, overridable per repo.
    pub defaults: Tuning,
    pub repos: Vec<RepoConfig>,
}

impl Config {
    /// A configuration must track something.
    pub fn checked(self) -> (r: Result<Config, ConfigError>)
        ensures
            match r {
                Ok(cfg) => cfg == self && self.repos@.len() > 0,
                Err(e) => self.repos@.len() == 0 && e == ConfigError::NoRepos,
            },
    {
        if self.repos.len() == 0 {
            Err(ConfigError::NoRepos)
        } else {
            Ok(self)
        }
    }

    /// The first repo of that name.
    pub fn repo(&self, name: &str) -> (r: Result<&RepoConfig, String>)
        ensures
            match r {
                Ok(repo) => exists|i: int|
                    0 <= i < self.repos@.len() && #[trigger] self.repos@[i] == *repo
                        && repo.name@ == name@ && forall|j: int|
                        0 <= j < i ==> (#[trigger] self.repos@[j]).name@ != name@,
                Err(message) => (forall|j: int|
                    0 <= j < self.repos@.len() ==> (#[trigger] self.repos@[j]).name@ != name@)
                    && message@ == "no repo named '"@ + name@ + "' in config"@,
            },
    {
        let mut i: usize = 0;
        while i < self.repos.len()
            invariant
                i <= self.repos@.len(),
                forall|j: int| 0 <= j < i ==> (#[trigger] self.repos@[j]).name@ != name@,
            decreases self.repos@.len() - i,
        {
            if text::same(self.repos[i].name.as_str(), name) {
                return Ok(&self.repos[i]);
            }
            i = i + 1;
        }
        Err(text::cat3("no repo named '", name, "' in config"))
    }

    /// Resolved settings for a repo: per-repo overrides over `[defaults]` over
    /// built-ins.
    pub fn settings(&self, repo: &RepoConfig) -> (r: Result<Settings, ConfigError>)
        ensures
            match r {
                Ok(settings) => settings == Settings::resolved(repo.tuning, self.defaults)
                    && settings.fault() is None,
                Err(e) => Settings::resolved(repo.tuning, self.defaults).fault() == Some(e),
            },
    {
        Settings::resolve(&repo.tuning, &self.defaults)
    }
}

} // verus!
