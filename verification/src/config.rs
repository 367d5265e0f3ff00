//! The settings that the analysis reads.

use vstd::prelude::*;

verus! {

/// The module path that stands for the root of the project.
pub const ROOT_MODULE_SENTINEL_TAG: &'static str = "<root>";

/// What to look for.
#[derive(Clone, Copy, Debug, PartialEq, Eq, Structural)]
pub enum DeadcodeDetection {
    Files,
    Symbols,
}

/// How a rule is applied.
#[derive(Clone, Copy, Debug, PartialEq, Eq, Structural)]
pub enum RuleSetting {
    Off,
    Warn,
    Error,
}

#[derive(Clone, Copy, Debug, PartialEq, Eq, Structural)]
pub enum Severity {
    Error,
    Warning,
}

/// The severity of what a rule reports; a rule that is off reports nothing.
pub open spec fn rule_severity(setting: RuleSetting) -> Option<Severity> {
    match setting {
        RuleSetting::Off => None,
        RuleSetting::Warn => Some(Severity::Warning),
        RuleSetting::Error => Some(Severity::Error),
    }
}

impl RuleSetting {
    pub fn severity(self) -> (severity: Option<Severity>)
        ensures
            severity == rule_severity(self),
    {
        match self {
            RuleSetting::Off => None,
            RuleSetting::Warn => Some(Severity::Warning),
            RuleSetting::Error => Some(Severity::Error),
        }
    }
}

/// The settings of the dead code analysis.
#[derive(Debug)]
pub struct DeadcodeConfig {
    pub detect: Vec<DeadcodeDetection>,
    pub severity: RuleSetting,
    pub entry_points: Vec<String>,
    pub exclude: Vec<String>,
    /// Files and modules that are not reported as dead. A rule for a symbol, which has a colon,
    /// applies to no file but one named by what stands before the colon.
    pub ignore: Vec<String>,
    /// Modules whose symbols are live unless their names start with an underscore.
    pub public_modules: Vec<String>,
    /// Symbols that are live.
    pub public_symbols: Vec<String>,
    /// Decorators that make a symbol live.
    pub public_decorators: Vec<String>,
    pub include_test_usages: bool,
    pub protect_init_files: bool,
    /// Whether the names in `__all__` are live.
    pub respect_all: bool,
    /// Whether modules whose names depend on run time are left out.
    pub ignore_dynamic_modules: bool,
}

/// The settings of one module and the modules below it.
#[derive(Debug)]
pub struct ModuleConfig {
    pub path: String,
    pub unchecked: bool,
}

/// The settings of a project.
#[derive(Debug)]
pub struct ProjectConfig {
    pub exclude: Vec<String>,
    pub modules: Vec<ModuleConfig>,
    pub deadcode: DeadcodeConfig,
}

} // verus!
