//! Command-line arguments and their validation.

use crate::errors::{DiskPulseError, ParseError, SafetyError};
use crate::path::PathBuf;
use crate::scanner::{criterion_named, law_criterion_words, SortCriterion};
use crate::text::lowered;
use crate::util::{duration_value, parse_duration, parse_size, size_value};
use vstd::prelude::*;
use vstd::string::*;

verus! {

/// A parsed command line.
#[derive(Debug)]
pub struct Cli {
    /// Increase verbosity (-v info, -vv debug, -vvv trace)
    pub verbose: u8,
    /// Suppress non-error output
    pub quiet: bool,
    /// Disable colored terminal output (also honored via NO_COLOR env var)
    pub no_color: bool,
    /// Emit machine-readable JSON output (stdout only; progress stays silent)
    pub json: bool,
    pub command: Commands,
}

/// Severity threshold derived from the number of `-v` occurrences.
#[derive(Debug, Clone, Copy, PartialEq, Eq, PartialOrd, Ord, Structural)]
pub enum LevelFilter {
    Off,
    Error,
    Warn,
    Info,
    Debug,
    Trace,
}

impl Cli {
    /// Map the counted `-v` flags onto a log level filter.
    pub fn log_level(&self) -> (level: LevelFilter)
        ensures
            level == match self.verbose {
                0u8 => LevelFilter::Warn,
                1u8 => LevelFilter::Info,
                2u8 => LevelFilter::Debug,
                _ => LevelFilter::Trace,
            },
    {
        if self.verbose == 0 {
            LevelFilter::Warn
        } else if self.verbose == 1 {
            LevelFilter::Info
        } else if self.verbose == 2 {
            LevelFilter::Debug
        } else {
            LevelFilter::Trace
        }
    }
}

/// The shells that completion scripts are written for.
#[derive(Debug, Clone, Copy, PartialEq, Eq, Structural)]
pub enum Shell {
    Bash,
    Elvish,
    Fish,
    PowerShell,
    Zsh,
}

#[derive(Debug)]
pub enum Commands {
    /// Visualize directory disk usage in a hierarchical tree view
    Viz(VizArgs),
    /// Safely inspect and clean temporary files and caches
    Clean(CleanArgs),
    /// List all supported cache targets and locations on this OS
    Targets(TargetsArgs),
    /// Generate shell completion scripts (bash, zsh, fish, powershell)
    Completions { shell: Shell },
}

pub const DEFAULT_DEPTH: usize = 2;

pub const DEFAULT_TOP: usize = 10;

/// Arguments for `diskpulse viz`.
#[derive(Debug)]
pub struct VizArgs {
    /// Directory to inspect (defaults to the current directory)
    pub path: Option<PathBuf>,
    /// Maximum traversal depth to visualize
    pub depth: usize,
    /// Number of largest entries to show per directory
    pub top: usize,
    /// Hide entries smaller than this threshold (e.g. "100M", "1G")
    pub min_size: Option<String>,
    /// Sort entries by "size", "count", or "name"
    pub sort: String,
    /// Exclude paths matching these glob patterns
    pub exclude: Vec<String>,
    /// Report logical file sizes instead of allocated disk blocks
    pub apparent_size: bool,
    /// Do not ignore heavyweight dev directories (.git, node_modules, target, ...)
    pub no_ignore: bool,
    /// Include hidden and dot-files
    pub hidden: bool,
    /// Stay on a single filesystem (do not cross mount points)
    pub one_file_system: bool,
}

/// The first thing wrong with a set of arguments.
pub enum Fault {
    /// A flag with a value out of range.
    Flag(Seq<char>, Seq<char>),
    Sort(Seq<char>),
    /// A size that does not parse, and why.
    Size(Seq<char>, Seq<char>),
    /// A duration that does not parse, and why.
    Age(Seq<char>, Seq<char>),
    /// Flags that do not go together.
    Combination(Seq<char>),
}

impl DiskPulseError {
    /// The fault in the arguments that this error reports, if it reports one.
    pub open spec fn fault(self) -> Option<Fault> {
        match self {
            DiskPulseError::Parse(ParseError::InvalidFlagValue { flag, reason }) => Some(
                Fault::Flag(flag@, reason@),
            ),
            DiskPulseError::Parse(ParseError::InvalidSortField(field)) => Some(
                Fault::Sort(field@),
            ),
            DiskPulseError::Parse(ParseError::InvalidByteSize { input, reason }) => Some(
                Fault::Size(input@, reason@),
            ),
            DiskPulseError::Parse(ParseError::InvalidDuration { input, reason }) => Some(
                Fault::Age(input@, reason@),
            ),
            DiskPulseError::Safety(SafetyError::InvalidCliCombination(text)) => Some(
                Fault::Combination(text@),
            ),
            _ => None,
        }
    }
}

/// The outcome is `Ok` exactly when there is no fault, and otherwise reports
/// it.
pub open spec fn tells(outcome: Result<(), DiskPulseError>, fault: Option<Fault>) -> bool {
    match outcome {
        Ok(_) => fault is None,
        Err(error) => fault is Some && error.fault() == fault,
    }
}

/// The fault in an optional size.
pub open spec fn size_fault(raw: Option<String>) -> Option<Fault> {
    match raw {
        Some(raw) => match size_value(raw@) {
            Ok(_) => None,
            Err(reason) => Some(Fault::Size(raw@, reason)),
        },
        None => None,
    }
}

/// The fault in an optional duration.
pub open spec fn age_fault(raw: Option<String>) -> Option<Fault> {
    match raw {
        Some(raw) => match duration_value(raw@) {
            Ok(_) => None,
            Err(reason) => Some(Fault::Age(raw@, reason)),
        },
        None => None,
    }
}

impl VizArgs {
    /// The first thing wrong with these arguments.
    pub open spec fn fault(self) -> Option<Fault> {
        if self.depth == 0 {
            Some(Fault::Flag("depth"@, "must be at least 1"@))
        } else if self.top == 0 {
            Some(Fault::Flag("top"@, "must be at least 1"@))
        } else if criterion_named(self.sort@) is None {
            Some(Fault::Sort(lowered(self.sort@)))
        } else {
            size_fault(self.min_size)
        }
    }

    /// Typed validation so malformed flags exit with code 2.
    pub fn validate(&self) -> (outcome: Result<(), DiskPulseError>)
        ensures
            tells(outcome, self.fault()),
    {
        if self.depth == 0 {
            return Err(
                DiskPulseError::Parse(
                    ParseError::InvalidFlagValue {
                        flag: "depth".to_owned(),
                        reason: "must be at least 1".to_owned(),
                    },
                ),
            );
        }
        if self.top == 0 {
            return Err(
                DiskPulseError::Parse(
                    ParseError::InvalidFlagValue {
                        flag: "top".to_owned(),
                        reason: "must be at least 1".to_owned(),
                    },
                ),
            );
        }
        if let Err(error) = SortCriterion::parse(self.sort.as_str()) {
            return Err(DiskPulseError::Parse(error));
        }
        if let Some(raw) = &self.min_size {
            if let Err(error) = parse_size(raw.as_str()) {
                return Err(DiskPulseError::Parse(error));
            }
        }
        Ok(())
    }
}

/// Arguments for `diskpulse clean`.
#[derive(Debug)]
pub struct CleanArgs {
    /// Target IDs to clean (e.g. "cargo-cache", "system-temp"); empty selects
    /// every default target, "all" expands to every registered target
    /// including opt-ins
    pub targets: Vec<String>,
    /// Perform the deletion; without this flag diskpulse only prints a
    /// dry-run plan
    pub apply: bool,
    /// Skip the confirmation prompt (requires --apply)
    pub yes: bool,
    /// Move items to the OS trash instead of unlinking them permanently
    pub trash: bool,
    /// Only consider items older than this age (e.g. "30d", "12h")
    pub older_than: Option<String>,
    /// Only consider items at least this large (e.g. "10M")
    pub min_size: Option<String>,
    /// Clean a specific path using cleaner heuristics instead of registered
    /// targets
    pub path: Option<PathBuf>,
    /// Stay on a single filesystem (do not cross mount points)
    pub one_file_system: bool,
}

impl CleanArgs {
    /// The first thing wrong with these arguments.
    pub open spec fn fault(self) -> Option<Fault> {
        if self.yes && !self.apply {
            Some(
                Fault::Combination(
                    "--yes flag was provided without --apply. To prevent accidental operations, --yes requires --apply."@,
                ),
            )
        } else if self.path is Some && self.targets@.len() > 0 {
            Some(Fault::Combination("--path cannot be combined with explicit target IDs."@))
        } else if size_fault(self.min_size) is Some {
            size_fault(self.min_size)
        } else {
            age_fault(self.older_than)
        }
    }

    /// Typed validation so safety violations surface as
    /// [`SafetyError::InvalidCliCombination`] (exit code 2).
    pub fn validate(&self) -> (outcome: Result<(), DiskPulseError>)
        ensures
            tells(outcome, self.fault()),
    {
        if self.yes && !self.apply {
            return Err(
                DiskPulseError::Safety(
                    SafetyError::InvalidCliCombination(
                        "--yes flag was provided without --apply. To prevent accidental operations, --yes requires --apply.".to_owned(),
                    ),
                ),
            );
        }
        if self.path.is_some() && self.targets.len() > 0 {
            return Err(
                DiskPulseError::Safety(
                    SafetyError::InvalidCliCombination(
                        "--path cannot be combined with explicit target IDs.".to_owned(),
                    ),
                ),
            );
        }
        if let Some(raw) = &self.min_size {
            if let Err(error) = parse_size(raw.as_str()) {
                return Err(DiskPulseError::Parse(error));
            }
        }
        if let Some(raw) = &self.older_than {
            if let Err(error) = parse_duration(raw.as_str()) {
                return Err(DiskPulseError::Parse(error));
            }
        }
        Ok(())
    }
}

/// Arguments for `diskpulse targets`.
#[derive(Debug)]
pub struct TargetsArgs {
    /// Include opt-in (non-default) targets as well
    pub all: bool,
}

/// Whatever is wrong with the arguments, the process exits with code 2.
pub proof fn law_faults_are_usage_mistakes(error: DiskPulseError)
    requires
        error.fault() is Some,
    ensures
        error.usage_mistake(),
{
}

/// Which arguments of a visualization are accepted: a depth and a number of at
/// least one, one of the three criteria, and a size that parses.
pub proof fn law_viz_arguments(args: VizArgs)
    ensures
        args.fault() is None <==> {
            &&& args.depth >= 1
            &&& args.top >= 1
            &&& lowered(args.sort@) == "size"@ || lowered(args.sort@) == "count"@ || lowered(
                args.sort@,
            ) == "name"@
            &&& args.min_size matches Some(raw) ==> size_value(raw@) is Ok
        },
        args.depth == 0 ==> args.fault() == Some(Fault::Flag("depth"@, "must be at least 1"@)),
        args.depth >= 1 && args.top == 0 ==> args.fault() == Some(
            Fault::Flag("top"@, "must be at least 1"@),
        ),
{
    law_criterion_words(args.sort@);
}

/// Which arguments of a cleanup are accepted: `--yes` only with `--apply`, no
/// targets besides a path, and a size and an age that parse.
pub proof fn law_clean_arguments(args: CleanArgs)
    ensures
        args.fault() is None <==> {
            &&& args.yes ==> args.apply
            &&& args.path is Some ==> args.targets@.len() == 0
            &&& args.min_size matches Some(raw) ==> size_value(raw@) is Ok
            &&& args.older_than matches Some(raw) ==> duration_value(raw@) is Ok
        },
        args.yes && !args.apply ==> args.fault() is Some && args.fault()->0 is Combination,
        (args.yes ==> args.apply) && args.path is Some && args.targets@.len() > 0
            ==> args.fault() is Some && args.fault()->0 is Combination,
{
}

} // verus!
