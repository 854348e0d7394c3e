//! Typed domain error taxonomy shared across scanning, cleaning, parsing,
//! safety enforcement and the command-line layer.

use crate::path::PathBuf;
use vstd::prelude::*;
use vstd::string::*;

verus! {

// ---------------------------------------------------------------------------
// Quoted rendering
// ---------------------------------------------------------------------------
/// The quoted, escaped rendering of a text: what `{:?}` writes for a `str`.
pub uninterp spec fn quoted(s: Seq<char>) -> Seq<char>;

/// The quoted, escaped rendering of a path: what `{:?}` writes for a
/// `std::path::Path`.
pub uninterp spec fn quoted_path(s: Seq<char>) -> Seq<char>;

/// `<str as Debug>::fmt`, through `format!`. Claims only that the rendering
/// depends on the text alone.
#[verifier::external_body]
pub(crate) fn quote(s: &str) -> (out: String)
    ensures
        out@ == quoted(s@),
{
    format!("{:?}", s)
}

/// `<std::path::Path as Debug>::fmt`, through `format!`. Claims only that the
/// rendering depends on the spelling of the path alone.
#[verifier::external_body]
pub(crate) fn quote_path(s: &str) -> (out: String)
    ensures
        out@ == quoted_path(s@),
{
    format!("{:?}", std::path::Path::new(s))
}

// ---------------------------------------------------------------------------
// I/O failures
// ---------------------------------------------------------------------------
/// The kinds of I/O failure that are told apart.
#[derive(Debug, Clone, Copy, PartialEq, Eq, Structural)]
pub enum IoErrorKind {
    NotFound,
    PermissionDenied,
    Other,
}

/// An I/O failure: its kind and the message the operating system gave.
#[derive(Debug, PartialEq)]
pub struct IoError {
    pub kind: IoErrorKind,
    pub message: String,
}

impl IoError {
    /// A failure of no particular kind.
    pub fn other(message: &str) -> (out: Self)
        ensures
            out.kind == IoErrorKind::Other,
            out.message@ == message@,
    {
        IoError { kind: IoErrorKind::Other, message: message.to_owned() }
    }
}

impl Clone for IoError {
    fn clone(&self) -> (out: Self)
        ensures
            out == *self,
    {
        IoError { kind: self.kind, message: self.message.clone() }
    }
}

// ---------------------------------------------------------------------------
// Domain errors
// ---------------------------------------------------------------------------
/// Top-level error type aggregating every subsystem failure mode. The child
/// error's own message is displayed directly.
#[derive(Debug)]
pub enum DiskPulseError {
    /// A safety invariant was about to be violated.
    Safety(SafetyError),
    /// A user-supplied string could not be parsed.
    Parse(ParseError),
    /// A filesystem scan failed.
    Scan(ScanError),
    /// A cleanup operation failed.
    Clean(CleanError),
    /// An underlying I/O operation failed.
    Io(IoError),
}

/// Violations of the safety guarantees.
#[derive(Debug)]
pub enum SafetyError {
    /// Attempted operation on a filesystem or system root.
    ProtectedSystemPath(PathBuf),
    /// Attempted operation on the home directory itself.
    ProtectedHomeRoot(PathBuf),
    /// Attempted operation on a personal-data directory.
    ProtectedUserData(PathBuf),
    /// A symlink points outside of the permitted boundary.
    SymlinkEscape { link: PathBuf, target: PathBuf },
    /// Mutually exclusive or dependent flags were combined incorrectly.
    InvalidCliCombination(String),
}

/// Malformed user-supplied values.
#[derive(Debug, PartialEq)]
pub enum ParseError {
    InvalidByteSize { input: String, reason: String },
    InvalidDuration { input: String, reason: String },
    InvalidSortField(String),
    /// A flag received a syntactically valid but out-of-range value.
    InvalidFlagValue { flag: String, reason: String },
}

/// Failures raised while traversing the filesystem.
#[derive(Debug, PartialEq)]
pub enum ScanError {
    PathNotFound(PathBuf),
    PermissionDenied(PathBuf),
    FilesystemLoopDetected(PathBuf),
}

/// Failures raised while deleting or trashing items.
#[derive(Debug)]
pub enum CleanError {
    TrashUnsupported(String),
    DeletionFailed { path: PathBuf, source: IoError },
    TargetNotFound(String),
}

// ---------------------------------------------------------------------------
// Messages
// ---------------------------------------------------------------------------
impl SafetyError {
    /// The message shown for this error.
    pub open spec fn message(self) -> Seq<char> {
        match self {
            SafetyError::ProtectedSystemPath(path) =>
                "refusing to operate on protected system path "@ + quoted_path(path@),
            SafetyError::ProtectedHomeRoot(path) => quoted_path(path@)
                + " is the home directory root itself; target a safe subfolder (e.g. ~/.cache) instead"@,
            SafetyError::ProtectedUserData(path) => quoted_path(path@)
                + " holds personal data and is protected from bulk deletion"@,
            SafetyError::SymlinkEscape { link, target } => "symlink "@ + quoted_path(link@)
                + " points outside the permitted boundary at "@ + quoted_path(target@),
            SafetyError::InvalidCliCombination(text) => text@,
        }
    }

    pub fn to_string(&self) -> (out: String)
        ensures
            out@ == self.message(),
    {
        match self {
            SafetyError::ProtectedSystemPath(path) => {
                let mut out = "refusing to operate on protected system path ".to_owned();
                out.append(quote_path(path.text.as_str()).as_str());
                out
            },
            SafetyError::ProtectedHomeRoot(path) => {
                let mut out = quote_path(path.text.as_str());
                out.append(
                    " is the home directory root itself; target a safe subfolder (e.g. ~/.cache) instead",
                );
                out
            },
            SafetyError::ProtectedUserData(path) => {
                let mut out = quote_path(path.text.as_str());
                out.append(" holds personal data and is protected from bulk deletion");
                out
            },
            SafetyError::SymlinkEscape { link, target } => {
                let mut out = "symlink ".to_owned();
                out.append(quote_path(link.text.as_str()).as_str());
                out.append(" points outside the permitted boundary at ");
                out.append(quote_path(target.text.as_str()).as_str());
                out
            },
            SafetyError::InvalidCliCombination(text) => text.clone(),
        }
    }
}

impl ParseError {
    /// The message shown for this error.
    pub open spec fn message(self) -> Seq<char> {
        match self {
            ParseError::InvalidByteSize { input, reason } => "invalid byte size "@ + quoted(input@)
                + ": "@ + reason@,
            ParseError::InvalidDuration { input, reason } => "invalid duration "@ + quoted(input@)
                + ": "@ + reason@,
            ParseError::InvalidSortField(field) => "invalid sort field "@ + quoted(field@)
                + " (expected \"size\", \"count\" or \"name\")"@,
            ParseError::InvalidFlagValue { flag, reason } => "--"@ + flag@ + " "@ + reason@,
        }
    }

    pub fn to_string(&self) -> (out: String)
        ensures
            out@ == self.message(),
    {
        match self {
            ParseError::InvalidByteSize { input, reason } => {
                let mut out = "invalid byte size ".to_owned();
                out.append(quote(input.as_str()).as_str());
                out.append(": ");
                out.append(reason.as_str());
                out
            },
            ParseError::InvalidDuration { input, reason } => {
                let mut out = "invalid duration ".to_owned();
                out.append(quote(input.as_str()).as_str());
                out.append(": ");
                out.append(reason.as_str());
                out
            },
            ParseError::InvalidSortField(field) => {
                let mut out = "invalid sort field ".to_owned();
                out.append(quote(field.as_str()).as_str());
                out.append(" (expected \"size\", \"count\" or \"name\")");
                out
            },
            ParseError::InvalidFlagValue { flag, reason } => {
                let mut out = "--".to_owned();
                out.append(flag.as_str());
                out.append(" ");
                out.append(reason.as_str());
                out
            },
        }
    }
}

impl ScanError {
    /// The message shown for this error.
    pub open spec fn message(self) -> Seq<char> {
        match self {
            ScanError::PathNotFound(path) => "path "@ + quoted_path(path@) + " does not exist"@,
            ScanError::PermissionDenied(path) => "permission denied while reading "@ + quoted_path(
                path@,
            ),
            ScanError::FilesystemLoopDetected(path) => "filesystem loop detected at "@
                + quoted_path(path@),
        }
    }

    pub fn to_string(&self) -> (out: String)
        ensures
            out@ == self.message(),
    {
        match self {
            ScanError::PathNotFound(path) => {
                let mut out = "path ".to_owned();
                out.append(quote_path(path.text.as_str()).as_str());
                out.append(" does not exist");
                out
            },
            ScanError::PermissionDenied(path) => {
                let mut out = "permission denied while reading ".to_owned();
                out.append(quote_path(path.text.as_str()).as_str());
                out
            },
            ScanError::FilesystemLoopDetected(path) => {
                let mut out = "filesystem loop detected at ".to_owned();
                out.append(quote_path(path.text.as_str()).as_str());
                out
            },
        }
    }
}

/// The message of a failed deletion.
pub open spec fn deletion_message(path: Seq<char>, source: Seq<char>) -> Seq<char> {
    "failed to delete "@ + path + ": "@ + source
}

impl CleanError {
    /// The message shown for this error.
    pub open spec fn message(self) -> Seq<char> {
        match self {
            CleanError::TrashUnsupported(reason) =>
                "trash is unsupported or unavailable on this system: "@ + reason@,
            CleanError::DeletionFailed { path, source } => deletion_message(
                path@,
                source.message@,
            ),
            CleanError::TargetNotFound(id) => "unknown clean target "@ + quoted(id@)
                + "; run `diskpulse targets --all` to list candidates"@,
        }
    }

    pub fn to_string(&self) -> (out: String)
        ensures
            out@ == self.message(),
    {
        match self {
            CleanError::TrashUnsupported(reason) => {
                let mut out = "trash is unsupported or unavailable on this system: ".to_owned();
                out.append(reason.as_str());
                out
            },
            CleanError::DeletionFailed { path, source } => {
                let mut out = "failed to delete ".to_owned();
                out.append(path.text.as_str());
                out.append(": ");
                out.append(source.message.as_str());
                out
            },
            CleanError::TargetNotFound(id) => {
                let mut out = "unknown clean target ".to_owned();
                out.append(quote(id.as_str()).as_str());
                out.append("; run `diskpulse targets --all` to list candidates");
                out
            },
        }
    }
}

impl DiskPulseError {
    /// The message shown for this error: that of the child.
    pub open spec fn message(self) -> Seq<char> {
        match self {
            DiskPulseError::Safety(child) => child.message(),
            DiskPulseError::Parse(child) => child.message(),
            DiskPulseError::Scan(child) => child.message(),
            DiskPulseError::Clean(child) => child.message(),
            DiskPulseError::Io(child) => child.message@,
        }
    }

    pub fn to_string(&self) -> (out: String)
        ensures
            out@ == self.message(),
    {
        match self {
            DiskPulseError::Safety(child) => child.to_string(),
            DiskPulseError::Parse(child) => child.to_string(),
            DiskPulseError::Scan(child) => child.to_string(),
            DiskPulseError::Clean(child) => child.to_string(),
            DiskPulseError::Io(child) => child.message.clone(),
        }
    }

    /// Whether the failure is a mistake in how the tool was invoked: a value
    /// that does not parse, a forbidden flag combination or an unknown target.
    pub open spec fn usage_mistake(self) -> bool {
        ||| self is Parse
        ||| self matches DiskPulseError::Safety(SafetyError::InvalidCliCombination(_))
        ||| self matches DiskPulseError::Clean(CleanError::TargetNotFound(_))
    }

    /// Process exit code: `2` for a mistake in how the tool was invoked, `1`
    /// for a runtime failure.
    pub fn exit_code(&self) -> (code: i32)
        ensures
            code == if self.usage_mistake() {
                2i32
            } else {
                1i32
            },
    {
        match self {
            DiskPulseError::Parse(_) => 2,
            DiskPulseError::Safety(SafetyError::InvalidCliCombination(_)) => 2,
            DiskPulseError::Clean(CleanError::TargetNotFound(_)) => 2,
            _ => 1,
        }
    }
}

/// Exit code of a failed run: that of the domain error behind it, or `1` when
/// there is none.
pub fn exit_code_for(domain: Option<&DiskPulseError>) -> (code: i32)
    ensures
        code == match domain {
            Some(error) => if error.usage_mistake() {
                2i32
            } else {
                1i32
            },
            None => 1i32,
        },
{
    match domain {
        Some(error) => error.exit_code(),
        None => 1,
    }
}

// ---------------------------------------------------------------------------
// Conversions
// ---------------------------------------------------------------------------
impl From<SafetyError> for DiskPulseError {
    fn from(child: SafetyError) -> (out: Self) {
        DiskPulseError::Safety(child)
    }
}

impl vstd::std_specs::convert::FromSpecImpl<SafetyError> for DiskPulseError {
    open spec fn obeys_from_spec() -> bool {
        true
    }

    open spec fn from_spec(child: SafetyError) -> Self {
        DiskPulseError::Safety(child)
    }
}

impl From<ParseError> for DiskPulseError {
    fn from(child: ParseError) -> (out: Self) {
        DiskPulseError::Parse(child)
    }
}

impl vstd::std_specs::convert::FromSpecImpl<ParseError> for DiskPulseError {
    open spec fn obeys_from_spec() -> bool {
        true
    }

    open spec fn from_spec(child: ParseError) -> Self {
        DiskPulseError::Parse(child)
    }
}

impl From<ScanError> for DiskPulseError {
    fn from(child: ScanError) -> (out: Self) {
        DiskPulseError::Scan(child)
    }
}

impl vstd::std_specs::convert::FromSpecImpl<ScanError> for DiskPulseError {
    open spec fn obeys_from_spec() -> bool {
        true
    }

    open spec fn from_spec(child: ScanError) -> Self {
        DiskPulseError::Scan(child)
    }
}

impl From<CleanError> for DiskPulseError {
    fn from(child: CleanError) -> (out: Self) {
        DiskPulseError::Clean(child)
    }
}

impl vstd::std_specs::convert::FromSpecImpl<CleanError> for DiskPulseError {
    open spec fn obeys_from_spec() -> bool {
        true
    }

    open spec fn from_spec(child: CleanError) -> Self {
        DiskPulseError::Clean(child)
    }
}

impl From<IoError> for DiskPulseError {
    fn from(child: IoError) -> (out: Self) {
        DiskPulseError::Io(child)
    }
}

impl vstd::std_specs::convert::FromSpecImpl<IoError> for DiskPulseError {
    open spec fn obeys_from_spec() -> bool {
        true
    }

    open spec fn from_spec(child: IoError) -> Self {
        DiskPulseError::Io(child)
    }
}

/// Which failures are mistakes in how the tool was invoked, and exit with code
/// 2: values that do not parse, flags that do not go together and unknown
/// targets. Whatever the jail refuses, a scan, a removal or an I/O operation
/// that fails is not.
pub proof fn law_usage_mistakes(
    parse: ParseError,
    text: String,
    path: PathBuf,
    scan: ScanError,
    io: IoError,
)
    ensures
        DiskPulseError::Parse(parse).usage_mistake(),
        DiskPulseError::Safety(SafetyError::InvalidCliCombination(text)).usage_mistake(),
        DiskPulseError::Clean(CleanError::TargetNotFound(text)).usage_mistake(),
        !DiskPulseError::Safety(SafetyError::ProtectedSystemPath(path)).usage_mistake(),
        !DiskPulseError::Safety(SafetyError::ProtectedHomeRoot(path)).usage_mistake(),
        !DiskPulseError::Safety(SafetyError::ProtectedUserData(path)).usage_mistake(),
        !DiskPulseError::Scan(scan).usage_mistake(),
        !DiskPulseError::Clean(CleanError::TrashUnsupported(text)).usage_mistake(),
        !DiskPulseError::Clean(CleanError::DeletionFailed { path, source: io }).usage_mistake(),
        !DiskPulseError::Io(io).usage_mistake(),
{
}

} // verus!
