//! Error messages, conversions and exit codes.

use diskpulse::errors::{
    exit_code_for, CleanError, DiskPulseError, IoError, IoErrorKind, ParseError, SafetyError,
    ScanError,
};
use diskpulse::path::PathBuf;

#[test]
fn safety_error_messages_are_actionable() {
    assert!(SafetyError::ProtectedSystemPath(PathBuf::new("/"))
        .to_string()
        .contains("protected system path \"/\""));

    let home_msg = SafetyError::ProtectedHomeRoot(PathBuf::new("/home/alice")).to_string();
    assert!(home_msg.contains("home directory root"));
    assert!(home_msg.contains("~/.cache"));

    assert!(
        SafetyError::ProtectedUserData(PathBuf::new("/home/alice/Documents"))
            .to_string()
            .contains("personal data")
    );

    let escape = SafetyError::SymlinkEscape {
        link: PathBuf::new("/scan/evil"),
        target: PathBuf::new("/etc/shadow"),
    };
    let msg = escape.to_string();
    assert!(msg.contains("/scan/evil") && msg.contains("/etc/shadow"));

    assert_eq!(
        SafetyError::InvalidCliCombination("--yes requires --apply".to_string()).to_string(),
        "--yes requires --apply"
    );
}

#[test]
fn parse_error_messages_include_input_and_reason() {
    let err = ParseError::InvalidByteSize {
        input: "100ZB".to_string(),
        reason: "unknown unit".to_string(),
    };
    assert_eq!(err.to_string(), "invalid byte size \"100ZB\": unknown unit");

    let err = ParseError::InvalidDuration {
        input: "-5d".to_string(),
        reason: "must be non-negative".to_string(),
    };
    assert!(err.to_string().contains("-5d"));
    assert!(err.to_string().contains("non-negative"));

    assert!(ParseError::InvalidSortField("weight".to_string())
        .to_string()
        .contains("invalid sort field \"weight\""));
}

#[test]
fn scan_error_messages_mention_the_path() {
    assert!(ScanError::PathNotFound(PathBuf::new("/nope"))
        .to_string()
        .contains("/nope"));
    assert!(ScanError::PermissionDenied(PathBuf::new("/root"))
        .to_string()
        .contains("permission denied"));
    assert!(ScanError::FilesystemLoopDetected(PathBuf::new("/loop"))
        .to_string()
        .contains("loop"));
}

#[test]
fn clean_error_messages_carry_context() {
    assert!(
        CleanError::TrashUnsupported("no portal available".to_string())
            .to_string()
            .contains("no portal available")
    );

    let err = CleanError::DeletionFailed {
        path: PathBuf::new("/tmp/stuck"),
        source: IoError::other("device busy"),
    };
    let msg = err.to_string();
    assert!(msg.contains("failed to delete /tmp/stuck"));
    assert!(msg.contains("device busy"));

    assert!(CleanError::TargetNotFound("bogus".to_string())
        .to_string()
        .contains("bogus"));
}

#[test]
fn child_errors_convert_into_top_level_error() {
    let safety = SafetyError::ProtectedSystemPath(PathBuf::new("/"));
    let expected = safety.to_string();
    let top = DiskPulseError::from(safety);
    assert!(matches!(top, DiskPulseError::Safety(_)));
    assert_eq!(top.to_string(), expected);

    let parse = ParseError::InvalidSortField("x".to_string());
    let expected = parse.to_string();
    let top = DiskPulseError::from(parse);
    assert!(matches!(top, DiskPulseError::Parse(_)));
    assert_eq!(top.to_string(), expected);

    let scan = ScanError::PathNotFound(PathBuf::new("/gone"));
    let expected = scan.to_string();
    let top = DiskPulseError::from(scan);
    assert!(matches!(top, DiskPulseError::Scan(_)));
    assert_eq!(top.to_string(), expected);

    let clean = CleanError::TargetNotFound("zz".to_string());
    let expected = clean.to_string();
    let top = DiskPulseError::from(clean);
    assert!(matches!(top, DiskPulseError::Clean(_)));
    assert_eq!(top.to_string(), expected);

    let io_error = IoError::other("boom");
    let expected = io_error.message.clone();
    let top = DiskPulseError::from(io_error);
    assert!(matches!(top, DiskPulseError::Io(_)));
    assert_eq!(top.to_string(), expected);
}

#[test]
fn exit_codes_tell_usage_mistakes_from_runtime_failures() {
    let usage = [
        DiskPulseError::from(ParseError::InvalidSortField("x".to_string())),
        DiskPulseError::from(SafetyError::InvalidCliCombination("x".to_string())),
        DiskPulseError::from(CleanError::TargetNotFound("x".to_string())),
    ];
    for error in &usage {
        assert_eq!(error.exit_code(), 2);
        assert_eq!(exit_code_for(Some(error)), 2);
    }
    let runtime = [
        DiskPulseError::from(SafetyError::ProtectedHomeRoot(PathBuf::new("/home/a"))),
        DiskPulseError::from(ScanError::PathNotFound(PathBuf::new("/gone"))),
        DiskPulseError::from(CleanError::TrashUnsupported("x".to_string())),
        DiskPulseError::from(IoError::other("boom")),
    ];
    for error in &runtime {
        assert_eq!(error.exit_code(), 1);
    }
    assert_eq!(exit_code_for(None), 1);
}

#[test]
fn quoted_values_are_escaped() {
    assert_eq!(
        ParseError::InvalidSortField("a\"b".to_string()).to_string(),
        "invalid sort field \"a\\\"b\" (expected \"size\", \"count\" or \"name\")"
    );
    assert_eq!(
        ScanError::PathNotFound(PathBuf::new("/a\tb")).to_string(),
        "path \"/a\\tb\" does not exist"
    );
    assert_eq!(
        ParseError::InvalidFlagValue {
            flag: "depth".to_string(),
            reason: "must be at least 1".to_string(),
        }
        .to_string(),
        "--depth must be at least 1"
    );
    assert_eq!(
        CleanError::TargetNotFound("zz".to_string()).to_string(),
        "unknown clean target \"zz\"; run `diskpulse targets --all` to list candidates"
    );
    assert_eq!(IoError::other("x").kind, IoErrorKind::Other);
}
