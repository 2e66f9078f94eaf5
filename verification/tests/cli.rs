use ranwhen::cli::{
    get_default_lines, input_source, parse_cli_args, resolve_target, CliOptions, CliOutcome,
    DefaultLines, InputSource,
};
use ranwhen::text::{contains_nul, parse_i64, same_text, str_contains};

fn args(v: &[&str]) -> Vec<String> {
    let mut a = vec!["ranwhen".to_string()];
    a.extend(v.iter().map(|s| s.to_string()));
    a
}

fn run(v: &[&str]) -> CliOptions {
    match parse_cli_args(&args(v)).outcome {
        CliOutcome::Run(o) => o,
        _ => panic!("expected options"),
    }
}

#[test]
fn no_arguments() {
    let o = run(&[]);
    assert_eq!(o.file_arg, None);
    assert_eq!(o.wtmp_arg, None);
    assert_eq!(o.host, None);
    assert!(!o.collect && !o.install_daemon && !o.status_daemon && !o.uninstall_daemon && !o.raw);
}

#[test]
fn flags_and_values() {
    let o = run(&["--collect", "--raw", "--host", "mac", "-f", "/var/log/wtmp.1", "--status-daemon"]);
    assert!(o.collect && o.raw && o.status_daemon);
    assert!(!o.install_daemon && !o.uninstall_daemon);
    assert_eq!(o.host, Some("mac".to_string()));
    assert_eq!(o.wtmp_arg, Some("/var/log/wtmp.1".to_string()));
    let o = run(&["--install-daemon", "--uninstall-daemon", "--file-wtmp", "x"]);
    assert!(o.install_daemon && o.uninstall_daemon);
    assert_eq!(o.wtmp_arg, Some("x".to_string()));
}

#[test]
fn joined_wtmp_file() {
    let o = run(&["-f/tmp/wtmp"]);
    assert_eq!(o.wtmp_arg, Some("/tmp/wtmp".to_string()));
}

#[test]
fn first_target_wins() {
    let o = run(&["a.txt", "b.txt"]);
    assert_eq!(o.file_arg, Some("a.txt".to_string()));
}

#[test]
fn dash_means_standard_input() {
    let p = parse_cli_args(&args(&["-"]));
    assert!(p.warnings.is_empty());
    let o = match p.outcome {
        CliOutcome::Run(o) => o,
        _ => panic!("expected options"),
    };
    assert_eq!(o.file_arg, Some("-".to_string()));
    assert!(matches!(input_source(&o), InputSource::Stdin));
}

#[test]
fn help_stops_reading() {
    let p = parse_cli_args(&args(&["--bogus", "-h", "--other"]));
    assert!(matches!(p.outcome, CliOutcome::Help));
    assert_eq!(p.warnings, vec!["Warning: unknown option '--bogus'".to_string()]);
    assert!(matches!(parse_cli_args(&args(&["--help"])).outcome, CliOutcome::Help));
}

#[test]
fn missing_values() {
    match parse_cli_args(&args(&["-f"])).outcome {
        CliOutcome::Failed(m) => assert_eq!(m, "Error: -f / --file-wtmp requires an argument"),
        _ => panic!("expected a failure"),
    }
    match parse_cli_args(&args(&["--host"])).outcome {
        CliOutcome::Failed(m) => assert_eq!(m, "Error: --host requires an argument"),
        _ => panic!("expected a failure"),
    }
}

#[test]
fn unknown_options_warn_and_go_on() {
    let p = parse_cli_args(&args(&["--what", "--raw", "-x"]));
    assert_eq!(
        p.warnings,
        vec!["Warning: unknown option '--what'".to_string(), "Warning: unknown option '-x'".to_string()]
    );
    match p.outcome {
        CliOutcome::Run(o) => assert!(o.raw),
        _ => panic!("expected options"),
    }
}

#[test]
fn a_missing_file_names_a_host() {
    let o = resolve_target(run(&["mac"]), false);
    assert_eq!(o.host, Some("mac".to_string()));
    assert_eq!(o.file_arg, None);
    let o = resolve_target(run(&["last.txt"]), true);
    assert_eq!(o.file_arg, Some("last.txt".to_string()));
    assert_eq!(o.host, None);
    let o = resolve_target(run(&["-"]), false);
    assert_eq!(o.file_arg, Some("-".to_string()));
    let o = resolve_target(run(&["mac", "--host", "hg"]), false);
    assert_eq!(o.host, Some("hg".to_string()));
    assert_eq!(o.file_arg, Some("mac".to_string()));
}

#[test]
fn where_records_come_from() {
    assert!(matches!(input_source(&run(&["--host", "h", "-f", "w", "x"])), InputSource::RemoteSessions(h) if h == "h"));
    assert!(matches!(input_source(&run(&["-f", "w", "x"])), InputSource::WtmpFile(w) if w == "w"));
    assert!(matches!(input_source(&run(&["x"])), InputSource::LogFile(f) if f == "x"));
    assert!(matches!(input_source(&run(&[])), InputSource::Default));
}

#[test]
fn default_sources() {
    assert!(matches!(get_default_lines(true, &Vec::new()), DefaultLines::LocalSessions));
    let none: Vec<String> = Vec::new();
    assert!(matches!(get_default_lines(false, &none), DefaultLines::Last(a) if a.is_empty()));
    let current = vec!["/var/log/wtmp".to_string()];
    assert!(matches!(get_default_lines(false, &current), DefaultLines::Last(a) if a.is_empty()));
    let rotated = vec!["/var/log/wtmp.1".to_string()];
    match get_default_lines(false, &rotated) {
        DefaultLines::Last(a) => assert_eq!(a, vec!["-f".to_string(), "/var/log/wtmp.1".to_string()]),
        _ => panic!("expected last"),
    }
    let both = vec!["/var/log/wtmp".to_string(), "/var/log/wtmp.1".to_string()];
    match get_default_lines(false, &both) {
        DefaultLines::Last(a) => assert_eq!(
            a,
            vec!["-f".to_string(), "/var/log/wtmp".to_string(), "-f".to_string(), "/var/log/wtmp.1".to_string()]
        ),
        _ => panic!("expected last"),
    }
}

#[test]
fn text_helpers() {
    assert_eq!(parse_i64("42"), Some(42));
    assert_eq!(parse_i64("+42"), Some(42));
    assert_eq!(parse_i64("-42"), Some(-42));
    assert_eq!(parse_i64("007"), Some(7));
    assert_eq!(parse_i64("-9223372036854775808"), Some(i64::MIN));
    assert_eq!(parse_i64("9223372036854775807"), Some(i64::MAX));
    assert_eq!(parse_i64("9223372036854775808"), None);
    assert_eq!(parse_i64(""), None);
    assert_eq!(parse_i64("-"), None);
    assert_eq!(parse_i64("1a"), None);
    assert_eq!(parse_i64("٣"), None);
    assert!(str_contains("abc still running", "still running"));
    assert!(!str_contains("still runnin", "still running"));
    assert!(str_contains("abc", ""));
    assert!(same_text("é", "é"));
    assert!(!same_text("a", "ab"));
    assert!(contains_nul(&vec![1, 0, 2]));
    assert!(!contains_nul(&vec![1, 2]));
}
