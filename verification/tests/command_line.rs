use portproc::cli::{Args, ArgsError, CliLogLevel, CliOption, parse_port};
use portproc::errors::Errors;
use portproc::port::{Port, Protocol};

fn parse(args: &[&str]) -> Result<Args, ArgsError> {
    Args::try_parse_from(args)
}

#[test]
fn long_and_short_forms_agree() {
    let long = parse(&["portproc", "--port", "t80", "--kill", "--ignore-unused", "--log-level", "debug"]).unwrap();
    let short = parse(&["portproc", "-p", "t80", "-k", "-i", "-l", "debug"]).unwrap();
    for a in [&long, &short] {
        assert!(!a.all);
        assert_eq!(a.port, vec![Port { port: 80, protocol: Protocol::Tcp }]);
        assert!(a.kill && !a.restart && !a.attach && a.ignore_unused);
        assert_eq!(a.log_level, Some(CliLogLevel::Debug));
    }
}

#[test]
fn values_can_be_attached() {
    let a = parse(&["portproc", "--port=u53", "-pt22", "-p=ssh", "--log-level=trace"]).unwrap();
    assert_eq!(a.port.len(), 3);
    assert_eq!(a.port[0], Port { port: 53, protocol: Protocol::Udp });
    assert_eq!(a.port[1], Port { port: 22, protocol: Protocol::Tcp });
    assert_eq!(a.port[2], Port { port: 22, protocol: Protocol::Tcp });
    assert_eq!(a.log_level, Some(CliLogLevel::Trace));
}

#[test]
fn short_flags_can_be_grouped() {
    let a = parse(&["portproc", "-arc"]).unwrap();
    assert!(a.all && a.restart && a.attach);
    let b = parse(&["portproc", "-kpt80"]).unwrap();
    assert!(b.kill);
    assert_eq!(b.port, vec![Port { port: 80, protocol: Protocol::Tcp }]);
}

#[test]
fn help_and_version_stop_reading() {
    assert!(matches!(parse(&["portproc", "-h"]), Err(ArgsError::HelpRequested(false))));
    assert!(matches!(parse(&["portproc", "-ah"]), Err(ArgsError::HelpRequested(false))));
    assert!(matches!(parse(&["portproc", "--help", "-k", "-r"]), Err(ArgsError::HelpRequested(true))));
    assert!(matches!(parse(&["portproc", "-V"]), Err(ArgsError::VersionRequested)));
    assert!(matches!(parse(&["portproc", "-a", "--version"]), Err(ArgsError::VersionRequested)));
}

#[test]
fn flags_may_be_given_once() {
    assert!(matches!(parse(&["portproc", "-a", "-a"]), Err(ArgsError::RepeatedArgument(CliOption::All))));
    assert!(matches!(
        parse(&["portproc", "-a", "-l", "info", "-l", "warn"]),
        Err(ArgsError::RepeatedArgument(CliOption::LogLevel))
    ));
}

#[test]
fn a_value_is_required() {
    assert!(matches!(parse(&["portproc", "-p"]), Err(ArgsError::MissingValue(CliOption::Port))));
    assert!(matches!(parse(&["portproc", "-p", "-a"]), Err(ArgsError::MissingValue(CliOption::Port))));
    assert!(matches!(parse(&["portproc", "-a", "--log-level"]), Err(ArgsError::MissingValue(CliOption::LogLevel))));
}

#[test]
fn a_missing_value_is_reported_when_the_next_option_is_read() {
    assert!(matches!(parse(&["portproc", "-p", "-1"]), Err(ArgsError::UnexpectedArgument(a)) if a == "-1"));
    assert!(matches!(parse(&["portproc", "-p", "--bogus"]), Err(ArgsError::UnexpectedArgument(a)) if a == "--bogus"));
    assert!(matches!(parse(&["portproc", "-p", "x80", "--bogus"]), Err(ArgsError::UnexpectedArgument(a)) if a == "--bogus"));
    assert!(matches!(parse(&["portproc", "-p", "x80", "-a"]), Err(ArgsError::InvalidPort(v, _)) if v == "x80"));
    assert!(matches!(parse(&["portproc", "-p", "--"]), Err(ArgsError::MissingValue(CliOption::Port))));
    assert!(matches!(parse(&["portproc", "-p", "--", "t80"]), Err(ArgsError::UnexpectedArgument(a)) if a == "t80"));
    assert!(matches!(parse(&["portproc", "-p", "t80", "t81"]), Err(ArgsError::UnexpectedArgument(a)) if a == "t81"));
    assert!(matches!(parse(&["portproc", "-p", "-h"]), Err(ArgsError::MissingValue(CliOption::Port))));
}

#[test]
fn flags_take_no_value() {
    assert!(matches!(
        parse(&["portproc", "--all=yes"]),
        Err(ArgsError::UnexpectedValue(CliOption::All, v)) if v == "yes"
    ));
}

#[test]
fn unknown_arguments_are_refused() {
    assert!(matches!(parse(&["portproc", "-a", "-x"]), Err(ArgsError::UnexpectedArgument(a)) if a == "-x"));
    assert!(matches!(parse(&["portproc", "--bogus=1"]), Err(ArgsError::UnexpectedArgument(a)) if a == "--bogus"));
    assert!(matches!(parse(&["portproc", "-a", "word"]), Err(ArgsError::UnexpectedArgument(a)) if a == "word"));
    assert!(matches!(parse(&["portproc", "-a", "--", "x"]), Err(ArgsError::UnexpectedArgument(a)) if a == "x"));
    assert!(parse(&["portproc", "-a", "--"]).unwrap().all);
}

#[test]
fn bad_values_report_the_value() {
    assert!(matches!(
        parse(&["portproc", "-p", "x8080"]),
        Err(ArgsError::InvalidPort(v, Errors::UnknownProtocol('x'))) if v == "x8080"
    ));
    assert!(matches!(parse(&["portproc", "-a", "-l", "QUIET"]), Err(ArgsError::InvalidLogLevel(v)) if v == "QUIET"));
    assert!(matches!(parse(&["portproc", "-p", "-"]), Err(ArgsError::InvalidPort(v, Errors::UnknownProtocol('-'))) if v == "-"));
}

#[test]
fn combination_rules_are_reported() {
    assert!(matches!(parse(&["portproc"]), Err(ArgsError::MissingTarget)));
    assert!(matches!(parse(&["portproc", "-k"]), Err(ArgsError::MissingTarget)));
    assert!(matches!(
        parse(&["portproc", "-a", "-p", "t1"]),
        Err(ArgsError::Conflict(CliOption::All, CliOption::Port))
    ));
    assert!(matches!(
        parse(&["portproc", "-a", "-k", "-r"]),
        Err(ArgsError::Conflict(CliOption::Kill, CliOption::Restart))
    ));
    assert!(matches!(
        parse(&["portproc", "-a", "-k", "-c"]),
        Err(ArgsError::Conflict(CliOption::Attach, CliOption::Kill))
    ));
    assert!(matches!(
        parse(&["portproc", "-a", "-c"]),
        Err(ArgsError::MissingRequirement(CliOption::Attach, CliOption::Restart))
    ));
}

#[test]
fn accepted_lines_obey_the_combination_rules() {
    let lines: [&[&str]; 6] = [
        &["portproc", "-a"],
        &["portproc", "-p", "ssh", "-r", "-c"],
        &["portproc", "-ai"],
        &["portproc", "-p", "t1", "-p", "t1"],
        &["portproc", "--all", "--restart"],
        &["portproc", "-a", "-k", "-l", "off"],
    ];
    for line in lines {
        let a = parse(line).unwrap();
        assert!(a.all != !a.port.is_empty());
        assert!(!(a.kill && a.restart));
        assert!(!a.attach || (a.restart && !a.kill));
    }
}

#[test]
fn parse_port_reads_port_texts() {
    assert_eq!(parse_port("https").unwrap(), Port { port: 443, protocol: Protocol::Tcp });
    assert!(matches!(parse_port(""), Err(Errors::EmptyPortString)));
}

#[test]
fn default_log_level_is_info() {
    assert_eq!(CliLogLevel::default(), CliLogLevel::Info);
}
