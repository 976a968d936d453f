use clap::builder::RangedI64ValueParser;
use clap::error::ErrorKind;
use clap::{Arg, ArgAction, Command};
use syslab::cli::ArgsError;
use syslab::report_args::get_flags;
use syslab::spawner_args;
use syslab::timer_args;

fn words(ws: &[&str]) -> Vec<String> {
    ws.iter().map(|w| w.to_string()).collect()
}

/// The error kinds of `ArgsError`, without the option letter.
#[derive(Debug, PartialEq)]
enum Kind {
    Help,
    Version,
    Unexpected,
    MissingValue,
    Repeated,
    Invalid,
    Unneeded,
    Required,
}

fn kind_of(e: &ArgsError) -> Kind {
    match e {
        ArgsError::Help => Kind::Help,
        ArgsError::Version => Kind::Version,
        ArgsError::UnexpectedArgument => Kind::Unexpected,
        ArgsError::MissingValue(_) => Kind::MissingValue,
        ArgsError::RepeatedArgument(_) => Kind::Repeated,
        ArgsError::InvalidValue(_) => Kind::Invalid,
        ArgsError::UnneededValue(_) => Kind::Unneeded,
        ArgsError::MissingRequired(_) => Kind::Required,
    }
}

fn clap_kind(k: ErrorKind) -> Kind {
    match k {
        ErrorKind::DisplayHelp => Kind::Help,
        ErrorKind::DisplayVersion => Kind::Version,
        ErrorKind::UnknownArgument => Kind::Unexpected,
        ErrorKind::InvalidValue => Kind::MissingValue,
        ErrorKind::ArgumentConflict => Kind::Repeated,
        ErrorKind::ValueValidation => Kind::Invalid,
        ErrorKind::TooManyValues => Kind::Unneeded,
        ErrorKind::MissingRequiredArgument => Kind::Required,
        other => panic!("unexpected clap error kind {other:?}"),
    }
}

fn u8_parser() -> RangedI64ValueParser<u8> {
    RangedI64ValueParser::<u8>::new().range(0..=255)
}

fn clap_timer() -> Command {
    Command::new("timer")
        .version("0.1.0")
        .arg(Arg::new("verbose").short('v').action(ArgAction::SetTrue))
        .arg(
            Arg::new("times")
                .short('t')
                .action(ArgAction::Set)
                .value_parser(u8_parser())
                .default_value("1"),
        )
        .arg(Arg::new("command").short('c').action(ArgAction::Set).required(true))
}

fn clap_spawner() -> Command {
    Command::new("spawner")
        .version("0.1.0")
        .arg(Arg::new("w").short('w').action(ArgAction::Set).value_parser(u8_parser()).required(true))
        .arg(Arg::new("m").short('m').action(ArgAction::Set).value_parser(u8_parser()).required(true))
}

fn clap_report() -> Command {
    Command::new("report")
        .version("0.1.0")
        .disable_help_flag(true)
        .arg(Arg::new("hosts").short('h').long("hosts").action(ArgAction::SetTrue))
        .arg(Arg::new("groups").short('g').long("groups").action(ArgAction::SetTrue))
}

const TIMER_CASES: &[&[&str]] = &[
    &["p", "-c", "ls -l"],
    &["p", "-v", "-t", "3", "-c", "x"],
    &["p", "-c", "x", "-t3", "-v"],
    &["p", "-vt3", "-c", "x"],
    &["p", "-t=7", "-c=x"],
    &["p", "-t", "+5", "-c", "x"],
    &["p", "-t=-0", "-c", "x"],
    &["p", "-t", "007", "-c", "x"],
    &["p", "-t", "255", "-c", "x"],
    &["p", "-c", "-"],
    &["p", "-c", ""],
    &["p", "-c", "x", "--"],
    &["p", "-t", "5", "-c", "x", "-h"],
    &["p"],
    &["p", "-v"],
    &["p", "-c"],
    &["p", "-c", "--"],
    &["p", "-t", "256", "-c", "x"],
    &["p", "-t", "-1", "-c", "x"],
    &["p", "-t=", "-c", "x"],
    &["p", "-t", "abc", "-c", "x"],
    &["p", "-t", "abc", "-x"],
    &["p", "-t", "abc", "-v"],
    &["p", "-c", "x", "-c", "y"],
    &["p", "-t1", "-t2", "-c", "x"],
    &["p", "-v", "-v", "-c", "x"],
    &["p", "-vv", "-c", "x"],
    &["p", "-x"],
    &["p", "extra"],
    &["p", "-c", "x", "extra"],
    &["p", "--", "-c", "x"],
    &["p", "-h"],
    &["p", "--help"],
    &["p", "-V"],
    &["p", "--version"],
    &["p", "--help=1"],
    &["p", "--verbose"],
    &["p", "-c", "-v"],
    &["p", "-t", "--help"],
    &["p", "-vh"],
    &["p", "-hv"],
    &["p", "-t", "-5", "-c", "x"],
];

#[test]
fn timer_args_agree_with_clap() {
    for case in TIMER_CASES {
        let ours = timer_args::get(&words(case));
        let theirs = clap_timer().try_get_matches_from(case.iter());
        match (ours, theirs) {
            (Ok(a), Ok(m)) => {
                assert_eq!(a.verbose, m.get_flag("verbose"), "{case:?}");
                assert_eq!(a.times, *m.get_one::<u8>("times").unwrap(), "{case:?}");
                assert_eq!(&a.command, m.get_one::<String>("command").unwrap(), "{case:?}");
            }
            (Err(e), Err(c)) => assert_eq!(kind_of(&e), clap_kind(c.kind()), "{case:?}"),
            (ours, theirs) => panic!("{case:?}: {ours:?} vs {:?}", theirs.map(|_| ())),
        }
    }
}

#[test]
fn timer_args_values() {
    let a = timer_args::get(&words(&["p", "-c", "find /etc"])).unwrap();
    assert!(!a.verbose);
    assert_eq!(a.times, 1);
    assert_eq!(a.command, "find /etc");
    let a = timer_args::get(&words(&["p", "-v", "-t", "3", "-c", "x"])).unwrap();
    assert!(a.verbose);
    assert_eq!(a.times, 3);
    assert_eq!(a.command, "x");
}

#[test]
fn timer_args_errors() {
    assert_eq!(timer_args::get(&words(&["p"])).unwrap_err(), ArgsError::MissingRequired('c'));
    assert_eq!(timer_args::get(&words(&["p", "-c"])).unwrap_err(), ArgsError::MissingValue('c'));
    assert_eq!(
        timer_args::get(&words(&["p", "-t", "300", "-c", "x"])).unwrap_err(),
        ArgsError::InvalidValue('t')
    );
    assert_eq!(
        timer_args::get(&words(&["p", "-c", "x", "-c", "y"])).unwrap_err(),
        ArgsError::RepeatedArgument('c')
    );
    assert_eq!(timer_args::get(&words(&["p", "-x"])).unwrap_err(), ArgsError::UnexpectedArgument);
    assert_eq!(timer_args::get(&words(&["p", "--help"])).unwrap_err(), ArgsError::Help);
    assert_eq!(timer_args::get(&words(&["p", "-V"])).unwrap_err(), ArgsError::Version);
    assert_eq!(
        timer_args::get(&words(&["p", "--version=2"])).unwrap_err(),
        ArgsError::UnneededValue('V')
    );
}

const SPAWNER_CASES: &[&[&str]] = &[
    &["p", "-w", "3", "-m", "10"],
    &["p", "-m10", "-w3"],
    &["p", "-w=0", "-m=255"],
    &["p", "-w", "3"],
    &["p", "-m", "3"],
    &["p"],
    &["p", "-w", "3", "-m"],
    &["p", "-w", "3", "-w", "4", "-m", "1"],
    &["p", "-w", "x", "-m", "1"],
    &["p", "-wm", "1"],
    &["p", "-h"],
    &["p", "-V"],
    &["p", "-w", "1", "-m", "2", "3"],
];

#[test]
fn spawner_args_agree_with_clap() {
    for case in SPAWNER_CASES {
        let ours = spawner_args::get(&words(case));
        let theirs = clap_spawner().try_get_matches_from(case.iter());
        match (ours, theirs) {
            (Ok(a), Ok(m)) => {
                assert_eq!(a.w, *m.get_one::<u8>("w").unwrap(), "{case:?}");
                assert_eq!(a.m, *m.get_one::<u8>("m").unwrap(), "{case:?}");
            }
            (Err(e), Err(c)) => assert_eq!(kind_of(&e), clap_kind(c.kind()), "{case:?}"),
            (ours, theirs) => panic!("{case:?}: {ours:?} vs {:?}", theirs.map(|_| ())),
        }
    }
}

#[test]
fn spawner_args_values_and_errors() {
    let a = spawner_args::get(&words(&["p", "-w", "3", "-m", "10"])).unwrap();
    assert_eq!((a.w, a.m), (3, 10));
    assert_eq!(spawner_args::get(&words(&["p", "-m", "3"])).unwrap_err(), ArgsError::MissingRequired('w'));
    assert_eq!(spawner_args::get(&words(&["p", "-w", "3"])).unwrap_err(), ArgsError::MissingRequired('m'));
}

const REPORT_CASES: &[&[&str]] = &[
    &["p"],
    &["p", "-h"],
    &["p", "-g"],
    &["p", "-h", "-g"],
    &["p", "-gh"],
    &["p", "--hosts", "--groups"],
    &["p", "--hosts=yes"],
    &["p", "-h", "-h"],
    &["p", "--help"],
    &["p", "-V"],
    &["p", "x"],
    &["p", "--"],
];

#[test]
fn report_flags_agree_with_clap() {
    for case in REPORT_CASES {
        let ours = get_flags(&words(case));
        let theirs = clap_report().try_get_matches_from(case.iter());
        match (ours, theirs) {
            (Ok(f), Ok(m)) => {
                assert_eq!(f.hosts, m.get_flag("hosts"), "{case:?}");
                assert_eq!(f.groups, m.get_flag("groups"), "{case:?}");
            }
            (Err(e), Err(c)) => assert_eq!(kind_of(&e), clap_kind(c.kind()), "{case:?}"),
            (ours, theirs) => panic!("{case:?}: {ours:?} vs {:?}", theirs.map(|_| ())),
        }
    }
}

#[test]
fn report_flags_values() {
    let f = get_flags(&words(&["p", "-h", "-g"])).unwrap();
    assert!(f.hosts && f.groups);
    let f = get_flags(&words(&["p"])).unwrap();
    assert!(!f.hosts && !f.groups);
    assert_eq!(get_flags(&words(&["p", "--help"])).unwrap_err(), ArgsError::UnexpectedArgument);
}
