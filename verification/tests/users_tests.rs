use syslab::users::{
    c_str_to_string, get_groups, get_hosts, get_username, print_user_line, user_report_line,
    LoginRecord, USER_PROCESS,
};

fn c_chars(s: &str, width: usize) -> Vec<i8> {
    let mut v: Vec<i8> = s.bytes().map(|b| b as i8).collect();
    v.resize(width, 0);
    v
}

fn record() -> LoginRecord {
    LoginRecord {
        ut_type: USER_PROCESS,
        ut_user: c_chars("alice", 5),
        ut_line: c_chars("pts/0", 5),
        ut_host: c_chars("10.0.0.1", 8),
    }
}

#[test]
fn user_process_records_are_recognised() {
    assert!(record().is_user_process());
    let mut other = record();
    other.ut_type = 8;
    assert!(!other.is_user_process());
}

#[test]
fn fields_are_formatted() {
    let r = record();
    assert_eq!(get_username(&r), "alice\t");
    assert_eq!(get_hosts(&r), "(10.0.0.1)");
}

#[test]
fn groups_are_joined() {
    assert_eq!(get_groups(&vec![]), "[]");
    assert_eq!(get_groups(&vec!["wheel".to_string()]), "[wheel]");
    assert_eq!(
        get_groups(&vec!["alice".to_string(), "wheel".to_string(), "audio".to_string()]),
        "[alice, wheel, audio]"
    );
}

#[test]
fn report_line_adds_requested_fields() {
    let r = record();
    let groups = vec!["alice".to_string(), "wheel".to_string()];
    assert_eq!(user_report_line(&r, &groups, false, false), "alice\t");
    assert_eq!(user_report_line(&r, &groups, true, false), "alice\t (10.0.0.1)");
    assert_eq!(user_report_line(&r, &groups, false, true), "alice\t [alice, wheel]");
    assert_eq!(user_report_line(&r, &groups, true, true), "alice\t (10.0.0.1) [alice, wheel]");
}

#[test]
fn report_line_keeps_nul_padding() {
    let r = LoginRecord {
        ut_type: USER_PROCESS,
        ut_user: c_chars("bob", 6),
        ut_line: c_chars("tty1", 6),
        ut_host: c_chars("", 2),
    };
    assert_eq!(user_report_line(&r, &vec![], true, false), "bob\0\0\0\t (\0\0)");
}

#[test]
fn summary_line_lists_user_uid_host_and_line() {
    assert_eq!(print_user_line(&record(), 1000), "alice\t1000\t10.0.0.1\tpts/0");
}

#[test]
fn c_strings_are_decoded() {
    assert_eq!(c_str_to_string(b"users"), Some("users".to_string()));
    assert_eq!(c_str_to_string("grupa-ł".as_bytes()), Some("grupa-ł".to_string()));
    assert_eq!(c_str_to_string(&[0xc3]), None);
}

#[test]
fn report_line_ignores_the_terminal_line() {
    let r = LoginRecord {
        ut_type: USER_PROCESS,
        ut_user: c_chars("carol", 5),
        ut_line: vec![-1, -2, 0],
        ut_host: c_chars("h", 1),
    };
    assert_eq!(user_report_line(&r, &vec!["staff".to_string()], true, true), "carol\t (h) [staff]");
}
