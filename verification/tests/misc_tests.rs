use syslab::cli::parse_number_value;
use syslab::command::{is_whitespace, split_command, split_whitespace};
use syslab::spawner::{next_step, random_in_range, random_in_range_for_pid, SpawnAction, SpawnerState};

#[test]
fn split_command_separates_program_and_arguments() {
    let (program, args) = split_command("find /etc").unwrap();
    assert_eq!(program, "find");
    assert_eq!(args, vec!["/etc"]);
    let (program, args) = split_command("  ls \t -l\u{3000}-a \n").unwrap();
    assert_eq!(program, "ls");
    assert_eq!(args, vec!["-l", "-a"]);
}

#[test]
fn split_command_without_words_is_none() {
    assert!(split_command("").is_none());
    assert!(split_command(" \t\n ").is_none());
}

#[test]
fn split_whitespace_matches_std() {
    let text = " a  b\u{85}c\u{a0}d\u{2009}e\r\nf\u{200b}g ";
    let expected: Vec<String> = text.split_whitespace().map(String::from).collect();
    assert_eq!(split_whitespace(text), expected);
}

#[test]
fn whitespace_matches_std() {
    for c in ['\0', ' ', '\t', '\u{b}', 'a', '\u{85}', '\u{a0}', '\u{1680}', '\u{2000}', '\u{200a}',
        '\u{200b}', '\u{2028}', '\u{202f}', '\u{205f}', '\u{3000}', '\u{feff}'] {
        assert_eq!(is_whitespace(c), c.is_whitespace(), "{c:?}");
    }
}

#[test]
fn numbers_are_read_like_i64_in_range() {
    for s in ["0", "7", "+7", "-0", "255", "256", "-1", "", "+", "-", "1a", " 1", "0007", "99999999999999999999"] {
        let cs: Vec<char> = s.chars().collect();
        let expected = s.parse::<i64>().ok().and_then(|v| u8::try_from(v).ok());
        assert_eq!(parse_number_value(&cs), expected, "{s:?}");
    }
}

#[test]
fn random_in_range_stays_in_range() {
    assert_eq!(random_in_range(1, 1), 1);
    for _ in 0..20 {
        let r = random_in_range(1, 10);
        assert!((1..=10).contains(&r));
    }
}

#[test]
fn random_for_pid_is_deterministic() {
    let a = random_in_range_for_pid(4242, -5, 5);
    let b = random_in_range_for_pid(4242, -5, 5);
    assert_eq!(a, b);
    assert!((-5..=5).contains(&a));
    assert_eq!(random_in_range_for_pid(1, 7, 7), 7);
}

#[test]
fn next_step_spawns_when_asked() {
    let (s, a) = next_step(SpawnerState { spawn_flag: 1, child_count: 2 }, 4);
    assert_eq!(s, SpawnerState { spawn_flag: 0, child_count: 3 });
    assert_eq!(a, SpawnAction::Spawn { alarm_secs: 4 });
    let (s, a) = next_step(SpawnerState { spawn_flag: 0, child_count: 3 }, 4);
    assert_eq!(s, SpawnerState { spawn_flag: 0, child_count: 3 });
    assert_eq!(a, SpawnAction::Sleep { secs: 5 });
}

#[test]
fn numbers_read_back_their_decimal_form() {
    for n in 0..=255u8 {
        let cs: Vec<char> = syslab::text::decimal_string(n as u32).chars().collect();
        assert_eq!(parse_number_value(&cs), Some(n));
    }
}

#[test]
fn words_are_nonblank() {
    for w in split_whitespace(" \u{2028}x\t\tyz  \u{205f} w") {
        assert!(!w.is_empty());
        assert!(!w.chars().any(is_whitespace));
    }
}
