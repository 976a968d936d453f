use syslab::crack::{find_sequentially, password_list, password_matches, PASSWORD_LIMIT};
use syslab::shadow::{get_entry, EtcShadowEntry};

const SALT: &str = "5MfvmFOaDU";
const DEES_HASH: &str =
    "CVt7jU9wJRYz3K98EklAJqp8RMG5NvReUSVK7ctVvc2VOnYVrvyTfXaIgHn2xQS78foEJZBq2oCIqwfdNp.2V1";

#[test]
fn get_entry_gives_known_hash() {
    let entry = get_entry("dees", SALT);
    assert_eq!(entry.hash, DEES_HASH);
    assert_eq!(entry.salt, SALT);
    assert_eq!(entry.hash.len(), 86);
}

#[test]
fn repr_gives_known_form() {
    let entry = get_entry("dees", SALT);
    let expected_repr = "$6$5MfvmFOaDU$CVt7jU9wJRYz3K98EklAJqp8RMG5NvReUSVK7ctVvc2VOnYVrvyTfXaIgHn2xQS78foEJZBq2oCIqwfdNp.2V1";
    assert_eq!(entry.repr(), expected_repr.to_string());
}

#[test]
fn repr_of_hand_made_entry() {
    let entry = EtcShadowEntry { salt: "ab".to_string(), hash: "xyz".to_string() };
    assert_eq!(entry.repr(), "$6$ab$xyz");
}

#[test]
fn entry_depends_on_password_and_salt() {
    let a = get_entry("dees", SALT);
    let b = get_entry("deez", SALT);
    let c = get_entry("dees", "otherSalt");
    assert_ne!(a.hash, b.hash);
    assert_ne!(a.hash, c.hash);
    assert_ne!(a.hash, "dees");
}

#[test]
fn password_matches_only_its_own_password() {
    let entry = get_entry("dees", SALT);
    assert!(password_matches(&entry, "dees"));
    assert!(!password_matches(&entry, "Dees"));
    assert!(!password_matches(&entry, ""));
}

#[test]
fn find_sequentially_finds_the_password() {
    let entry = get_entry("dees", SALT);
    let list: Vec<String> = vec!["alpha".into(), "beta".into(), "dees".into(), "gamma".into()];
    assert_eq!(find_sequentially(&list, &entry), Some("dees".to_string()));
}

#[test]
fn find_sequentially_returns_none_when_absent() {
    let entry = get_entry("dees", SALT);
    let list: Vec<String> = vec!["alpha".into(), "beta".into()];
    assert_eq!(find_sequentially(&list, &entry), None);
    assert_eq!(find_sequentially(&Vec::new(), &entry), None);
}

#[test]
fn password_list_splits_lines() {
    assert_eq!(password_list("a\nb\r\nc"), vec!["a", "b", "c"]);
    assert_eq!(password_list("a\n\n"), vec!["a", ""]);
    assert_eq!(password_list("\n"), vec![""]);
    assert_eq!(password_list(""), Vec::<String>::new());
    assert_eq!(password_list("x\r"), vec!["x\r"]);
    assert_eq!(password_list("x\ry\n"), vec!["x\ry"]);
    assert_eq!(password_list("zażółć\ngęślą"), vec!["zażółć", "gęślą"]);
}

#[test]
fn password_list_matches_str_lines() {
    let text = "one\r\ntwo\n\nthree\r\n\r\nfour\r";
    let expected: Vec<String> = text.lines().map(String::from).collect();
    assert_eq!(password_list(text), expected);
}

#[test]
fn password_list_keeps_at_most_the_limit() {
    let mut text = String::new();
    for i in 0..(PASSWORD_LIMIT + 5) {
        text.push_str(&i.to_string());
        text.push('\n');
    }
    let words = password_list(&text);
    assert_eq!(words.len(), PASSWORD_LIMIT);
    assert_eq!(words[0], "0");
    assert_eq!(words[PASSWORD_LIMIT - 1], (PASSWORD_LIMIT - 1).to_string());
}

#[test]
fn crlf_endings_give_the_same_word_list() {
    let text = "alpha\nbeta\n\ndees\ngamma";
    let crlf = text.replace('\n', "\r\n");
    assert_eq!(password_list(text), password_list(&crlf));
    let entry = get_entry("dees", SALT);
    assert_eq!(
        find_sequentially(&password_list(text), &entry),
        find_sequentially(&password_list(&crlf), &entry)
    );
}

#[test]
fn hash_uses_the_crypt_alphabet() {
    for (password, salt) in [("dees", SALT), ("", "x"), ("zażółć", "0123456789abcdefXYZ")] {
        let entry = get_entry(password, salt);
        assert!(entry.hash.chars().all(|c| c == '.' || c == '/' || c.is_ascii_alphanumeric()));
    }
}
