//! Dictionary attack on an `/etc/shadow` entry: reading the word list and
//! searching it for the password that reproduces the entry.

use crate::shadow::{get_entry, sha512_crypt_hash, shadow_repr, EtcShadowEntry};
use crate::text::{chars_of, string_from_chars};
use vstd::prelude::*;
use vstd::utf8::encode_utf8;

verus! {

/// The most words taken from a dictionary.
pub const PASSWORD_LIMIT: usize = 80000;

/// A line without the carriage return of a `\r\n` line ending.
pub open spec fn strip_cr(line: Seq<char>) -> Seq<char> {
    if line.len() > 0 && line.last() == '\r' {
        line.drop_last()
    } else {
        line
    }
}

/// The lines of `s` that follow a partial line `cur`: a line ends at `\n`
/// (a `\r` just before it is dropped); a last line without `\n` is kept as
/// it is, and an empty one is no line.
pub open spec fn lines_after(s: Seq<char>, cur: Seq<char>) -> Seq<Seq<char>>
    decreases s.len(),
{
    if s.len() == 0 {
        if cur.len() == 0 {
            seq![]
        } else {
            seq![cur]
        }
    } else if s[0] == '\n' {
        seq![strip_cr(cur)] + lines_after(s.drop_first(), seq![])
    } else {
        lines_after(s.drop_first(), cur.push(s[0]))
    }
}

/// The lines of a text, as `str::lines` splits it.
pub open spec fn text_lines(s: Seq<char>) -> Seq<Seq<char>> {
    lines_after(s, seq![])
}

/// The views of a list of strings.
pub open spec fn string_views(v: Seq<String>) -> Seq<Seq<char>> {
    v.map_values(|w: String| w@)
}

/// The word list read from a dictionary: its first `PASSWORD_LIMIT` lines.
pub open spec fn dictionary(text: Seq<char>) -> Seq<Seq<char>> {
    let lines = text_lines(text);
    if lines.len() <= PASSWORD_LIMIT {
        lines
    } else {
        lines.take(PASSWORD_LIMIT as int)
    }
}

/// Splits a dictionary text into its lines, keeping at most
/// `PASSWORD_LIMIT` of them.
pub fn password_list(text: &str) -> (words: Vec<String>)
    ensures
        string_views(words@) == dictionary(text@),
{
    let cs = chars_of(text);
    let mut words: Vec<String> = Vec::new();
    let mut cur: Vec<char> = Vec::new();
    let mut i: usize = 0;
    assert(cs@.skip(0) =~= cs@);
    assert(string_views(words@) + lines_after(cs@, cur@) =~= lines_after(cs@, seq![]));
    while i < cs.len() && words.len() < PASSWORD_LIMIT
        invariant
            i <= cs.len(),
            words.len() <= PASSWORD_LIMIT,
            string_views(words@) + lines_after(cs@.skip(i as int), cur@) == text_lines(cs@),
        decreases cs.len() - i,
    {
        let c = cs[i];
        let ghost rest = cs@.skip(i as int);
        let ghost before = string_views(words@);
        let ghost old_cur = cur@;
        assert(rest.drop_first() =~= cs@.skip(i + 1));
        if c == '\n' {
            let n = cur.len();
            if n > 0 && cur[n - 1] == '\r' {
                cur.pop();
            }
            let line = string_from_chars(cur.as_slice());
            assert(cur@ =~= strip_cr(old_cur));
            words.push(line);
            assert(string_views(words@) =~= before.push(strip_cr(old_cur)));
            cur = Vec::new();
            i = i + 1;
            assert(lines_after(rest, old_cur) == seq![strip_cr(old_cur)] + lines_after(
                cs@.skip(i as int),
                seq![],
            ));
            assert(string_views(words@) + lines_after(cs@.skip(i as int), cur@) =~= before
                + lines_after(rest, old_cur));
        } else {
            cur.push(c);
            i = i + 1;
        }
    }
    let ghost lines = text_lines(cs@);
    if words.len() < PASSWORD_LIMIT {
        assert(cs@.skip(i as int) =~= Seq::<char>::empty());
        if cur.len() > 0 {
            let ghost before = string_views(words@);
            let line = string_from_chars(cur.as_slice());
            words.push(line);
            assert(string_views(words@) =~= before.push(cur@));
        }
        assert(string_views(words@) =~= lines);
    } else {
        assert(lines.take(PASSWORD_LIMIT as int) =~= string_views(words@));
    }
    words
}

/// Whether hashing `password` under the entry's salt reproduces the entry:
/// the two `$6$salt$hash` forms are equal.
pub open spec fn password_fits(salt: Seq<char>, hash: Seq<char>, password: Seq<char>) -> bool {
    shadow_repr(salt, sha512_crypt_hash(encode_utf8(password), encode_utf8(salt))) == shadow_repr(
        salt,
        hash,
    )
}

/// Two entries with the same salt have the same `$6$` form exactly when
/// their hashes are equal.
pub proof fn lemma_repr_same_salt(salt: Seq<char>, h1: Seq<char>, h2: Seq<char>)
    ensures
        (shadow_repr(salt, h1) == shadow_repr(salt, h2)) <==> h1 == h2,
{
    if shadow_repr(salt, h1) == shadow_repr(salt, h2) {
        let k: int = salt.len() as int + 4;
        assert(shadow_repr(salt, h1).skip(k) =~= h1);
        assert(shadow_repr(salt, h2).skip(k) =~= h2);
    }
}

/// Whether `password` is the password stored in `entry`: hashing it under
/// the entry's salt gives the entry's `$6$salt$hash` form.
pub fn password_matches(entry: &EtcShadowEntry, password: &str) -> (b: bool)
    ensures
        b == password_fits(entry.salt@, entry.hash@, password@),
        b == (sha512_crypt_hash(encode_utf8(password@), encode_utf8(entry.salt@)) == entry.hash@),
{
    let candidate = get_entry(password, entry.salt.as_str());
    let b = entry.repr() == candidate.repr();
    proof {
        lemma_repr_same_salt(entry.salt@, entry.hash@, candidate.hash@);
    }
    b
}

/// The index of the first word of `words` that fits the entry, if any.
pub open spec fn first_fit(salt: Seq<char>, hash: Seq<char>, words: Seq<Seq<char>>) -> Option<int>
    decreases words.len(),
{
    if words.len() == 0 {
        None
    } else if password_fits(salt, hash, words[0]) {
        Some(0)
    } else {
        match first_fit(salt, hash, words.drop_first()) {
            Some(k) => Some(k + 1),
            None => None,
        }
    }
}

/// Searches the word list in order and returns the first word that is the
/// entry's password.
pub fn find_sequentially(password_list: &Vec<String>, shadow_entry: &EtcShadowEntry) -> (found:
    Option<String>)
    ensures
        match first_fit(shadow_entry.salt@, shadow_entry.hash@, string_views(password_list@)) {
            Some(k) => found matches Some(w) && w@ == password_list@[k]@,
            None => found is None,
        },
{
    let ghost words = string_views(password_list@);
    let mut i: usize = 0;
    assert(words.skip(0) =~= words);
    while i < password_list.len()
        invariant
            i <= password_list.len(),
            words == string_views(password_list@),
            first_fit(shadow_entry.salt@, shadow_entry.hash@, words) == (match first_fit(
                shadow_entry.salt@,
                shadow_entry.hash@,
                words.skip(i as int),
            ) {
                Some(k) => Some(k + i),
                None => None,
            }),
        decreases password_list.len() - i,
    {
        let ghost rest = words.skip(i as int);
        assert(rest.drop_first() =~= words.skip(i + 1));
        assert(rest[0] == password_list@[i as int]@);
        if password_matches(shadow_entry, password_list[i].as_str()) {
            return Some(password_list[i].clone());
        }
        i = i + 1;
    }
    assert(words.skip(i as int) =~= Seq::<Seq<char>>::empty());
    None
}

} // verus!

verus! {

/// `first_fit` finds exactly the first fitting word: the word at the index
/// it returns fits and none before it does, and it finds nothing only when
/// no word fits.
pub proof fn lemma_first_fit(salt: Seq<char>, hash: Seq<char>, words: Seq<Seq<char>>)
    ensures
        match first_fit(salt, hash, words) {
            Some(k) => 0 <= k < words.len() && password_fits(salt, hash, words[k]) && forall|
                j: int,
            |
                0 <= j < k ==> !password_fits(salt, hash, #[trigger] words[j]),
            None => forall|j: int|
                0 <= j < words.len() ==> !password_fits(salt, hash, #[trigger] words[j]),
        },
    decreases words.len(),
{
    if words.len() > 0 && !password_fits(salt, hash, words[0]) {
        let rest = words.drop_first();
        lemma_first_fit(salt, hash, rest);
        assert forall|j: int| 1 <= j < words.len() implies words[j] == rest[j - 1] by {}
        match first_fit(salt, hash, rest) {
            Some(k) => {
                assert forall|j: int| 0 <= j < k + 1 implies !password_fits(
                    salt,
                    hash,
                    #[trigger] words[j],
                ) by {
                    if j > 0 {
                        assert(words[j] == rest[j - 1]);
                    }
                }
            },
            None => {
                assert forall|j: int| 0 <= j < words.len() implies !password_fits(
                    salt,
                    hash,
                    #[trigger] words[j],
                ) by {
                    if j > 0 {
                        assert(words[j] == rest[j - 1]);
                    }
                }
            },
        }
    }
}

/// A password fits the entry that was made from it under any salt.
pub proof fn lemma_entry_fits_own_password(password: Seq<char>, salt: Seq<char>)
    ensures
        password_fits(
            salt,
            sha512_crypt_hash(encode_utf8(password), encode_utf8(salt)),
            password,
        ),
{
}

/// The sequential search succeeds whenever the word list holds a word that
/// fits the entry (such as the password the entry was made from), and then
/// what it returns fits too.
pub proof fn lemma_search_finds_fitting_word(
    salt: Seq<char>,
    hash: Seq<char>,
    words: Seq<Seq<char>>,
    k: int,
)
    requires
        0 <= k < words.len(),
        password_fits(salt, hash, words[k]),
    ensures
        first_fit(salt, hash, words) matches Some(j) && j <= k && password_fits(
            salt,
            hash,
            words[j],
        ),
{
    lemma_first_fit(salt, hash, words);
}

/// No word of a dictionary holds a line break.
pub proof fn lemma_dictionary_words_have_no_newline(text: Seq<char>)
    ensures
        forall|i: int, j: int|
            0 <= i < dictionary(text).len() && 0 <= j < dictionary(text)[i].len() ==> #[trigger] dictionary(
                text,
            )[i][j] != '\n',
{
    lemma_lines_have_no_newline(text, seq![]);
}

proof fn lemma_lines_have_no_newline(s: Seq<char>, cur: Seq<char>)
    requires
        forall|j: int| 0 <= j < cur.len() ==> cur[j] != '\n',
    ensures
        forall|i: int, j: int|
            0 <= i < lines_after(s, cur).len() && 0 <= j < lines_after(s, cur)[i].len()
                ==> #[trigger] lines_after(s, cur)[i][j] != '\n',
    decreases s.len(),
{
    if s.len() > 0 {
        if s[0] == '\n' {
            lemma_lines_have_no_newline(s.drop_first(), seq![]);
            let first = strip_cr(cur);
            assert forall|j: int| 0 <= j < first.len() implies first[j] != '\n' by {
                assert(first[j] == cur[j]);
            }
            let tail = lines_after(s.drop_first(), seq![]);
            assert forall|i: int, j: int|
                0 <= i < lines_after(s, cur).len() && 0 <= j < lines_after(
                    s,
                    cur,
                )[i].len() implies #[trigger] lines_after(s, cur)[i][j] != '\n' by {
                if i > 0 {
                    assert(lines_after(s, cur)[i] == tail[i - 1]);
                }
            }
        } else {
            let next = cur.push(s[0]);
            assert forall|j: int| 0 <= j < next.len() implies next[j] != '\n' by {
                if j < cur.len() {
                    assert(next[j] == cur[j]);
                }
            }
            lemma_lines_have_no_newline(s.drop_first(), next);
            assert(lines_after(s, cur) == lines_after(s.drop_first(), next));
        }
    } else {
        if cur.len() > 0 {
            assert(lines_after(s, cur) == seq![cur]);
        } else {
            assert(lines_after(s, cur).len() == 0);
        }
    }
}

} // verus!

verus! {

/// `s` with every `\n` written as `\r\n`.
pub open spec fn crlf_text(s: Seq<char>) -> Seq<char>
    decreases s.len(),
{
    if s.len() == 0 {
        seq![]
    } else if s[0] == '\n' {
        seq!['\r', '\n'] + crlf_text(s.drop_first())
    } else {
        seq![s[0]] + crlf_text(s.drop_first())
    }
}

/// `s` holds no carriage return.
pub open spec fn no_cr(s: Seq<char>) -> bool {
    forall|i: int| 0 <= i < s.len() ==> s[i] != '\r'
}

proof fn lemma_crlf_lines_after(s: Seq<char>, cur: Seq<char>)
    requires
        no_cr(s),
        no_cr(cur),
    ensures
        lines_after(crlf_text(s), cur) == lines_after(s, cur),
    decreases s.len(),
{
    if s.len() > 0 {
        let rest = s.drop_first();
        assert(no_cr(rest)) by {
            assert forall|i: int| 0 <= i < rest.len() implies rest[i] != '\r' by {
                assert(rest[i] == s[i + 1]);
            }
        }
        lemma_crlf_lines_after(rest, seq![]);
        let t = crlf_text(s);
        if s[0] == '\n' {
            let cr = cur.push('\r');
            assert(t[0] == '\r');
            assert(t.drop_first() =~= seq!['\n'] + crlf_text(rest));
            assert(lines_after(t, cur) == lines_after(t.drop_first(), cr));
            let u = t.drop_first();
            assert(u[0] == '\n');
            assert(u.drop_first() =~= crlf_text(rest));
            assert(strip_cr(cr) =~= cur);
            assert(cur.len() > 0 ==> cur.last() != '\r');
            assert(strip_cr(cur) == cur);
        } else {
            let next = cur.push(s[0]);
            assert(no_cr(next)) by {
                assert forall|i: int| 0 <= i < next.len() implies next[i] != '\r' by {
                    if i < cur.len() {
                        assert(next[i] == cur[i]);
                    }
                }
            }
            lemma_crlf_lines_after(rest, next);
            assert(t[0] == s[0]);
            assert(t.drop_first() =~= crlf_text(rest));
        }
    } else {
        assert(crlf_text(s) =~= s);
    }
}

/// Windows line endings change nothing: for a text without carriage returns,
/// writing every `\n` as `\r\n` gives the same word list.
pub proof fn lemma_crlf_same_dictionary(text: Seq<char>)
    requires
        no_cr(text),
    ensures
        dictionary(crlf_text(text)) == dictionary(text),
{
    lemma_crlf_lines_after(text, seq![]);
}

/// So the search finds the same word in both: for a text without carriage
/// returns and the same text with `\r\n` line endings, the sequential search
/// over their word lists gives the same result.
pub proof fn lemma_crlf_same_search(salt: Seq<char>, hash: Seq<char>, text: Seq<char>)
    requires
        no_cr(text),
    ensures
        first_fit(salt, hash, dictionary(crlf_text(text))) == first_fit(salt, hash, dictionary(text)),
{
    lemma_crlf_same_dictionary(text);
}

} // verus!
