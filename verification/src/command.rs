//! Splitting the command that the timer runs into program and arguments.

use crate::text::{chars_of, string_from_chars};
use vstd::prelude::*;

verus! {

/// Whether `c` has the Unicode `White_Space` property (what
/// `char::is_whitespace` tests).
pub open spec fn is_white_space(c: char) -> bool {
    ||| '\t' <= c <= '\r'
    ||| c == ' '
    ||| c == '\u{85}'
    ||| c == '\u{A0}'
    ||| c == '\u{1680}'
    ||| '\u{2000}' <= c <= '\u{200A}'
    ||| c == '\u{2028}'
    ||| c == '\u{2029}'
    ||| c == '\u{202F}'
    ||| c == '\u{205F}'
    ||| c == '\u{3000}'
}

/// Whether `c` is white space.
pub fn is_whitespace(c: char) -> (b: bool)
    ensures
        b == is_white_space(c),
{
    ('\t' <= c && c <= '\r') || c == ' ' || c == '\u{85}' || c == '\u{A0}' || c == '\u{1680}' || (
    '\u{2000}' <= c && c <= '\u{200A}') || c == '\u{2028}' || c == '\u{2029}' || c == '\u{202F}'
        || c == '\u{205F}' || c == '\u{3000}'
}

/// The words of `s` that follow a partial word `cur`: maximal runs of
/// characters that are not white space.
pub open spec fn words_after(s: Seq<char>, cur: Seq<char>) -> Seq<Seq<char>>
    decreases s.len(),
{
    if s.len() == 0 {
        if cur.len() == 0 {
            seq![]
        } else {
            seq![cur]
        }
    } else if is_white_space(s[0]) {
        if cur.len() == 0 {
            words_after(s.drop_first(), seq![])
        } else {
            seq![cur] + words_after(s.drop_first(), seq![])
        }
    } else {
        words_after(s.drop_first(), cur.push(s[0]))
    }
}

/// The words of a text, as `str::split_whitespace` splits it.
pub open spec fn words(s: Seq<char>) -> Seq<Seq<char>> {
    words_after(s, seq![])
}

/// The words of `text`.
pub fn split_whitespace(text: &str) -> (ws: Vec<String>)
    ensures
        ws@.map_values(|w: String| w@) == words(text@),
{
    let cs = chars_of(text);
    let mut ws: Vec<String> = Vec::new();
    let mut cur: Vec<char> = Vec::new();
    let mut i: usize = 0;
    assert(cs@.skip(0) =~= cs@);
    assert(ws@.map_values(|w: String| w@) + words_after(cs@, cur@) =~= words(cs@));
    while i < cs.len()
        invariant
            i <= cs.len(),
            ws@.map_values(|w: String| w@) + words_after(cs@.skip(i as int), cur@) == words(cs@),
        decreases cs.len() - i,
    {
        let c = cs[i];
        let ghost rest = cs@.skip(i as int);
        let ghost before = ws@.map_values(|w: String| w@);
        let ghost old_cur = cur@;
        assert(rest.drop_first() =~= cs@.skip(i + 1));
        if is_whitespace(c) {
            if cur.len() == 0 {
                assert(words_after(rest, old_cur) == words_after(cs@.skip(i + 1), seq![]));
                assert(cur@ =~= seq![]);
            }
            if cur.len() > 0 {
                let w = string_from_chars(cur.as_slice());
                ws.push(w);
                assert(ws@.map_values(|w: String| w@) =~= before.push(old_cur));
                cur = Vec::new();
                assert(ws@.map_values(|w: String| w@) + words_after(cs@.skip(i + 1), cur@)
                    =~= before + words_after(rest, old_cur));
            }
        } else {
            cur.push(c);
            assert(words_after(rest, old_cur) == words_after(cs@.skip(i + 1), cur@));
        }
        i = i + 1;
    }
    assert(cs@.skip(i as int) =~= Seq::<char>::empty());
    if cur.len() > 0 {
        let ghost before = ws@.map_values(|w: String| w@);
        let w = string_from_chars(cur.as_slice());
        ws.push(w);
        assert(ws@.map_values(|w: String| w@) =~= before.push(cur@));
    }
    assert(ws@.map_values(|w: String| w@) =~= words(cs@));
    ws
}

/// Splits the timed command into the program's name and its arguments;
/// `None` when it holds no word.
pub fn split_command(command: &str) -> (r: Option<(String, Vec<String>)>)
    ensures
        match r {
            None => words(command@).len() == 0,
            Some((program, args)) => words(command@).len() > 0 && program@ == words(command@)[0]
                && args@.map_values(|w: String| w@) == words(command@).drop_first(),
        },
{
    let mut ws = split_whitespace(command);
    if ws.len() == 0 {
        return None;
    }
    let ghost all = ws@.map_values(|w: String| w@);
    let program = ws.remove(0);
    assert(ws@.map_values(|w: String| w@) =~= all.drop_first());
    Some((program, ws))
}

/// Every word is non-empty and holds no white space.
pub proof fn lemma_words_are_nonblank(s: Seq<char>)
    ensures
        forall|i: int| 0 <= i < words(s).len() ==> (#[trigger] words(s)[i]).len() > 0,
        forall|i: int, j: int|
            0 <= i < words(s).len() && 0 <= j < words(s)[i].len() ==> !is_white_space(
                #[trigger] words(s)[i][j],
            ),
{
    lemma_words_after_nonblank(s, seq![]);
}

proof fn lemma_words_after_nonblank(s: Seq<char>, cur: Seq<char>)
    requires
        forall|j: int| 0 <= j < cur.len() ==> !is_white_space(#[trigger] cur[j]),
    ensures
        forall|i: int| 0 <= i < words_after(s, cur).len() ==> (#[trigger] words_after(s, cur)[i]).len() > 0,
        forall|i: int, j: int|
            0 <= i < words_after(s, cur).len() && 0 <= j < words_after(s, cur)[i].len()
                ==> !is_white_space(#[trigger] words_after(s, cur)[i][j]),
    decreases s.len(),
{
    if s.len() == 0 {
        if cur.len() > 0 {
            assert(words_after(s, cur) == seq![cur]);
        } else {
            assert(words_after(s, cur).len() == 0);
        }
    } else if is_white_space(s[0]) {
        lemma_words_after_nonblank(s.drop_first(), seq![]);
        let tail = words_after(s.drop_first(), seq![]);
        if cur.len() > 0 {
            assert(words_after(s, cur) == seq![cur] + tail);
            assert forall|i: int| 1 <= i < words_after(s, cur).len() implies words_after(s, cur)[i]
                == tail[i - 1] by {}
        } else {
            assert(words_after(s, cur) == tail);
        }
    } else {
        let next = cur.push(s[0]);
        assert forall|j: int| 0 <= j < next.len() implies !is_white_space(#[trigger] next[j]) by {
            if j < cur.len() {
                assert(next[j] == cur[j]);
            }
        }
        lemma_words_after_nonblank(s.drop_first(), next);
        assert(words_after(s, cur) == words_after(s.drop_first(), next));
    }
}

/// Among the 7-bit characters, exactly tab, line feed, vertical tab, form
/// feed, carriage return and space are white space; among the 8-bit ones,
/// next line (U+0085) and the no-break space (U+00A0) are added. Every other
/// character below 256 (letters, digits, `.`, `-`, `/`, any punctuation) is
/// no white space.
pub proof fn lemma_white_space_below_256(c: char)
    ensures
        (c as u32) < 128 ==> (is_white_space(c) <==> (c == '\t' || c == '\n' || c == '\u{b}' || c
            == '\u{c}' || c == '\r' || c == ' ')),
        (c as u32) < 256 ==> (is_white_space(c) <==> (c == '\t' || c == '\n' || c == '\u{b}' || c
            == '\u{c}' || c == '\r' || c == ' ' || c == '\u{85}' || c == '\u{a0}')),
{
}

/// A non-empty text without white space is a single word.
pub proof fn lemma_single_word(s: Seq<char>)
    requires
        s.len() > 0,
        forall|j: int| 0 <= j < s.len() ==> !is_white_space(#[trigger] s[j]),
    ensures
        words(s) == seq![s],
{
    lemma_words_after_no_space(s, seq![]);
    assert(Seq::<char>::empty() + s =~= s);
}

proof fn lemma_words_after_no_space(s: Seq<char>, cur: Seq<char>)
    requires
        cur.len() + s.len() > 0,
        forall|j: int| 0 <= j < s.len() ==> !is_white_space(#[trigger] s[j]),
    ensures
        words_after(s, cur) == seq![cur + s],
    decreases s.len(),
{
    if s.len() == 0 {
        assert(cur + s =~= cur);
    } else {
        assert(!is_white_space(s[0]));
        let rest = s.drop_first();
        assert forall|j: int| 0 <= j < rest.len() implies !is_white_space(#[trigger] rest[j]) by {
            assert(rest[j] == s[j + 1]);
        }
        lemma_words_after_no_space(rest, cur.push(s[0]));
        assert(cur.push(s[0]) + rest =~= cur + s);
    }
}

/// Words are split at white space and only there: a white-space character
/// between two texts separates their words, whatever the texts hold.
pub proof fn lemma_words_split_at_space(a: Seq<char>, c: char, b: Seq<char>)
    requires
        is_white_space(c),
    ensures
        words(a + seq![c] + b) == words(a) + words(b),
{
    let rest = seq![c] + b;
    assert(rest.drop_first() =~= b);
    lemma_words_after_split(a, Seq::<char>::empty(), rest);
    assert(a + seq![c] + b =~= a + rest);
}

proof fn lemma_words_after_split(a: Seq<char>, cur: Seq<char>, rest: Seq<char>)
    requires
        rest.len() > 0,
        is_white_space(rest[0]),
    ensures
        words_after(a + rest, cur) == words_after(a, cur) + words_after(
            rest.drop_first(),
            Seq::<char>::empty(),
        ),
    decreases a.len(),
{
    let tail = words_after(rest.drop_first(), Seq::<char>::empty());
    if a.len() == 0 {
        assert(a + rest =~= rest);
        if cur.len() == 0 {
            assert(words_after(a, cur) =~= Seq::<Seq<char>>::empty());
            assert(words_after(a, cur) + tail =~= tail);
        }
    } else {
        let ar = a + rest;
        assert(ar[0] == a[0]);
        assert(ar.drop_first() =~= a.drop_first() + rest);
        if is_white_space(a[0]) {
            lemma_words_after_split(a.drop_first(), Seq::<char>::empty(), rest);
            if cur.len() > 0 {
                let w = words_after(a.drop_first(), Seq::<char>::empty());
                assert(seq![cur] + (w + tail) =~= seq![cur] + w + tail);
            }
        } else {
            lemma_words_after_split(a.drop_first(), cur.push(a[0]), rest);
        }
    }
}


} // verus!
