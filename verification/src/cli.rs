//! A command-line reader for short options (`-x`, clusters such as `-xy`,
//! values as `-o VALUE`, `-oVALUE` or `-o=VALUE`) and long options
//! (`--name`, `--name VALUE`, `--name=VALUE`), with `--` ending the options.
//!
//! Each command takes no positional arguments. An option may occur once;
//! `help` and `version` options stop the reading. Values are read when the
//! option that owns them is complete, so that errors come out in the order in
//! which the words are read.

use crate::text::{chars_of, string_from_chars};
use vstd::prelude::*;

verus! {

/// What an option does.
#[derive(PartialEq, Eq, Structural, Clone, Copy, Debug)]
pub enum OptKind {
    /// A switch without a value.
    Flag,
    /// An option whose value is a number from 0 to 255.
    Number,
    /// An option whose value is any text.
    Text,
    /// Asks for the help text.
    Help,
    /// Asks for the version.
    Version,
}

/// One option that a command accepts.
pub struct OptSpec {
    /// Its one-letter name (`-x`).
    pub short: char,
    /// Its long name (`--name`), if it has one.
    pub long: Option<String>,
    /// What it does.
    pub kind: OptKind,
}

/// An option as the contracts see it.
pub struct OptDecl {
    pub short: char,
    pub long: Option<Seq<char>>,
    pub kind: OptKind,
}

impl View for OptSpec {
    type V = OptDecl;

    open spec fn view(&self) -> OptDecl {
        OptDecl {
            short: self.short,
            long: match self.long {
                Some(l) => Some(l@),
                None => None,
            },
            kind: self.kind,
        }
    }
}

/// What was given for an option.
#[derive(Debug)]
pub enum OptValue {
    /// A switch was given.
    Present,
    /// A number was given.
    Number(u8),
    /// A text was given.
    Text(String),
}

/// What was given for an option, as the contracts see it.
pub enum ArgValue {
    Present,
    Number(u8),
    Text(Seq<char>),
}

impl View for OptValue {
    type V = ArgValue;

    open spec fn view(&self) -> ArgValue {
        match self {
            OptValue::Present => ArgValue::Present,
            OptValue::Number(n) => ArgValue::Number(*n),
            OptValue::Text(s) => ArgValue::Text(s@),
        }
    }
}

/// Why a command line was not accepted. Options are named by their letter.
#[derive(PartialEq, Eq, Structural, Clone, Copy, Debug)]
pub enum ArgsError {
    /// The help option was given.
    Help,
    /// The version option was given.
    Version,
    /// A word that is neither an option of the command nor a value of one.
    UnexpectedArgument,
    /// An option that takes a value was given none.
    MissingValue(char),
    /// An option was given twice.
    RepeatedArgument(char),
    /// The value of a numeric option is not a number from 0 to 255.
    InvalidValue(char),
    /// A value was attached (`--name=...`) to an option that takes none.
    UnneededValue(char),
    /// A required option was not given.
    MissingRequired(char),
}

/// The reader's state between words: what each option got, the option whose
/// value is outstanding (with the value once read), and whether `--` has
/// been seen.
pub struct CliState {
    pub matched: Seq<Option<ArgValue>>,
    pub pending: Option<(int, Option<Seq<char>>)>,
    pub trailing: bool,
}

pub open spec fn initial_state(n: nat) -> CliState {
    CliState { matched: Seq::new(n, |i: int| None), pending: None, trailing: false }
}

/// Whether an option of this kind takes a value.
pub open spec fn takes_value(k: OptKind) -> bool {
    k == OptKind::Number || k == OptKind::Text
}

/// The first option with letter `c`.
pub open spec fn find_short(table: Seq<OptDecl>, c: char) -> Option<int>
    decreases table.len(),
{
    if table.len() == 0 {
        None
    } else if table[0].short == c {
        Some(0)
    } else {
        match find_short(table.drop_first(), c) {
            Some(i) => Some(i + 1),
            None => None,
        }
    }
}

/// The first option with long name `name`.
pub open spec fn find_long(table: Seq<OptDecl>, name: Seq<char>) -> Option<int>
    decreases table.len(),
{
    if table.len() == 0 {
        None
    } else if table[0].long == Some(name) {
        Some(0)
    } else {
        match find_long(table.drop_first(), name) {
            Some(i) => Some(i + 1),
            None => None,
        }
    }
}

/// What `find_short` finds is an option with that letter.
pub proof fn lemma_find_short(table: Seq<OptDecl>, c: char)
    ensures
        find_short(table, c) matches Some(k) ==> 0 <= k < table.len() && table[k].short == c,
    decreases table.len(),
{
    if table.len() > 0 && table[0].short != c {
        lemma_find_short(table.drop_first(), c);
    }
}

/// What `find_long` finds is an option with that long name.
pub proof fn lemma_find_long(table: Seq<OptDecl>, name: Seq<char>)
    ensures
        find_long(table, name) matches Some(k) ==> 0 <= k < table.len() && table[k].long == Some(
            name,
        ),
    decreases table.len(),
{
    if table.len() > 0 && table[0].long != Some(name) {
        lemma_find_long(table.drop_first(), name);
    }
}

/// The value of a decimal digit character.
pub open spec fn digit_value(c: char) -> nat {
    (c as nat - 48) as nat
}

pub open spec fn is_digit(c: char) -> bool {
    '0' <= c <= '9'
}

pub open spec fn all_digits(s: Seq<char>) -> bool {
    forall|i: int| 0 <= i < s.len() ==> is_digit(#[trigger] s[i])
}

/// The number that a string of decimal digits stands for.
pub open spec fn digits_value(s: Seq<char>) -> nat
    decreases s.len(),
{
    if s.len() == 0 {
        0
    } else {
        digits_value(s.drop_last()) * 10 + digit_value(s.last())
    }
}

/// A numeric option value: an optional sign followed by at least one
/// decimal digit, standing for a whole number from 0 to 255.
pub open spec fn parse_number(s: Seq<char>) -> Option<u8> {
    let signed = s.len() > 0 && (s[0] == '+' || s[0] == '-');
    let digits = if signed {
        s.drop_first()
    } else {
        s
    };
    if digits.len() == 0 || !all_digits(digits) {
        None
    } else if signed && s[0] == '-' {
        if digits_value(digits) == 0 {
            Some(0u8)
        } else {
            None
        }
    } else if digits_value(digits) <= 255 {
        Some(digits_value(digits) as u8)
    } else {
        None
    }
}

/// Records option `o` with value `v` (already free of any outstanding one).
pub open spec fn apply(table: Seq<OptDecl>, matched: Seq<Option<ArgValue>>, o: int, v: Option<
    Seq<char>,
>) -> Result<Seq<Option<ArgValue>>, ArgsError> {
    let d = table[o];
    match d.kind {
        OptKind::Help => Err(ArgsError::Help),
        OptKind::Version => Err(ArgsError::Version),
        OptKind::Flag => if matched[o] is Some {
            Err(ArgsError::RepeatedArgument(d.short))
        } else {
            Ok(matched.update(o, Some(ArgValue::Present)))
        },
        OptKind::Number => match v {
            None => Err(ArgsError::MissingValue(d.short)),
            Some(text) => if matched[o] is Some {
                Err(ArgsError::RepeatedArgument(d.short))
            } else {
                match parse_number(text) {
                    Some(n) => Ok(matched.update(o, Some(ArgValue::Number(n)))),
                    None => Err(ArgsError::InvalidValue(d.short)),
                }
            },
        },
        OptKind::Text => match v {
            None => Err(ArgsError::MissingValue(d.short)),
            Some(text) => if matched[o] is Some {
                Err(ArgsError::RepeatedArgument(d.short))
            } else {
                Ok(matched.update(o, Some(ArgValue::Text(text))))
            },
        },
    }
}

/// Completes the outstanding option, if any.
pub open spec fn resolve(table: Seq<OptDecl>, st: CliState) -> Result<CliState, ArgsError> {
    match st.pending {
        None => Ok(st),
        Some((o, v)) => match apply(table, st.matched, o, v) {
            Ok(m) => Ok(CliState { matched: m, pending: None, trailing: st.trailing }),
            Err(e) => Err(e),
        },
    }
}

/// Completes the outstanding option, then records option `o` with value `v`.
pub open spec fn react(table: Seq<OptDecl>, st: CliState, o: int, v: Option<Seq<char>>) -> Result<
    CliState,
    ArgsError,
> {
    match resolve(table, st) {
        Ok(s) => match apply(table, s.matched, o, v) {
            Ok(m) => Ok(CliState { matched: m, pending: None, trailing: s.trailing }),
            Err(e) => Err(e),
        },
        Err(e) => Err(e),
    }
}

/// Completes the outstanding option, then waits for a value of option `o`.
pub open spec fn expect_value(table: Seq<OptDecl>, st: CliState, o: int) -> Result<
    CliState,
    ArgsError,
> {
    match resolve(table, st) {
        Ok(s) => Ok(CliState { matched: s.matched, pending: Some((o, None)), trailing: s.trailing }),
        Err(e) => Err(e),
    }
}

/// The letters of a short-option cluster (the word without its `-`), from
/// the first one still to read.
pub open spec fn short_cluster(table: Seq<OptDecl>, st: CliState, cs: Seq<char>) -> Result<
    CliState,
    ArgsError,
>
    decreases cs.len(),
{
    if cs.len() == 0 {
        Ok(st)
    } else {
        let rest = cs.drop_first();
        match find_short(table, cs[0]) {
            None => Err(ArgsError::UnexpectedArgument),
            Some(o) => if takes_value(table[o].kind) {
                if rest.len() > 0 {
                    let v = if rest[0] == '=' {
                        rest.drop_first()
                    } else {
                        rest
                    };
                    react(table, st, o, Some(v))
                } else {
                    expect_value(table, st, o)
                }
            } else {
                match react(table, st, o, None) {
                    Ok(s) => short_cluster(table, s, rest),
                    Err(e) => Err(e),
                }
            },
        }
    }
}

/// The index of the first occurrence of `c` in `s`.
pub open spec fn index_of(s: Seq<char>, c: char) -> Option<int>
    decreases s.len(),
{
    if s.len() == 0 {
        None
    } else if s[0] == c {
        Some(0)
    } else {
        match index_of(s.drop_first(), c) {
            Some(i) => Some(i + 1),
            None => None,
        }
    }
}

/// What `index_of` finds is an occurrence of the character.
pub proof fn lemma_index_of(s: Seq<char>, c: char)
    ensures
        index_of(s, c) matches Some(k) ==> 0 <= k < s.len() && s[k] == c,
    decreases s.len(),
{
    if s.len() > 0 && s[0] != c {
        lemma_index_of(s.drop_first(), c);
    }
}

/// A long option (the word without its `--`): its name, and the value after
/// the first `=` if there is one.
pub open spec fn long_option(table: Seq<OptDecl>, st: CliState, body: Seq<char>) -> Result<
    CliState,
    ArgsError,
> {
    let (name, value) = match index_of(body, '=') {
        Some(k) => (body.take(k), Some(body.skip(k + 1))),
        None => (body, None),
    };
    match find_long(table, name) {
        None => Err(ArgsError::UnexpectedArgument),
        Some(o) => if takes_value(table[o].kind) {
            match value {
                Some(v) => react(table, st, o, Some(v)),
                None => expect_value(table, st, o),
            }
        } else {
            match value {
                Some(_) => Err(ArgsError::UnneededValue(table[o].short)),
                None => react(table, st, o, None),
            }
        },
    }
}

/// Reads one word.
pub open spec fn step(table: Seq<OptDecl>, st: CliState, tok: Seq<char>) -> Result<
    CliState,
    ArgsError,
> {
    if st.trailing {
        Err(ArgsError::UnexpectedArgument)
    } else if tok == seq!['-', '-'] {
        Ok(CliState { trailing: true, ..st })
    } else if tok.len() > 2 && tok[0] == '-' && tok[1] == '-' {
        long_option(table, st, tok.skip(2))
    } else if tok.len() > 1 && tok[0] == '-' {
        short_cluster(table, st, tok.drop_first())
    } else {
        match st.pending {
            Some((o, None)) => Ok(CliState { pending: Some((o, Some(tok))), ..st }),
            _ => Err(ArgsError::UnexpectedArgument),
        }
    }
}

/// Reads the words in order.
pub open spec fn run(table: Seq<OptDecl>, st: CliState, toks: Seq<Seq<char>>) -> Result<
    CliState,
    ArgsError,
>
    decreases toks.len(),
{
    if toks.len() == 0 {
        Ok(st)
    } else {
        match step(table, st, toks[0]) {
            Ok(s) => run(table, s, toks.drop_first()),
            Err(e) => Err(e),
        }
    }
}

/// What a command line gives each option of `table`, the first word being
/// the program's name; or why it is refused.
pub open spec fn command_line_values(table: Seq<OptDecl>, args: Seq<Seq<char>>) -> Result<
    Seq<Option<ArgValue>>,
    ArgsError,
> {
    let words = if args.len() == 0 {
        args
    } else {
        args.drop_first()
    };
    match run(table, initial_state(table.len()), words) {
        Ok(st) => match resolve(table, st) {
            Ok(s) => Ok(s.matched),
            Err(e) => Err(e),
        },
        Err(e) => Err(e),
    }
}

/// The views of a list of options.
pub open spec fn table_view(table: Seq<OptSpec>) -> Seq<OptDecl> {
    table.map_values(|o: OptSpec| o@)
}

/// The views of what was given for each option.
pub open spec fn values_view(vals: Seq<Option<OptValue>>) -> Seq<Option<ArgValue>> {
    vals.map_values(
        |v: Option<OptValue>|
            match v {
                Some(x) => Some(x@),
                None => None,
            },
    )
}

/// The views of a list of strings.
pub open spec fn words_view(args: Seq<String>) -> Seq<Seq<char>> {
    args.map_values(|a: String| a@)
}

} // verus!

verus! {

/// The view of an optional text.
pub open spec fn text_view(v: Option<String>) -> Option<Seq<char>> {
    match v {
        Some(s) => Some(s@),
        None => None,
    }
}

/// The characters of `cs` from `lo` up to (not including) `hi`.
fn chars_range(cs: &Vec<char>, lo: usize, hi: usize) -> (s: String)
    requires
        lo <= hi <= cs.len(),
    ensures
        s@ == cs@.subrange(lo as int, hi as int),
{
    let mut part: Vec<char> = Vec::new();
    let mut i: usize = lo;
    while i < hi
        invariant
            lo <= i <= hi <= cs.len(),
            part@ == cs@.subrange(lo as int, i as int),
        decreases hi - i,
    {
        part.push(cs[i]);
        i = i + 1;
        assert(part@ =~= cs@.subrange(lo as int, i as int));
    }
    string_from_chars(part.as_slice())
}

/// Reads a numeric option value.
pub fn parse_number_value(s: &Vec<char>) -> (r: Option<u8>)
    ensures
        r == parse_number(s@),
{
    let n = s.len();
    let signed = n > 0 && (s[0] == '+' || s[0] == '-');
    let start: usize = if signed {
        1
    } else {
        0
    };
    let ghost digits = s@.skip(start as int);
    assert(signed ==> digits =~= s@.drop_first());
    assert(!signed ==> digits =~= s@);
    if start == n {
        return None;
    }
    // `acc` is the value of the digits read so far, or 256 once it exceeds 255.
    let mut acc: u32 = 0;
    let mut i: usize = start;
    assert(s@.subrange(start as int, start as int) =~= Seq::<char>::empty());
    while i < n
        invariant
            start <= i <= n == s.len(),
            digits == s@.skip(start as int),
            signed == (s@.len() > 0 && (s@[0] == '+' || s@[0] == '-')),
            start == (if signed {
                1usize
            } else {
                0usize
            }),
            all_digits(s@.subrange(start as int, i as int)),
            acc == (if digits_value(s@.subrange(start as int, i as int)) <= 255 {
                digits_value(s@.subrange(start as int, i as int))
            } else {
                256
            }),
        decreases n - i,
    {
        let c = s[i];
        if !('0' <= c && c <= '9') {
            assert(digits[i - start] == c);
            assert(!is_digit(digits[i - start]));
            assert(!all_digits(digits));
            return None;
        }
        let ghost prefix = s@.subrange(start as int, i as int);
        let ghost next = s@.subrange(start as int, i + 1);
        assert(next.drop_last() =~= prefix);
        assert(next.last() == c);
        let d: u32 = (c as u32) - 48;
        assert(d == digit_value(c));
        if acc <= 255 {
            let v = acc * 10 + d;
            acc = if v <= 255 {
                v
            } else {
                256
            };
        }
        i = i + 1;
        assert(all_digits(s@.subrange(start as int, i as int))) by {
            assert forall|j: int| 0 <= j < next.len() implies is_digit(#[trigger] next[j]) by {
                if j < prefix.len() {
                    assert(next[j] == prefix[j]);
                }
            }
        }
    }
    assert(s@.subrange(start as int, n as int) =~= digits);
    if signed && s[0] == '-' {
        if acc == 0 {
            Some(0)
        } else {
            None
        }
    } else if acc <= 255 {
        Some(acc as u8)
    } else {
        None
    }
}

/// The reader's state between words, as the executable code keeps it.
struct ReadState {
    matched: Vec<Option<OptValue>>,
    pending: Option<(usize, Option<String>)>,
    trailing: bool,
}

impl ReadState {
    spec fn view(&self) -> CliState {
        CliState {
            matched: values_view(self.matched@),
            pending: match self.pending {
                Some((o, v)) => Some((o as int, text_view(v))),
                None => None,
            },
            trailing: self.trailing,
        }
    }

    spec fn wf(&self, n: nat) -> bool {
        &&& self.matched.len() == n
        &&& (self.pending matches Some((o, _)) ==> o < n)
    }
}

/// Records option `o` with value `v`.
fn apply_exec(table: &Vec<OptSpec>, matched: &mut Vec<Option<OptValue>>, o: usize, v: Option<
    String,
>) -> (r: Result<(), ArgsError>)
    requires
        o < table.len(),
        old(matched).len() == table.len(),
    ensures
        final(matched).len() == table.len(),
        match apply(table_view(table@), values_view(old(matched)@), o as int, text_view(v)) {
            Ok(m) => r is Ok && values_view(final(matched)@) == m,
            Err(e) => r == Err::<(), ArgsError>(e),
        },
{
    let ghost tv = table_view(table@);
    let ghost before = values_view(matched@);
    assert(tv[o as int] == table@[o as int]@);
    let short = table[o].short;
    let taken = matched[o].is_some();
    assert(taken == (before[o as int] is Some));
    match table[o].kind {
        OptKind::Help => Err(ArgsError::Help),
        OptKind::Version => Err(ArgsError::Version),
        OptKind::Flag => {
            if taken {
                Err(ArgsError::RepeatedArgument(short))
            } else {
                matched.set(o, Some(OptValue::Present));
                assert(values_view(matched@) =~= before.update(o as int, Some(ArgValue::Present)));
                Ok(())
            }
        },
        OptKind::Number => match v {
            None => Err(ArgsError::MissingValue(short)),
            Some(text) => {
                if taken {
                    Err(ArgsError::RepeatedArgument(short))
                } else {
                    let cs = chars_of(text.as_str());
                    match parse_number_value(&cs) {
                        Some(n) => {
                            matched.set(o, Some(OptValue::Number(n)));
                            assert(values_view(matched@) =~= before.update(
                                o as int,
                                Some(ArgValue::Number(n)),
                            ));
                            Ok(())
                        },
                        None => Err(ArgsError::InvalidValue(short)),
                    }
                }
            },
        },
        OptKind::Text => match v {
            None => Err(ArgsError::MissingValue(short)),
            Some(text) => {
                if taken {
                    Err(ArgsError::RepeatedArgument(short))
                } else {
                    let ghost tview = text@;
                    matched.set(o, Some(OptValue::Text(text)));
                    assert(values_view(matched@) =~= before.update(
                        o as int,
                        Some(ArgValue::Text(tview)),
                    ));
                    Ok(())
                }
            },
        },
    }
}

/// Completes the outstanding option, if any.
fn resolve_exec(table: &Vec<OptSpec>, st: &mut ReadState) -> (r: Result<(), ArgsError>)
    requires
        old(st).wf(table.len() as nat),
    ensures
        final(st).wf(table.len() as nat),
        match resolve(table_view(table@), old(st).view()) {
            Ok(s) => r is Ok && final(st).view() == s,
            Err(e) => r == Err::<(), ArgsError>(e),
        },
{
    match st.pending.take() {
        None => Ok(()),
        Some((o, v)) => apply_exec(table, &mut st.matched, o, v),
    }
}

/// Completes the outstanding option, then records option `o` with value `v`.
fn react_exec(table: &Vec<OptSpec>, st: &mut ReadState, o: usize, v: Option<String>) -> (r: Result<
    (),
    ArgsError,
>)
    requires
        old(st).wf(table.len() as nat),
        o < table.len(),
    ensures
        final(st).wf(table.len() as nat),
        match react(table_view(table@), old(st).view(), o as int, text_view(v)) {
            Ok(s) => r is Ok && final(st).view() == s,
            Err(e) => r == Err::<(), ArgsError>(e),
        },
{
    let r = resolve_exec(table, st);
    if r.is_err() {
        return r;
    }
    apply_exec(table, &mut st.matched, o, v)
}

/// Completes the outstanding option, then waits for a value of option `o`.
fn expect_value_exec(table: &Vec<OptSpec>, st: &mut ReadState, o: usize) -> (r: Result<
    (),
    ArgsError,
>)
    requires
        old(st).wf(table.len() as nat),
        o < table.len(),
    ensures
        final(st).wf(table.len() as nat),
        match expect_value(table_view(table@), old(st).view(), o as int) {
            Ok(s) => r is Ok && final(st).view() == s,
            Err(e) => r == Err::<(), ArgsError>(e),
        },
{
    let r = resolve_exec(table, st);
    if r.is_err() {
        return r;
    }
    st.pending = Some((o, None));
    Ok(())
}

/// The first option with letter `c`.
fn find_short_exec(table: &Vec<OptSpec>, c: char) -> (r: Option<usize>)
    ensures
        match find_short(table_view(table@), c) {
            Some(k) => r == Some(k as usize) && 0 <= k < table.len(),
            None => r is None,
        },
{
    let ghost tv = table_view(table@);
    proof {
        lemma_find_short(tv, c);
    }
    let mut i: usize = 0;
    assert(tv.skip(0) =~= tv);
    while i < table.len()
        invariant
            i <= table.len(),
            tv == table_view(table@),
            find_short(tv, c) == (match find_short(tv.skip(i as int), c) {
                Some(k) => Some(k + i),
                None => None,
            }),
        decreases table.len() - i,
    {
        let ghost rest = tv.skip(i as int);
        assert(rest.drop_first() =~= tv.skip(i + 1));
        assert(rest[0] == table@[i as int]@);
        if table[i].short == c {
            proof {
                lemma_find_short(tv, c);
            }
            return Some(i);
        }
        i = i + 1;
    }
    assert(tv.skip(i as int) =~= Seq::<OptDecl>::empty());
    None
}

} // verus!

verus! {

/// The first option with long name `name`.
fn find_long_exec(table: &Vec<OptSpec>, name: &String) -> (r: Option<usize>)
    ensures
        match find_long(table_view(table@), name@) {
            Some(k) => r == Some(k as usize) && 0 <= k < table.len(),
            None => r is None,
        },
{
    let ghost tv = table_view(table@);
    proof {
        lemma_find_long(tv, name@);
    }
    let mut i: usize = 0;
    assert(tv.skip(0) =~= tv);
    while i < table.len()
        invariant
            i <= table.len(),
            tv == table_view(table@),
            find_long(tv, name@) == (match find_long(tv.skip(i as int), name@) {
                Some(k) => Some(k + i),
                None => None,
            }),
        decreases table.len() - i,
    {
        let ghost rest = tv.skip(i as int);
        assert(rest.drop_first() =~= tv.skip(i + 1));
        assert(rest[0] == table@[i as int]@);
        let same = match &table[i].long {
            Some(l) => *l == *name,
            None => false,
        };
        if same {
            proof {
                lemma_find_long(tv, name@);
            }
            return Some(i);
        }
        i = i + 1;
    }
    assert(tv.skip(i as int) =~= Seq::<OptDecl>::empty());
    None
}

/// The index of the first `c` in `cs` at or after `from`.
fn index_of_exec(cs: &Vec<char>, from: usize, c: char) -> (r: Option<usize>)
    requires
        from <= cs.len(),
    ensures
        match index_of(cs@.skip(from as int), c) {
            Some(k) => r == Some((k + from) as usize) && 0 <= k && k + from < cs.len(),
            None => r is None,
        },
{
    let ghost body = cs@.skip(from as int);
    proof {
        lemma_index_of(body, c);
    }
    let mut i: usize = from;
    assert(cs@.skip(from as int) =~= body);
    while i < cs.len()
        invariant
            from <= i <= cs.len(),
            body == cs@.skip(from as int),
            index_of(body, c) == (match index_of(cs@.skip(i as int), c) {
                Some(k) => Some(k + (i - from)),
                None => None,
            }),
        decreases cs.len() - i,
    {
        let ghost rest = cs@.skip(i as int);
        assert(rest.drop_first() =~= cs@.skip(i + 1));
        if cs[i] == c {
            return Some(i);
        }
        i = i + 1;
    }
    assert(cs@.skip(i as int) =~= Seq::<char>::empty());
    None
}

/// Reads a short-option cluster `cs` (with its leading `-`).
fn short_cluster_exec(table: &Vec<OptSpec>, st: &mut ReadState, cs: &Vec<char>) -> (r: Result<
    (),
    ArgsError,
>)
    requires
        old(st).wf(table.len() as nat),
        cs.len() >= 1,
    ensures
        final(st).wf(table.len() as nat),
        match short_cluster(table_view(table@), old(st).view(), cs@.drop_first()) {
            Ok(s) => r is Ok && final(st).view() == s,
            Err(e) => r == Err::<(), ArgsError>(e),
        },
{
    let ghost tv = table_view(table@);
    let ghost goal = short_cluster(tv, st.view(), cs@.drop_first());
    let mut k: usize = 1;
    assert(cs@.skip(1) =~= cs@.drop_first());
    while k < cs.len()
        invariant
            1 <= k <= cs.len(),
            tv == table_view(table@),
            st.wf(table.len() as nat),
            goal == short_cluster(tv, st.view(), cs@.skip(k as int)),
            goal == short_cluster(tv, old(st).view(), cs@.drop_first()),
        decreases cs.len() - k,
    {
        let ghost rest_all = cs@.skip(k as int);
        assert(rest_all.drop_first() =~= cs@.skip(k + 1));
        let c = cs[k];
        assert(rest_all[0] == c);
        match find_short_exec(table, c) {
            None => {
                return Err(ArgsError::UnexpectedArgument);
            },
            Some(o) => {
                assert(tv[o as int] == table@[o as int]@);
                let kind = table[o].kind;
                if kind == OptKind::Number || kind == OptKind::Text {
                    if k + 1 < cs.len() {
                        let ghost rest = cs@.skip(k + 1);
                        let v = if cs[k + 1] == '=' {
                            assert(rest.drop_first() =~= cs@.subrange(k + 2, cs.len() as int));
                            chars_range(cs, k + 2, cs.len())
                        } else {
                            assert(rest =~= cs@.subrange(k + 1, cs.len() as int));
                            chars_range(cs, k + 1, cs.len())
                        };
                        return react_exec(table, st, o, Some(v));
                    } else {
                        assert(cs@.skip(k + 1).len() == 0);
                        return expect_value_exec(table, st, o);
                    }
                } else {
                    let r = react_exec(table, st, o, None);
                    if r.is_err() {
                        return r;
                    }
                    k = k + 1;
                }
            },
        }
    }
    assert(cs@.skip(k as int).len() == 0);
    Ok(())
}

/// Reads a long option `cs` (with its leading `--`).
fn long_option_exec(table: &Vec<OptSpec>, st: &mut ReadState, cs: &Vec<char>) -> (r: Result<
    (),
    ArgsError,
>)
    requires
        old(st).wf(table.len() as nat),
        cs.len() >= 2,
    ensures
        final(st).wf(table.len() as nat),
        match long_option(table_view(table@), old(st).view(), cs@.skip(2)) {
            Ok(s) => r is Ok && final(st).view() == s,
            Err(e) => r == Err::<(), ArgsError>(e),
        },
{
    let ghost tv = table_view(table@);
    let ghost body = cs@.skip(2);
    let (name, value) = match index_of_exec(cs, 2, '=') {
        Some(eq) => {
            assert(body.take(eq - 2) =~= cs@.subrange(2, eq as int));
            assert(body.skip(eq - 2 + 1) =~= cs@.subrange(eq + 1, cs.len() as int));
            (chars_range(cs, 2, eq), Some(chars_range(cs, eq + 1, cs.len())))
        },
        None => {
            assert(body =~= cs@.subrange(2, cs.len() as int));
            (chars_range(cs, 2, cs.len()), None)
        },
    };
    match find_long_exec(table, &name) {
        None => Err(ArgsError::UnexpectedArgument),
        Some(o) => {
            assert(tv[o as int] == table@[o as int]@);
            let kind = table[o].kind;
            if kind == OptKind::Number || kind == OptKind::Text {
                match value {
                    Some(v) => react_exec(table, st, o, Some(v)),
                    None => expect_value_exec(table, st, o),
                }
            } else {
                match value {
                    Some(_) => Err(ArgsError::UnneededValue(table[o].short)),
                    None => react_exec(table, st, o, None),
                }
            }
        },
    }
}

/// Reads one word.
fn step_exec(table: &Vec<OptSpec>, st: &mut ReadState, tok: &String) -> (r: Result<(), ArgsError>)
    requires
        old(st).wf(table.len() as nat),
    ensures
        final(st).wf(table.len() as nat),
        match step(table_view(table@), old(st).view(), tok@) {
            Ok(s) => r is Ok && final(st).view() == s,
            Err(e) => r == Err::<(), ArgsError>(e),
        },
{
    if st.trailing {
        return Err(ArgsError::UnexpectedArgument);
    }
    let cs = chars_of(tok.as_str());
    let n = cs.len();
    let is_escape = n == 2 && cs[0] == '-' && cs[1] == '-';
    assert(is_escape == (tok@ == seq!['-', '-'])) by {
        if tok@ == seq!['-', '-'] {
            assert(tok@.len() == 2);
        }
        if is_escape {
            assert(cs@ =~= seq!['-', '-']);
        }
    }
    if is_escape {
        st.trailing = true;
        Ok(())
    } else if n > 2 && cs[0] == '-' && cs[1] == '-' {
        long_option_exec(table, st, &cs)
    } else if n > 1 && cs[0] == '-' {
        short_cluster_exec(table, st, &cs)
    } else {
        let waiting = match &st.pending {
            Some((_, None)) => true,
            _ => false,
        };
        if waiting {
            let p = st.pending.take();
            match p {
                Some((o, _)) => {
                    st.pending = Some((o, Some(tok.clone())));
                },
                None => {},
            }
            Ok(())
        } else {
            Err(ArgsError::UnexpectedArgument)
        }
    }
}

/// What a command line gives each option of `table`, the first word being
/// the program's name; or why it is refused.
pub fn read_command_line(table: &Vec<OptSpec>, args: &Vec<String>) -> (r: Result<
    Vec<Option<OptValue>>,
    ArgsError,
>)
    ensures
        match command_line_values(table_view(table@), words_view(args@)) {
            Ok(m) => r matches Ok(vals) && values_view(vals@) == m,
            Err(e) => r matches Err(x) && x == e,
        },
        r matches Ok(vals) ==> vals.len() == table.len(),
{
    let ghost tv = table_view(table@);
    let ghost all = words_view(args@);
    let ghost words = if all.len() == 0 {
        all
    } else {
        all.drop_first()
    };
    let mut matched: Vec<Option<OptValue>> = Vec::new();
    let mut j: usize = 0;
    while j < table.len()
        invariant
            j <= table.len(),
            matched.len() == j,
            forall|x: int| 0 <= x < j ==> (#[trigger] matched@[x]) is None,
        decreases table.len() - j,
    {
        matched.push(None);
        j = j + 1;
    }
    let mut st = ReadState { matched, pending: None, trailing: false };
    assert(st.view().matched =~= initial_state(tv.len()).matched);
    let mut i: usize = if args.len() == 0 {
        0
    } else {
        1
    };
    assert(words =~= all.skip(i as int));
    let ghost goal = run(tv, initial_state(tv.len()), words);
    while i < args.len()
        invariant
            i <= args.len(),
            tv == table_view(table@),
            all == words_view(args@),
            st.wf(table.len() as nat),
            goal == run(tv, st.view(), all.skip(i as int)),
            goal == run(tv, initial_state(tv.len()), words),
            words == (if all.len() == 0 {
                all
            } else {
                all.drop_first()
            }),
        decreases args.len() - i,
    {
        let ghost rest = all.skip(i as int);
        assert(rest.drop_first() =~= all.skip(i + 1));
        assert(rest[0] == args@[i as int]@);
        let ghost before = st.view();
        let r = step_exec(table, &mut st, &args[i]);
        if let Err(e) = r {
            assert(step(tv, before, rest[0]) == Err::<CliState, ArgsError>(e));
            assert(goal == Err::<CliState, ArgsError>(e));
            return Err(e);
        }
        i = i + 1;
    }
    assert(all.skip(i as int).len() == 0);
    match resolve_exec(table, &mut st) {
        Err(e) => Err(e),
        Ok(()) => Ok(st.matched),
    }
}

} // verus!

verus! {

/// The help option `-h`/`--help`.
pub open spec fn help_decl() -> OptDecl {
    OptDecl { short: 'h', long: Some(seq!['h', 'e', 'l', 'p']), kind: OptKind::Help }
}

/// The version option `-V`/`--version`.
pub open spec fn version_decl() -> OptDecl {
    OptDecl { short: 'V', long: Some(seq!['v', 'e', 'r', 's', 'i', 'o', 'n']), kind: OptKind::Version }
}

/// Appends an option with a long name.
pub(crate) fn push_long_option(t: &mut Vec<OptSpec>, short: char, long: &str, kind: OptKind)
    ensures
        table_view(final(t)@) == table_view(old(t)@).push(
            OptDecl { short, long: Some(long@), kind },
        ),
{
    let ghost before = table_view(t@);
    t.push(OptSpec { short, long: Some(String::from_str(long)), kind });
    assert(table_view(t@) =~= before.push(OptDecl { short, long: Some(long@), kind }));
}

/// Appends the version option.
pub(crate) fn push_version_option(t: &mut Vec<OptSpec>)
    ensures
        table_view(final(t)@) == table_view(old(t)@).push(version_decl()),
{
    proof {
        reveal_strlit("version");
        assert("version"@ =~= seq!['v', 'e', 'r', 's', 'i', 'o', 'n']);
    }
    push_long_option(t, 'V', "version", OptKind::Version);
}

/// Appends the help and version options.
pub(crate) fn push_help_and_version(t: &mut Vec<OptSpec>)
    ensures
        table_view(final(t)@) == table_view(old(t)@).push(help_decl()).push(version_decl()),
{
    proof {
        reveal_strlit("help");
        assert("help"@ =~= seq!['h', 'e', 'l', 'p']);
    }
    push_long_option(t, 'h', "help", OptKind::Help);
    push_version_option(t);
}

/// Appends an option without a long name.
pub(crate) fn push_short_option(t: &mut Vec<OptSpec>, short: char, kind: OptKind)
    ensures
        table_view(final(t)@) == table_view(old(t)@).push(OptDecl { short, long: None, kind }),
{
    let ghost before = table_view(t@);
    t.push(OptSpec { short, long: None, kind });
    assert(table_view(t@) =~= before.push(OptDecl { short, long: None, kind }));
}

} // verus!

verus! {

proof fn lemma_decimal_digits_value(n: nat)
    ensures
        all_digits(crate::text::decimal_digits(n)),
        digits_value(crate::text::decimal_digits(n)) == n,
        crate::text::decimal_digits(n).len() > 0,
    decreases n,
{
    let s = crate::text::decimal_digits(n);
    if n < 10 {
        let c = crate::text::digit_char(n);
        assert(c as nat == 48 + n);
        assert(s.drop_last() =~= Seq::<char>::empty());
        assert(s.last() == c);
        assert(digits_value(Seq::<char>::empty()) == 0);
        assert(digit_value(c) == n);
        assert(digits_value(s) == digits_value(s.drop_last()) * 10 + digit_value(c));
    } else {
        lemma_decimal_digits_value(n / 10);
        let prefix = crate::text::decimal_digits(n / 10);
        let c = crate::text::digit_char(n % 10);
        assert(c as nat == 48 + n % 10);
        assert(s.drop_last() =~= prefix);
        assert(s.last() == c);
        assert(digit_value(c) == n % 10);
        assert((n / 10) * 10 + n % 10 == n) by (nonlinear_arith);
        assert(digits_value(s) == digits_value(prefix) * 10 + digit_value(c));
        assert forall|i: int| 0 <= i < s.len() implies is_digit(#[trigger] s[i]) by {
            if i < prefix.len() {
                assert(s[i] == prefix[i]);
            }
        }
    }
}

/// A number written in decimal does not look like an option.
pub proof fn lemma_decimal_is_plain(n: nat)
    ensures
        is_plain_value(crate::text::decimal_digits(n)),
{
    lemma_decimal_digits_value(n);
    let s = crate::text::decimal_digits(n);
    assert(is_digit(s[0]));
}

/// A numeric option reads back any number from 0 to 255 written in decimal
/// (as the reports write user ids).
pub proof fn lemma_number_reads_decimal(n: u8)
    ensures
        parse_number(crate::text::decimal_digits(n as nat)) == Some(n),
{
    lemma_decimal_digits_value(n as nat);
    let s = crate::text::decimal_digits(n as nat);
    assert(is_digit(s[0]));
}

} // verus!

verus! {

/// A word that does not look like an option.
pub open spec fn is_plain_value(w: Seq<char>) -> bool {
    w.len() <= 1 || w[0] != '-'
}

/// `-x` for an option `x` that takes a value: the reader waits for it.
pub proof fn lemma_step_short_awaiting(table: Seq<OptDecl>, st: CliState, ch: char, o: int)
    requires
        !st.trailing,
        ch != '-',
        find_short(table, ch) == Some(o),
        takes_value(table[o].kind),
    ensures
        step(table, st, seq!['-', ch]) == expect_value(table, st, o),
{
    let tok = seq!['-', ch];
    assert(tok != seq!['-', '-']) by {
        assert(tok[1] != '-');
    }
    assert(tok.drop_first() =~= seq![ch]);
    assert(seq![ch].drop_first().len() == 0);
}

/// `-x` for a switch `x`: the reader records it.
pub proof fn lemma_step_short_flag(table: Seq<OptDecl>, st: CliState, ch: char, o: int)
    requires
        !st.trailing,
        ch != '-',
        find_short(table, ch) == Some(o),
        !takes_value(table[o].kind),
    ensures
        step(table, st, seq!['-', ch]) == react(table, st, o, None),
{
    let tok = seq!['-', ch];
    assert(tok != seq!['-', '-']) by {
        assert(tok[1] != '-');
    }
    assert(tok.drop_first() =~= seq![ch]);
    assert(seq![ch].drop_first() =~= Seq::<char>::empty());
    match react(table, st, o, None) {
        Ok(s) => {
            assert(short_cluster(table, s, seq![ch].drop_first()) == Ok::<CliState, ArgsError>(s));
        },
        Err(_) => {},
    }
}

/// A plain word while an option waits for its value: it becomes the value.
pub proof fn lemma_step_value(table: Seq<OptDecl>, st: CliState, w: Seq<char>, o: int)
    requires
        !st.trailing,
        is_plain_value(w),
        st.pending == Some((o, None::<Seq<char>>)),
    ensures
        step(table, st, w) == Ok::<CliState, ArgsError>(
            CliState { pending: Some((o, Some(w))), ..st },
        ),
{
    if w.len() == 2 {
        assert(w != seq!['-', '-']) by {
            assert(w[0] != '-');
        }
    }
}

/// Reading two words is reading the first, then the second.
pub proof fn lemma_run_two(table: Seq<OptDecl>, st: CliState, a: Seq<char>, b: Seq<char>)
    ensures
        run(table, st, seq![a, b]) == (match step(table, st, a) {
            Ok(s) => match step(table, s, b) {
                Ok(s2) => Ok(s2),
                Err(e) => Err(e),
            },
            Err(e) => Err(e),
        }),
{
    reveal_with_fuel(run, 3);
    let ws = seq![a, b];
    assert(ws.drop_first() =~= seq![b]);
    assert(seq![b].drop_first() =~= Seq::<Seq<char>>::empty());
    match step(table, st, a) {
        Ok(s) => {
            match step(table, s, b) {
                Ok(s2) => {
                    assert(run(table, s2, Seq::<Seq<char>>::empty()) == Ok::<CliState, ArgsError>(s2));
                },
                Err(e) => {},
            }
        },
        Err(e) => {},
    }
}

/// Reading `a` and `b` before the words `rest`.
pub proof fn lemma_run_prefix(table: Seq<OptDecl>, st: CliState, a: Seq<char>, b: Seq<char>, rest: Seq<Seq<char>>)
    ensures
        run(table, st, seq![a, b] + rest) == (match run(table, st, seq![a, b]) {
            Ok(s) => run(table, s, rest),
            Err(e) => Err(e),
        }),
{
    reveal_with_fuel(run, 3);
    let ws = seq![a, b] + rest;
    assert(ws[0] == a);
    assert((seq![b] + rest)[0] == b);
    assert(ws.drop_first() =~= seq![b] + rest);
    assert((seq![b] + rest).drop_first() =~= rest);
    lemma_run_two(table, st, a, b);
}

} // verus!

verus! {

/// An option given twice is refused: for a switch `-x`, the command line
/// `PROG -x -x` is refused as repeating `x`.
pub proof fn lemma_repeated_switch_refused(table: Seq<OptDecl>, prog: Seq<char>, ch: char, o: int)
    requires
        ch != '-',
        find_short(table, ch) == Some(o),
        table[o].kind == OptKind::Flag,
    ensures
        command_line_values(table, seq![prog, seq!['-', ch], seq!['-', ch]])
            == Err::<Seq<Option<ArgValue>>, ArgsError>(ArgsError::RepeatedArgument(ch)),
{
    lemma_find_short(table, ch);
    let st0 = initial_state(table.len());
    let tok = seq!['-', ch];
    lemma_step_short_flag(table, st0, ch, o);
    let m1 = st0.matched.update(o, Some(ArgValue::Present));
    let s1 = CliState { matched: m1, pending: None, trailing: false };
    assert(step(table, st0, tok) == Ok::<CliState, ArgsError>(s1));
    lemma_step_short_flag(table, s1, ch, o);
    assert(step(table, s1, tok) == Err::<CliState, ArgsError>(ArgsError::RepeatedArgument(ch)));
    lemma_run_two(table, st0, tok, tok);
    assert(seq![prog, tok, tok].drop_first() =~= seq![tok, tok]);
}

/// Asking for help first shows the help, whatever follows: the command line
/// `PROG -h REST...` is answered with the help for every `REST`.
pub proof fn lemma_help_first_wins(table: Seq<OptDecl>, prog: Seq<char>, rest: Seq<Seq<char>>, o: int)
    requires
        find_short(table, 'h') == Some(o),
        table[o].kind == OptKind::Help,
    ensures
        command_line_values(table, seq![prog, seq!['-', 'h']] + rest)
            == Err::<Seq<Option<ArgValue>>, ArgsError>(ArgsError::Help),
{
    lemma_find_short(table, 'h');
    let st0 = initial_state(table.len());
    let tok = seq!['-', 'h'];
    lemma_step_short_flag(table, st0, 'h', o);
    assert(step(table, st0, tok) == Err::<CliState, ArgsError>(ArgsError::Help));
    let args = seq![prog, tok] + rest;
    assert(args.drop_first() =~= seq![tok] + rest);
    assert((seq![tok] + rest)[0] == tok);
}

} // verus!
