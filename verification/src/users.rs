//! Report lines about logged-in users, built from utmpx login records.

use crate::text::{decimal_digits, decimal_string, i8_array_to_string, i8_chars, all_non_negative};
use vstd::prelude::*;
use vstd::utf8::{decode_utf8, valid_utf8};

verus! {

/// The utmpx record kind of a user's login session (as on Linux).
pub const USER_PROCESS: i16 = 7;

/// The fields of a utmpx login record that the reports read.
pub struct LoginRecord {
    /// Kind of record.
    pub ut_type: i16,
    /// User name, as a C `char` array.
    pub ut_user: Vec<i8>,
    /// Terminal line, as a C `char` array.
    pub ut_line: Vec<i8>,
    /// Remote host, as a C `char` array.
    pub ut_host: Vec<i8>,
}

impl LoginRecord {
    /// All text fields hold 7-bit characters only.
    pub open spec fn well_formed(&self) -> bool {
        &&& all_non_negative(self.ut_user@)
        &&& all_non_negative(self.ut_line@)
        &&& all_non_negative(self.ut_host@)
    }

    /// Whether the record describes a user's login session.
    pub fn is_user_process(&self) -> (b: bool)
        ensures
            b == (self.ut_type == USER_PROCESS),
    {
        self.ut_type == USER_PROCESS
    }
}

/// Calls `std::str::from_utf8` and copies the text out.
///
/// Claims what the standard library documents: the bytes are accepted
/// exactly when they are valid UTF-8, and then the text is their decoding.
#[verifier::external_body]
fn str_from_utf8(bytes: &[u8]) -> (r: Option<String>)
    ensures
        r is Some <==> valid_utf8(bytes@),
        r matches Some(s) ==> s@ == decode_utf8(bytes@),
{
    match std::str::from_utf8(bytes) {
        Ok(s) => Some(s.to_owned()),
        Err(_) => None,
    }
}

/// The text of a C string given by its bytes (without the terminating NUL):
/// `None` when they are not valid UTF-8.
pub fn c_str_to_string(bytes: &[u8]) -> (r: Option<String>)
    ensures
        r is Some <==> valid_utf8(bytes@),
        r matches Some(s) ==> s@ == decode_utf8(bytes@),
{
    str_from_utf8(bytes)
}

/// The user name field of a report line: the name followed by a tab.
pub fn get_username(u: &LoginRecord) -> (s: String)
    requires
        all_non_negative(u.ut_user@),
    ensures
        s@ == i8_chars(u.ut_user@).push('\t'),
{
    let mut s = i8_array_to_string(u.ut_user.as_slice());
    s.append("\t");
    proof {
        reveal_strlit("\t");
    }
    s
}

/// The host field of a report line: the host in parentheses.
pub fn get_hosts(u: &LoginRecord) -> (s: String)
    requires
        all_non_negative(u.ut_host@),
    ensures
        s@ == seq!['('] + i8_chars(u.ut_host@) + seq![')'],
{
    let host = i8_array_to_string(u.ut_host.as_slice());
    let mut s = String::from_str("(");
    s.append(host.as_str());
    s.append(")");
    proof {
        reveal_strlit("(");
        reveal_strlit(")");
    }
    s
}

/// The strings of `list` joined, `sep` between neighbours.
pub open spec fn seq_join(list: Seq<Seq<char>>, sep: Seq<char>) -> Seq<char>
    decreases list.len(),
{
    if list.len() == 0 {
        seq![]
    } else if list.len() == 1 {
        list[0]
    } else {
        seq_join(list.drop_last(), sep) + sep + list.last()
    }
}

/// The group field of a report line: the names joined by `", "`, in square
/// brackets.
pub open spec fn group_field(names: Seq<Seq<char>>) -> Seq<char> {
    seq!['['] + seq_join(names, seq![',', ' ']) + seq![']']
}

/// The group names of a user as a report field: `[name1, name2, ...]`.
pub fn get_groups(group_names: &Vec<String>) -> (s: String)
    ensures
        s@ == group_field(group_names@.map_values(|g: String| g@)),
{
    let ghost names = group_names@.map_values(|g: String| g@);
    let mut joined = String::new();
    let mut i: usize = 0;
    while i < group_names.len()
        invariant
            i <= group_names.len(),
            names == group_names@.map_values(|g: String| g@),
            joined@ == seq_join(names.take(i as int), seq![',', ' ']),
        decreases group_names.len() - i,
    {
        proof {
            reveal_strlit(", ");
        }
        assert(names[i as int] == group_names@[i as int]@);
        if i > 0 {
            joined.append(", ");
        }
        joined.append(group_names[i].as_str());
        i = i + 1;
        assert(names.take(i as int).drop_last() =~= names.take(i - 1));
        if i == 1 {
            assert(names.take(1) =~= seq![names[0]]);
        } else {
            assert(names.take(i as int).last() == names[i - 1]);
        }
    }
    assert(names.take(group_names.len() as int) =~= names);
    let mut s = String::from_str("[");
    s.append(joined.as_str());
    s.append("]");
    proof {
        reveal_strlit("[");
        reveal_strlit("]");
    }
    s
}

/// The report line of a login session: the user name field, then the host
/// field if `h` is set and the group field if `g` is set, each after a space.
pub open spec fn report_line(
    user: Seq<char>,
    host: Seq<char>,
    groups: Seq<Seq<char>>,
    h: bool,
    g: bool,
) -> Seq<char> {
    let name_field = user.push('\t');
    let host_field = seq!['('] + host + seq![')'];
    let with_host = if h {
        name_field + seq![' '] + host_field
    } else {
        name_field
    };
    if g {
        with_host + seq![' '] + group_field(groups)
    } else {
        with_host
    }
}

/// The line that the user report prints for one login session. Only the
/// user name and host fields are read, so only they must be 7-bit.
pub fn user_report_line(u: &LoginRecord, group_names: &Vec<String>, h: bool, g: bool) -> (s:
    String)
    requires
        all_non_negative(u.ut_user@),
        all_non_negative(u.ut_host@),
    ensures
        s@ == report_line(
            i8_chars(u.ut_user@),
            i8_chars(u.ut_host@),
            group_names@.map_values(|n: String| n@),
            h,
            g,
        ),
{
    let username = get_username(u);
    let groups = get_groups(group_names);
    let hosts = get_hosts(u);
    let mut line = username;
    if h {
        line.append(" ");
        line.append(hosts.as_str());
    }
    if g {
        line.append(" ");
        line.append(groups.as_str());
    }
    proof {
        reveal_strlit(" ");
    }
    line
}

/// The summary line of a login session: user name, user id, host and
/// terminal line, separated by tabs.
pub open spec fn summary_line(user: Seq<char>, uid: u32, host: Seq<char>, line: Seq<char>) -> Seq<
    char,
> {
    user + seq!['\t'] + decimal_digits(uid as nat) + seq!['\t'] + host + seq!['\t'] + line
}

/// The line that the login listing prints for one login session of the
/// user with id `uid`.
pub fn print_user_line(u: &LoginRecord, uid: u32) -> (s: String)
    requires
        u.well_formed(),
    ensures
        s@ == summary_line(i8_chars(u.ut_user@), uid, i8_chars(u.ut_host@), i8_chars(u.ut_line@)),
{
    let username = i8_array_to_string(u.ut_user.as_slice());
    let shell = i8_array_to_string(u.ut_line.as_slice());
    let host = i8_array_to_string(u.ut_host.as_slice());
    let id = decimal_string(uid);
    let mut s = username;
    s.append("\t");
    s.append(id.as_str());
    s.append("\t");
    s.append(host.as_str());
    s.append("\t");
    s.append(shell.as_str());
    proof {
        reveal_strlit("\t");
    }
    s
}

/// The total number of characters in a list of strings.
pub open spec fn total_len(list: Seq<Seq<char>>) -> nat
    decreases list.len(),
{
    if list.len() == 0 {
        0
    } else {
        total_len(list.drop_last()) + list.last().len()
    }
}

/// Joining keeps every string: the join of no strings is empty, the join of
/// one string is that string, and joining one more string to a non-empty
/// list appends the separator and then that string, whatever the list's
/// length.
pub proof fn lemma_join_push(list: Seq<Seq<char>>, sep: Seq<char>, x: Seq<char>)
    ensures
        seq_join(Seq::<Seq<char>>::empty(), sep) == Seq::<char>::empty(),
        seq_join(seq![x], sep) == x,
        list.len() > 0 ==> seq_join(list.push(x), sep) == seq_join(list, sep) + sep + x,
{
    assert(list.push(x).drop_last() =~= list);
}

/// A join of `n >= 1` strings holds all their characters and `n - 1`
/// separators, and nothing else.
pub proof fn lemma_join_len(list: Seq<Seq<char>>, sep: Seq<char>)
    requires
        list.len() > 0,
    ensures
        seq_join(list, sep).len() == total_len(list) + sep.len() * (list.len() - 1),
    decreases list.len(),
{
    if list.len() == 1 {
        assert(list.drop_last() =~= Seq::<Seq<char>>::empty());
    } else {
        lemma_join_len(list.drop_last(), sep);
        let k: int = list.len() - 2;
        assert(sep.len() * k + sep.len() == sep.len() * (k + 1)) by (nonlinear_arith);
    }
}

/// Where the `i`-th string of a list starts in its join: after the strings
/// before it and one separator for each of them.
pub open spec fn join_offset(list: Seq<Seq<char>>, sep: Seq<char>, i: int) -> int {
    total_len(list.take(i)) + sep.len() * i
}

proof fn lemma_total_len_prefix(list: Seq<Seq<char>>, j: int)
    requires
        0 <= j < list.len(),
    ensures
        total_len(list.take(j + 1)) == total_len(list.take(j)) + list[j].len(),
        total_len(list.take(j + 1)) <= total_len(list),
    decreases list.len(),
{
    assert(list.take(j + 1).drop_last() =~= list.take(j));
    if j + 1 == list.len() {
        assert(list.take(j + 1) =~= list);
    } else {
        let l = list.drop_last();
        lemma_total_len_prefix(l, j);
        assert(l.take(j + 1) =~= list.take(j + 1));
    }
}

proof fn lemma_offset_step(list: Seq<Seq<char>>, sep: Seq<char>, i: int)
    requires
        0 <= i < list.len(),
    ensures
        join_offset(list, sep, i + 1) == join_offset(list, sep, i) + list[i].len() + sep.len(),
{
    lemma_total_len_prefix(list, i);
    assert(sep.len() * i + sep.len() == sep.len() * (i + 1)) by (nonlinear_arith);
}

proof fn lemma_offset_in_prefix(list: Seq<Seq<char>>, sep: Seq<char>, i: int)
    requires
        list.len() >= 2,
        0 <= i < list.len() - 1,
    ensures
        join_offset(list, sep, i) == join_offset(list.drop_last(), sep, i),
        join_offset(list, sep, i) + list[i].len() <= seq_join(list.drop_last(), sep).len(),
{
    let l = list.drop_last();
    let n = l.len() as int;
    assert(list.take(i) =~= l.take(i));
    lemma_total_len_prefix(l, i);
    lemma_join_len(l, sep);
    assert(sep.len() * i <= sep.len() * (n - 1)) by (nonlinear_arith)
        requires
            i <= n - 1,
    ;
}

proof fn lemma_subrange_of_prefix(p: Seq<char>, q: Seq<char>, a: int, b: int)
    requires
        0 <= a <= b <= p.len(),
    ensures
        (p + q).subrange(a, b) == p.subrange(a, b),
{
    assert((p + q).subrange(a, b) =~= p.subrange(a, b));
}

/// The join of a list of two or more strings is the join of all but the
/// last, the separator, and the last.
proof fn lemma_join_last(list: Seq<Seq<char>>, sep: Seq<char>)
    requires
        list.len() >= 2,
    ensures
        seq_join(list, sep) == seq_join(list.drop_last(), sep) + sep + list.last(),
        seq_join(list.drop_last(), sep).len() == join_offset(list, sep, list.len() - 2) + list[list.len() - 2].len(),
        join_offset(list, sep, list.len() - 1) == seq_join(list.drop_last(), sep).len() + sep.len(),
{
    let l = list.drop_last();
    let n = l.len() as int;
    assert(list =~= l.push(list.last()));
    lemma_join_push(l, sep, list.last());
    lemma_join_len(l, sep);
    assert(list.take(n) =~= l);
    lemma_total_len_prefix(list, n - 1);
    assert(list.take(n - 1 + 1) =~= l);
    assert(sep.len() * (n - 1) + sep.len() == sep.len() * n) by (nonlinear_arith);
}

proof fn lemma_offset_bounds(list: Seq<Seq<char>>, sep: Seq<char>, i: int)
    requires
        0 <= i < list.len(),
    ensures
        0 <= join_offset(list, sep, i),
        join_offset(list, sep, i) + list[i].len() <= seq_join(list, sep).len(),
{
    let n = list.len() as int;
    lemma_join_len(list, sep);
    lemma_total_len_prefix(list, i);
    assert(0 <= sep.len() * i <= sep.len() * (n - 1)) by (nonlinear_arith)
        requires
            0 <= i <= n - 1,
    ;
}

proof fn lemma_join_string_at(list: Seq<Seq<char>>, sep: Seq<char>, i: int)
    requires
        0 <= i < list.len(),
    ensures
        seq_join(list, sep).subrange(
            join_offset(list, sep, i),
            join_offset(list, sep, i) + list[i].len(),
        ) == list[i],
    decreases list.len(),
{
    lemma_offset_bounds(list, sep, i);
    if list.len() == 1 {
        assert(list.take(0) =~= Seq::<Seq<char>>::empty());
        assert(join_offset(list, sep, 0) == 0);
        assert(seq_join(list, sep).subrange(0, list[0].len() as int) =~= list[0]);
    } else {
        let l = list.drop_last();
        let x = list.last();
        let j = seq_join(l, sep);
        lemma_join_last(list, sep);
        assert(j + sep + x =~= j + (sep + x));
        let a = join_offset(list, sep, i);
        let b = a + list[i].len();
        if i < l.len() {
            lemma_offset_in_prefix(list, sep, i);
            lemma_offset_bounds(l, sep, i);
            lemma_join_string_at(l, sep, i);
            assert(list[i] == l[i]);
            assert(j.subrange(a, b) == list[i]);
            lemma_subrange_of_prefix(j, sep + x, a, b);
        } else {
            assert(a == j.len() + sep.len());
            assert(list[i] == x);
            assert((j + sep + x).subrange(a, b) =~= x);
        }
    }
}

proof fn lemma_join_separator_after(list: Seq<Seq<char>>, sep: Seq<char>, i: int)
    requires
        0 <= i < list.len() - 1,
    ensures
        seq_join(list, sep).subrange(
            join_offset(list, sep, i) + list[i].len(),
            join_offset(list, sep, i + 1),
        ) == sep,
    decreases list.len(),
{
    let l = list.drop_last();
    let j = seq_join(l, sep);
    lemma_join_last(list, sep);
    lemma_offset_step(list, sep, i);
    if i < l.len() - 1 {
        lemma_offset_in_prefix(list, sep, i);
        lemma_offset_in_prefix(list, sep, i + 1);
        lemma_offset_step(l, sep, i);
        lemma_join_separator_after(l, sep, i);
        lemma_subrange_of_prefix(
            j,
            sep + list.last(),
            join_offset(list, sep, i) + list[i].len(),
            join_offset(list, sep, i + 1),
        );
        assert(j + sep + list.last() =~= j + (sep + list.last()));
    } else {
        let s = seq_join(list, sep);
        assert(s.subrange(join_offset(list, sep, i) + list[i].len(), join_offset(list, sep, i + 1))
            =~= sep);
    }
}

/// A join holds every string of the list, in the list's order, each at its
/// offset, with the separator between neighbours.
pub proof fn lemma_join_in_order(list: Seq<Seq<char>>, sep: Seq<char>)
    ensures
        forall|i: int|
            0 <= i < list.len() ==> seq_join(list, sep).subrange(
                join_offset(list, sep, i),
                join_offset(list, sep, i) + list[i].len(),
            ) == #[trigger] list[i],
        forall|i: int|
            0 <= i < list.len() - 1 ==> #[trigger] seq_join(list, sep).subrange(
                join_offset(list, sep, i) + list[i].len(),
                join_offset(list, sep, i + 1),
            ) == sep,
{
    assert forall|i: int| 0 <= i < list.len() implies seq_join(list, sep).subrange(
        join_offset(list, sep, i),
        join_offset(list, sep, i) + list[i].len(),
    ) == #[trigger] list[i] by {
        lemma_join_string_at(list, sep, i);
    }
    assert forall|i: int| 0 <= i < list.len() - 1 implies #[trigger] seq_join(list, sep).subrange(
        join_offset(list, sep, i) + list[i].len(),
        join_offset(list, sep, i + 1),
    ) == sep by {
        lemma_join_separator_after(list, sep, i);
    }
}

/// The group field of `n >= 1` names has the two brackets, every name and a
/// `", "` between neighbours, and nothing else: its length is
/// `2 + (sum of name lengths) + 2 * (n - 1)`, it opens with `[` and closes
/// with `]`, and the `i`-th name stands right after the opening bracket and
/// the names before it, each followed by its `", "`.
pub proof fn lemma_group_field(names: Seq<Seq<char>>)
    requires
        names.len() > 0,
    ensures
        group_field(names).len() == 2 + total_len(names) + 2 * (names.len() - 1),
        group_field(names)[0] == '[',
        group_field(names).last() == ']',
        forall|i: int|
            0 <= i < names.len() ==> group_field(names).subrange(
                1 + total_len(names.take(i)) + 2 * i,
                1 + total_len(names.take(i)) + 2 * i + names[i].len(),
            ) == #[trigger] names[i],
{
    let sep = seq![',', ' '];
    let j = seq_join(names, sep);
    lemma_join_len(names, sep);
    lemma_join_in_order(names, sep);
    assert forall|i: int| 0 <= i < names.len() implies group_field(names).subrange(
        1 + total_len(names.take(i)) + 2 * i,
        1 + total_len(names.take(i)) + 2 * i + names[i].len(),
    ) == #[trigger] names[i] by {
        let a = join_offset(names, sep, i);
        let b = a + names[i].len();
        assert(j.subrange(a, b) == names[i]);
        lemma_total_len_prefix(names, i);
        assert(total_len(names.take(i + 1)) <= total_len(names));
        assert(2 * i <= 2 * (names.len() - 1));
        assert(group_field(names).subrange(1 + a, 1 + b) =~= j.subrange(a, b));
    }
}

/// The listing line holds its four fields whole, in order, one tab between
/// neighbours: it starts with the whole user name (whatever its length) and
/// a tab, then the user id in decimal and a tab, then the host and a tab,
/// and ends with the terminal line.
pub proof fn lemma_summary_line_fields(user: Seq<char>, uid: u32, host: Seq<char>, line: Seq<char>)
    ensures
        ({
            let s = summary_line(user, uid, host, line);
            let u = user.len() as int;
            let d = decimal_digits(uid as nat).len() as int;
            let h = host.len() as int;
            &&& s.len() == u + d + h + line.len() + 3
            &&& s.take(u) == user
            &&& s[u] == '\t'
            &&& s.subrange(u + 1, u + 1 + d) == decimal_digits(uid as nat)
            &&& s[u + 1 + d] == '\t'
            &&& s.subrange(u + 2 + d, u + 2 + d + h) == host
            &&& s[u + 2 + d + h] == '\t'
            &&& s.skip(u + 3 + d + h) == line
        }),
{
    let s = summary_line(user, uid, host, line);
    let u = user.len() as int;
    let d = decimal_digits(uid as nat).len() as int;
    let h = host.len() as int;
    assert(s.take(u) =~= user);
    assert(s.subrange(u + 1, u + 1 + d) =~= decimal_digits(uid as nat));
    assert(s.subrange(u + 2 + d, u + 2 + d + h) =~= host);
    assert(s.skip(u + 3 + d + h) =~= line);
}

/// The user report line starts with the whole user name (whatever its
/// length) and a tab; the host in parentheses follows after a space exactly
/// when `h` is set, and the line ends with a space and the group field
/// exactly when `g` is set.
pub proof fn lemma_report_line_fields(
    user: Seq<char>,
    host: Seq<char>,
    groups: Seq<Seq<char>>,
    h: bool,
    g: bool,
)
    ensures
        ({
            let s = report_line(user, host, groups, h, g);
            let u = user.len() as int;
            let gf = group_field(groups);
            &&& s.len() == u + 1 + (if h {
                host.len() + 3int
            } else {
                0int
            }) + (if g {
                gf.len() + 1int
            } else {
                0int
            })
            &&& s.take(u) == user
            &&& s[u] == '\t'
            &&& h ==> s.subrange(u + 1, u + 4 + host.len()) == seq![' ', '('] + host + seq![')']
            &&& g ==> s.skip(s.len() - gf.len() - 1) == seq![' '] + gf
        }),
{
    let s = report_line(user, host, groups, h, g);
    let u = user.len() as int;
    let gf = group_field(groups);
    assert(s.take(u) =~= user);
    if h {
        assert(s.subrange(u + 1, u + 4 + host.len()) =~= seq![' ', '('] + host + seq![')']);
    }
    if g {
        assert(s.skip(s.len() - gf.len() - 1) =~= seq![' '] + gf);
    }
}

} // verus!
