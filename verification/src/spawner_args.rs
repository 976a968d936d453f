//! Command line of the process spawner: `-w SECONDS` (the pause between
//! two children) and `-m SECONDS` (the longest life of a child), both
//! required, besides `-h`/`--help` and `-V`/`--version`.

use crate::cli::{
    command_line_values, find_short, help_decl, initial_state, lemma_decimal_is_plain,
    lemma_number_reads_decimal, lemma_run_prefix, lemma_run_two, lemma_step_short_awaiting,
    lemma_step_value, resolve, step, CliState, push_help_and_version, push_short_option, read_command_line,
    table_view, values_view, version_decl, words_view, ArgValue, ArgsError, OptDecl, OptKind,
    OptSpec, OptValue,
};
use vstd::prelude::*;

verus! {

/// The spawner's settings.
#[derive(Debug)]
pub struct Args {
    pub w: u8,
    pub m: u8,
}

/// The options of the spawner.
pub open spec fn spawner_options() -> Seq<OptDecl> {
    seq![
        OptDecl { short: 'w', long: None, kind: OptKind::Number },
        OptDecl { short: 'm', long: None, kind: OptKind::Number },
        help_decl(),
        version_decl(),
    ]
}

fn options() -> (t: Vec<OptSpec>)
    ensures
        table_view(t@) == spawner_options(),
{
    let mut t: Vec<OptSpec> = Vec::new();
    push_short_option(&mut t, 'w', OptKind::Number);
    push_short_option(&mut t, 'm', OptKind::Number);
    push_help_and_version(&mut t);
    assert(table_view(t@) =~= spawner_options());
    t
}

/// The spawner's settings (w, m) that a command line gives, or why it is
/// refused.
pub open spec fn spawner_args(args: Seq<Seq<char>>) -> Result<(u8, u8), ArgsError> {
    match command_line_values(spawner_options(), args) {
        Err(e) => Err(e),
        Ok(m) => match (m[0], m[1]) {
            (Some(ArgValue::Number(w)), Some(ArgValue::Number(mm))) => Ok((w, mm)),
            (Some(ArgValue::Number(_)), _) => Err(ArgsError::MissingRequired('m')),
            _ => Err(ArgsError::MissingRequired('w')),
        },
    }
}

/// Reads the spawner's settings from the command line `args` (the
/// program's name first).
pub fn get(args: &Vec<String>) -> (r: Result<Args, ArgsError>)
    ensures
        match spawner_args(words_view(args@)) {
            Ok((w, m)) => r matches Ok(a) && a.w == w && a.m == m,
            Err(e) => r matches Err(x) && x == e,
        },
{
    let table = options();
    let mut vals = match read_command_line(&table, args) {
        Ok(v) => v,
        Err(e) => return Err(e),
    };
    let ghost m = values_view(vals@);
    let _version = vals.pop();
    let _help = vals.pop();
    let m_val = vals.pop();
    let w_val = vals.pop();
    match (w_val, m_val) {
        (Some(Some(OptValue::Number(w))), Some(Some(OptValue::Number(m)))) => Ok(Args { w, m }),
        (Some(Some(OptValue::Number(_))), _) => Err(ArgsError::MissingRequired('m')),
        _ => Err(ArgsError::MissingRequired('w')),
    }
}

} // verus!

verus! {

/// The spawner reads back its settings from the command line
/// `PROG -w W -m M` (numbers written in decimal).
pub proof fn lemma_spawner_reads_settings(prog: Seq<char>, w: u8, m: u8)
    ensures
        spawner_args(
            seq![
                prog,
                seq!['-', 'w'],
                crate::text::decimal_digits(w as nat),
                seq!['-', 'm'],
                crate::text::decimal_digits(m as nat),
            ],
        ) == Ok::<(u8, u8), ArgsError>((w, m)),
{
    let t = spawner_options();
    reveal_with_fuel(find_short, 3);
    assert(t.drop_first() =~= seq![t[1], t[2], t[3]]);
    assert(find_short(t, 'w') == Some(0int));
    assert(find_short(t, 'm') == Some(1int));
    let st0 = initial_state(t.len());
    let tw = seq!['-', 'w'];
    let tm = seq!['-', 'm'];
    let dw = crate::text::decimal_digits(w as nat);
    let dm = crate::text::decimal_digits(m as nat);
    lemma_number_reads_decimal(w);
    lemma_number_reads_decimal(m);
    lemma_decimal_is_plain(w as nat);
    lemma_decimal_is_plain(m as nat);
    lemma_step_short_awaiting(t, st0, 'w', 0);
    let s1 = CliState { matched: st0.matched, pending: Some((0int, None::<Seq<char>>)), trailing: false };
    assert(step(t, st0, tw) == Ok::<CliState, ArgsError>(s1));
    lemma_step_value(t, s1, dw, 0);
    let s2 = CliState { pending: Some((0int, Some(dw))), ..s1 };
    lemma_run_two(t, st0, tw, dw);
    let m1 = st0.matched.update(0, Some(ArgValue::Number(w)));
    assert(resolve(t, s2) == Ok::<CliState, ArgsError>(CliState { matched: m1, pending: None, trailing: false }));
    lemma_step_short_awaiting(t, s2, 'm', 1);
    let s3 = CliState { matched: m1, pending: Some((1int, None::<Seq<char>>)), trailing: false };
    assert(step(t, s2, tm) == Ok::<CliState, ArgsError>(s3));
    lemma_step_value(t, s3, dm, 1);
    let s4 = CliState { pending: Some((1int, Some(dm))), ..s3 };
    lemma_run_two(t, s2, tm, dm);
    lemma_run_prefix(t, st0, tw, dw, seq![tm, dm]);
    let args = seq![prog, tw, dw, tm, dm];
    assert(args.drop_first() =~= seq![tw, dw] + seq![tm, dm]);
    let m2 = m1.update(1, Some(ArgValue::Number(m)));
    assert(resolve(t, s4) == Ok::<CliState, ArgsError>(CliState { matched: m2, pending: None, trailing: false }));
    assert(command_line_values(t, args) == Ok::<Seq<Option<ArgValue>>, ArgsError>(m2));
}

} // verus!
