//! Command line of the command timer: `-v` (print the command's output),
//! `-t TIMES` (how many runs, 1 if not given) and `-c COMMAND` (required),
//! besides `-h`/`--help` and `-V`/`--version`.

use crate::cli::{
    command_line_values, find_short, is_plain_value, help_decl, initial_state, lemma_number_reads_decimal,
    lemma_decimal_is_plain, lemma_run_prefix, lemma_run_two, lemma_step_short_awaiting,
    lemma_step_short_flag, lemma_step_value, resolve, run, step, CliState, push_help_and_version, push_short_option, read_command_line,
    version_decl, table_view, values_view, words_view, ArgValue,
    ArgsError, OptDecl, OptKind, OptSpec, OptValue,
};
use vstd::prelude::*;

verus! {

/// The timer's settings.
#[derive(Debug)]
pub struct Args {
    pub verbose: bool,
    pub times: u8,
    pub command: String,
}

/// The options of the timer.
pub open spec fn timer_options() -> Seq<OptDecl> {
    seq![
        OptDecl { short: 'v', long: None, kind: OptKind::Flag },
        OptDecl { short: 't', long: None, kind: OptKind::Number },
        OptDecl { short: 'c', long: None, kind: OptKind::Text },
        help_decl(),
        version_decl(),
    ]
}

fn options() -> (t: Vec<OptSpec>)
    ensures
        table_view(t@) == timer_options(),
{
    let mut t: Vec<OptSpec> = Vec::new();
    push_short_option(&mut t, 'v', OptKind::Flag);
    push_short_option(&mut t, 't', OptKind::Number);
    push_short_option(&mut t, 'c', OptKind::Text);
    push_help_and_version(&mut t);
    assert(table_view(t@) =~= timer_options());
    t
}

/// The timer's settings (verbose, times, command) that a command line gives,
/// or why it is refused.
pub open spec fn timer_args(args: Seq<Seq<char>>) -> Result<(bool, u8, Seq<char>), ArgsError> {
    match command_line_values(timer_options(), args) {
        Err(e) => Err(e),
        Ok(m) => match m[2] {
            Some(ArgValue::Text(c)) => Ok(
                (
                    m[0] is Some,
                    match m[1] {
                        Some(ArgValue::Number(n)) => n,
                        _ => 1u8,
                    },
                    c,
                ),
            ),
            _ => Err(ArgsError::MissingRequired('c')),
        },
    }
}

/// Reads the timer's settings from the command line `args` (the program's
/// name first).
pub fn get(args: &Vec<String>) -> (r: Result<Args, ArgsError>)
    ensures
        match timer_args(words_view(args@)) {
            Ok((v, t, c)) => r matches Ok(a) && a.verbose == v && a.times == t && a.command@ == c,
            Err(e) => r matches Err(x) && x == e,
        },
{
    let table = options();
    let mut vals = match read_command_line(&table, args) {
        Ok(v) => v,
        Err(e) => return Err(e),
    };
    let ghost m = values_view(vals@);
    let _version = vals.pop();
    let _help = vals.pop();
    let command = vals.pop();
    let times = vals.pop();
    let verbose = vals.pop();
    let verbose = match verbose {
        Some(Some(_)) => true,
        _ => false,
    };
    let times: u8 = match times {
        Some(Some(OptValue::Number(n))) => n,
        _ => 1,
    };
    match command {
        Some(Some(OptValue::Text(c))) => Ok(Args { verbose, times, command: c }),
        _ => Err(ArgsError::MissingRequired('c')),
    }
}

} // verus!

verus! {

/// The timer reads back its settings from the command line
/// `PROG [-v] -t TIMES -c COMMAND` (times written in decimal), and with
/// `-t` left out it runs the command once.
pub proof fn lemma_timer_reads_settings(prog: Seq<char>, verbose: bool, times: u8, command: Seq<char>)
    requires
        is_plain_value(command),
    ensures
        timer_args(
            (if verbose {
                seq![prog, seq!['-', 'v']]
            } else {
                seq![prog]
            }) + seq![
                seq!['-', 't'],
                crate::text::decimal_digits(times as nat),
                seq!['-', 'c'],
                command,
            ],
        ) == Ok::<(bool, u8, Seq<char>), ArgsError>((verbose, times, command)),
        timer_args(seq![prog, seq!['-', 'c'], command]) == Ok::<(bool, u8, Seq<char>), ArgsError>(
            (false, 1u8, command),
        ),
{
    let t = timer_options();
    reveal_with_fuel(find_short, 4);
    assert(t.drop_first().drop_first() =~= seq![t[2], t[3], t[4]]);
    assert(t.drop_first() =~= seq![t[1], t[2], t[3], t[4]]);
    assert(find_short(t, 'v') == Some(0int));
    assert(find_short(t, 't') == Some(1int));
    assert(find_short(t, 'c') == Some(2int));
    let st0 = initial_state(t.len());
    let tv = seq!['-', 'v'];
    let tt = seq!['-', 't'];
    let tc = seq!['-', 'c'];
    let dec = crate::text::decimal_digits(times as nat);
    lemma_number_reads_decimal(times);
    lemma_decimal_is_plain(times as nat);
    // The shortest line: PROG -c COMMAND.
    {
        lemma_step_short_awaiting(t, st0, 'c', 2);
        let s1 = CliState { matched: st0.matched, pending: Some((2int, None::<Seq<char>>)), trailing: false };
        assert(step(t, st0, tc) == Ok::<CliState, ArgsError>(s1));
        lemma_step_value(t, s1, command, 2);
        let s2 = CliState { pending: Some((2int, Some(command))), ..s1 };
        lemma_run_two(t, st0, tc, command);
        let args = seq![prog, tc, command];
        assert(args.drop_first() =~= seq![tc, command]);
        let m = st0.matched.update(2, Some(ArgValue::Text(command)));
        assert(resolve(t, s2) == Ok::<CliState, ArgsError>(CliState { matched: m, pending: None, trailing: false }));
        assert(command_line_values(t, args) == Ok::<Seq<Option<ArgValue>>, ArgsError>(m));
    }
    // The full line: PROG [-v] -t TIMES -c COMMAND.
    let m0 = if verbose {
        st0.matched.update(0, Some(ArgValue::Present))
    } else {
        st0.matched
    };
    let sv = CliState { matched: m0, pending: None, trailing: false };
    let tail = seq![tt, dec, tc, command];
    lemma_step_short_awaiting(t, sv, 't', 1);
    let s1 = CliState { matched: m0, pending: Some((1int, None::<Seq<char>>)), trailing: false };
    assert(step(t, sv, tt) == Ok::<CliState, ArgsError>(s1));
    lemma_step_value(t, s1, dec, 1);
    let s2 = CliState { pending: Some((1int, Some(dec))), ..s1 };
    lemma_run_two(t, sv, tt, dec);
    assert(run(t, sv, seq![tt, dec]) == Ok::<CliState, ArgsError>(s2));
    lemma_step_short_awaiting(t, s2, 'c', 2);
    let m1 = m0.update(1, Some(ArgValue::Number(times)));
    let s3 = CliState { matched: m1, pending: Some((2int, None::<Seq<char>>)), trailing: false };
    assert(resolve(t, s2) == Ok::<CliState, ArgsError>(CliState { matched: m1, pending: None, trailing: false }));
    assert(step(t, s2, tc) == Ok::<CliState, ArgsError>(s3));
    lemma_step_value(t, s3, command, 2);
    let s4 = CliState { pending: Some((2int, Some(command))), ..s3 };
    lemma_run_two(t, s2, tc, command);
    assert(run(t, s2, seq![tc, command]) == Ok::<CliState, ArgsError>(s4));
    lemma_run_prefix(t, sv, tt, dec, seq![tc, command]);
    assert(seq![tt, dec] + seq![tc, command] =~= tail);
    assert(run(t, sv, tail) == Ok::<CliState, ArgsError>(s4));
    let m2 = m1.update(2, Some(ArgValue::Text(command)));
    assert(resolve(t, s4) == Ok::<CliState, ArgsError>(CliState { matched: m2, pending: None, trailing: false }));
    let args = (if verbose {
        seq![prog, tv]
    } else {
        seq![prog]
    }) + seq![tt, dec, tc, command];
    if verbose {
        lemma_step_short_flag(t, st0, 'v', 0);
        assert(step(t, st0, tv) == Ok::<CliState, ArgsError>(sv));
        assert(args.drop_first() =~= seq![tv] + tail);
        reveal_with_fuel(run, 2);
        assert((seq![tv] + tail).drop_first() =~= tail);
        assert(run(t, st0, seq![tv] + tail) == Ok::<CliState, ArgsError>(s4));
    } else {
        assert(args.drop_first() =~= tail);
        assert(sv == st0);
    }
    assert(command_line_values(t, args) == Ok::<Seq<Option<ArgValue>>, ArgsError>(m2));
}

/// `-v` alone asks for the command's output, whether or not `-t` is given:
/// `PROG -v -c COMMAND` runs the command once and prints its output.
pub proof fn lemma_timer_verbose_without_times(prog: Seq<char>, command: Seq<char>)
    requires
        is_plain_value(command),
    ensures
        timer_args(seq![prog, seq!['-', 'v'], seq!['-', 'c'], command]) == Ok::<
            (bool, u8, Seq<char>),
            ArgsError,
        >((true, 1u8, command)),
{
    let t = timer_options();
    reveal_with_fuel(find_short, 4);
    assert(t.drop_first().drop_first() =~= seq![t[2], t[3], t[4]]);
    assert(t.drop_first() =~= seq![t[1], t[2], t[3], t[4]]);
    assert(find_short(t, 'v') == Some(0int));
    assert(find_short(t, 'c') == Some(2int));
    let st0 = initial_state(t.len());
    let tv = seq!['-', 'v'];
    let tc = seq!['-', 'c'];
    let m0 = st0.matched.update(0, Some(ArgValue::Present));
    let sv = CliState { matched: m0, pending: None, trailing: false };
    lemma_step_short_flag(t, st0, 'v', 0);
    assert(step(t, st0, tv) == Ok::<CliState, ArgsError>(sv));
    lemma_step_short_awaiting(t, sv, 'c', 2);
    let s1 = CliState { matched: m0, pending: Some((2int, None::<Seq<char>>)), trailing: false };
    assert(step(t, sv, tc) == Ok::<CliState, ArgsError>(s1));
    lemma_step_value(t, s1, command, 2);
    let s2 = CliState { pending: Some((2int, Some(command))), ..s1 };
    lemma_run_two(t, sv, tc, command);
    reveal_with_fuel(run, 2);
    let args = seq![prog, tv, tc, command];
    assert(args.drop_first() =~= seq![tv] + seq![tc, command]);
    assert((seq![tv] + seq![tc, command]).drop_first() =~= seq![tc, command]);
    assert(run(t, st0, seq![tv] + seq![tc, command]) == Ok::<CliState, ArgsError>(s2));
    let m1 = m0.update(2, Some(ArgValue::Text(command)));
    assert(resolve(t, s2) == Ok::<CliState, ArgsError>(CliState { matched: m1, pending: None, trailing: false }));
    assert(command_line_values(t, args) == Ok::<Seq<Option<ArgValue>>, ArgsError>(m1));
}

} // verus!
