//! Command line of the user report: `-h`/`--hosts` (show each session's
//! host) and `-g`/`--groups` (show the user's groups), besides
//! `-V`/`--version`. There is no help option.

use crate::cli::{
    command_line_values, find_short, initial_state, lemma_step_short_flag, push_long_option, run,
    step, ArgValue, CliState, push_version_option, read_command_line, table_view,
    values_view, version_decl, words_view, ArgsError, OptDecl, OptKind, OptSpec,
};
use vstd::prelude::*;

verus! {

/// Which fields the report adds to each line.
#[derive(Debug)]
pub struct ReportFlags {
    pub hosts: bool,
    pub groups: bool,
}

/// The options of the report.
pub open spec fn report_options() -> Seq<OptDecl> {
    seq![
        OptDecl { short: 'h', long: Some(seq!['h', 'o', 's', 't', 's']), kind: OptKind::Flag },
        OptDecl { short: 'g', long: Some(seq!['g', 'r', 'o', 'u', 'p', 's']), kind: OptKind::Flag },
        version_decl(),
    ]
}

fn options() -> (t: Vec<OptSpec>)
    ensures
        table_view(t@) == report_options(),
{
    let mut t: Vec<OptSpec> = Vec::new();
    proof {
        reveal_strlit("hosts");
        reveal_strlit("groups");
        assert("hosts"@ =~= seq!['h', 'o', 's', 't', 's']);
        assert("groups"@ =~= seq!['g', 'r', 'o', 'u', 'p', 's']);
    }
    push_long_option(&mut t, 'h', "hosts", OptKind::Flag);
    push_long_option(&mut t, 'g', "groups", OptKind::Flag);
    push_version_option(&mut t);
    assert(table_view(t@) =~= report_options());
    t
}

/// The report's flags (hosts, groups) that a command line gives, or why it
/// is refused.
pub open spec fn report_flags(args: Seq<Seq<char>>) -> Result<(bool, bool), ArgsError> {
    match command_line_values(report_options(), args) {
        Err(e) => Err(e),
        Ok(m) => Ok((m[0] is Some, m[1] is Some)),
    }
}

/// Reads the report's flags from the command line `args` (the program's
/// name first).
pub fn get_flags(args: &Vec<String>) -> (r: Result<ReportFlags, ArgsError>)
    ensures
        match report_flags(words_view(args@)) {
            Ok((h, g)) => r matches Ok(f) && f.hosts == h && f.groups == g,
            Err(e) => r matches Err(x) && x == e,
        },
{
    let table = options();
    let vals = match read_command_line(&table, args) {
        Ok(v) => v,
        Err(e) => return Err(e),
    };
    let ghost m = values_view(vals@);
    assert(m[0] is Some == vals@[0] is Some);
    assert(m[1] is Some == vals@[1] is Some);
    let hosts = vals[0].is_some();
    let groups = vals[1].is_some();
    Ok(ReportFlags { hosts, groups })
}

} // verus!

verus! {

/// The report reads `-h` and `-g` back: the command line
/// `PROG [-h] [-g]` turns on exactly the fields it names.
pub proof fn lemma_report_reads_flags(prog: Seq<char>, hosts: bool, groups: bool)
    ensures
        report_flags(
            seq![prog] + (if hosts {
                seq![seq!['-', 'h']]
            } else {
                seq![]
            }) + (if groups {
                seq![seq!['-', 'g']]
            } else {
                seq![]
            }),
        ) == Ok::<(bool, bool), ArgsError>((hosts, groups)),
{
    let t = report_options();
    reveal_with_fuel(find_short, 3);
    assert(t.drop_first() =~= seq![t[1], t[2]]);
    assert(find_short(t, 'h') == Some(0int));
    assert(find_short(t, 'g') == Some(1int));
    let st0 = initial_state(t.len());
    let th = seq!['-', 'h'];
    let tg = seq!['-', 'g'];
    let mh = if hosts {
        st0.matched.update(0, Some(ArgValue::Present))
    } else {
        st0.matched
    };
    let sh = CliState { matched: mh, pending: None, trailing: false };
    let mg = if groups {
        mh.update(1, Some(ArgValue::Present))
    } else {
        mh
    };
    let sg = CliState { matched: mg, pending: None, trailing: false };
    let hs: Seq<Seq<char>> = if hosts {
        seq![th]
    } else {
        seq![]
    };
    let gs: Seq<Seq<char>> = if groups {
        seq![tg]
    } else {
        seq![]
    };
    let args = seq![prog] + hs + gs;
    assert(args.drop_first() =~= hs + gs);
    reveal_with_fuel(run, 3);
    if hosts {
        lemma_step_short_flag(t, st0, 'h', 0);
        assert(step(t, st0, th) == Ok::<CliState, ArgsError>(sh));
    }
    if groups {
        lemma_step_short_flag(t, sh, 'g', 1);
        assert(step(t, sh, tg) == Ok::<CliState, ArgsError>(sg));
        assert(run(t, sh, gs) == Ok::<CliState, ArgsError>(sg)) by {
            assert(gs.drop_first() =~= Seq::<Seq<char>>::empty());
        }
    } else {
        assert(run(t, sh, gs) == Ok::<CliState, ArgsError>(sg));
    }
    if hosts {
        assert((hs + gs)[0] == th);
        assert((hs + gs).drop_first() =~= gs);
    } else {
        assert(hs + gs =~= gs);
        assert(sh == st0);
    }
    assert(run(t, st0, hs + gs) == Ok::<CliState, ArgsError>(sg));
    assert(command_line_values(t, args) == Ok::<Seq<Option<ArgValue>>, ArgsError>(mg));
}

} // verus!
