//! What holds of every scan.

use crate::opt::{help_flag, lemma_first_space, Flag};
use crate::parser::Declared;
use crate::result::ParseStatus;
use crate::scan::{find_from, flag_tokens, is_long_form, Scan};
use vstd::prelude::*;
use vstd::string::*;

verus! {

/// A property of scans that holds at the start of a scan from argument `i`
/// on, and that no step of a scan that is still running breaks, holds at its
/// end.
pub proof fn lemma_scan_invariant(
    decl: Declared,
    args: Seq<Seq<char>>,
    i: int,
    st: Scan,
    inv: spec_fn(Scan) -> bool,
)
    requires
        1 <= i,
        inv(st),
        forall|j: int, k: int, s: Scan|
            1 <= j < args.len() && 0 <= k < flag_tokens(args[j]).len() && inv(s) && !s.help
                ==> inv(#[trigger] decl.apply(args, j, flag_tokens(args[j])[k], s)),
        forall|s: Scan| inv(s) ==> inv(#[trigger] s.past_value()),
        forall|j: int, s: Scan|
            1 <= j < args.len() && inv(s) ==> inv(#[trigger] s.with_positional(args[j])),
    ensures
        inv(decl.scan_from(args, i, st)),
    decreases args.len() - i,
{
    if i < args.len() && !st.help {
        if !st.skip && flag_tokens(args[i]).len() > 0 {
            lemma_apply_all_invariant(decl, args, i, 0, st, inv);
        }
        lemma_scan_invariant(decl, args, i + 1, decl.step(args, i, st), inv);
    }
}

proof fn lemma_apply_all_invariant(
    decl: Declared,
    args: Seq<Seq<char>>,
    i: int,
    k: int,
    st: Scan,
    inv: spec_fn(Scan) -> bool,
)
    requires
        1 <= i < args.len(),
        0 <= k,
        inv(st),
        forall|j: int, k: int, s: Scan|
            1 <= j < args.len() && 0 <= k < flag_tokens(args[j]).len() && inv(s) && !s.help
                ==> inv(#[trigger] decl.apply(args, j, flag_tokens(args[j])[k], s)),
    ensures
        inv(decl.apply_all(args, i, flag_tokens(args[i]), k, st)),
    decreases flag_tokens(args[i]).len() - k,
{
    let tokens = flag_tokens(args[i]);
    if k < tokens.len() && !st.help {
        lemma_apply_all_invariant(decl, args, i, k + 1, decl.apply(args, i, tokens[k], st), inv);
    }
}

impl Declared {
    /// Whether the scan takes a flag token of argument `i` without
    /// complaint: it names a flag other than `--help`, and where that flag
    /// requires an argument, the argument is there to take.
    pub open spec fn accepts(self, args: Seq<Seq<char>>, i: int, token: Seq<char>) -> bool {
        match find_from(self.known(), token, 0) {
            Some(k) => self.known()[k].canonical_name() != help_flag().long && (
            self.known()[k].argument_required() ==> self.takes_next(args, i, self.known()[k])),
            None => false,
        }
    }

    /// Whether argument `j` holds one flag that takes the argument behind it
    /// as its value.
    pub open spec fn may_take_next(self, args: Seq<Seq<char>>, j: int) -> bool {
        flag_tokens(args[j]).len() == 1 && match find_from(
            self.known(),
            flag_tokens(args[j])[0],
            0,
        ) {
            Some(k) => self.takes_next(args, j, self.known()[k]),
            None => false,
        }
    }
}

/// The status says what the scan met: help where it was asked for, else an
/// error where a token named no flag or a required argument was missing, and
/// success where there was nothing of that.
pub proof fn lemma_status_of_scan(decl: Declared, args: Seq<Seq<char>>)
    ensures
        decl.scan(args).outcome().status == ParseStatus::Help <==> decl.scan(args).help,
        decl.scan(args).outcome().status == ParseStatus::Error <==> !decl.scan(args).help && (
        decl.scan(args).unknown || decl.scan(args).missing),
        decl.scan(args).outcome().status == ParseStatus::Success <==> !decl.scan(args).help
            && !decl.scan(args).unknown && !decl.scan(args).missing,
{
}

/// An argument list in which every flag token names a declared flag, none
/// asks for help, and every required argument is there, parses with
/// success.
pub proof fn lemma_accepted_arguments_succeed(decl: Declared, args: Seq<Seq<char>>)
    requires
        forall|j: int, k: int|
            1 <= j < args.len() && 0 <= k < flag_tokens(args[j]).len() ==> decl.accepts(
                args,
                j,
                #[trigger] flag_tokens(args[j])[k],
            ),
    ensures
        decl.scan(args).outcome().status == ParseStatus::Success,
{
    let inv = |s: Scan| !s.help && !s.unknown && !s.missing;
    assert forall|j: int, k: int, s: Scan|
        1 <= j < args.len() && 0 <= k < flag_tokens(args[j]).len() && inv(s)
            && !s.help implies inv(#[trigger] decl.apply(args, j, flag_tokens(args[j])[k], s)) by {
        assert(decl.accepts(args, j, flag_tokens(args[j])[k]));
    }
    lemma_scan_invariant(decl, args, 1, Scan::start(), inv);
}

/// A parse that ends in an error or in help has put out text: the complaint
/// about the first error, or the help.
pub proof fn lemma_trouble_is_reported(decl: Declared, args: Seq<Seq<char>>)
    ensures
        decl.scan(args).outcome().status != ParseStatus::Success ==> decl.scan(
            args,
        ).output.len() > 0,
{
    let inv = |s: Scan| (s.help || s.unknown || s.missing) ==> s.output.len() > 0;
    assert forall|j: int, k: int, s: Scan|
        1 <= j < args.len() && 0 <= k < flag_tokens(args[j]).len() && inv(s)
            && !s.help implies inv(#[trigger] decl.apply(args, j, flag_tokens(args[j])[k], s)) by {
        reveal_strlit("Unknown option ");
        reveal_strlit("Missing required argument for option ");
        reveal_strlit("Usage: ");
    }
    lemma_scan_invariant(decl, args, 1, Scan::start(), inv);
}

/// A parse that ends in help has put the help text out last.
pub proof fn lemma_help_is_shown(decl: Declared, args: Seq<Seq<char>>)
    ensures
        decl.scan(args).help ==> exists|before: Seq<char>|
            decl.scan(args).output == #[trigger] (before + decl.help_text(args[0])),
{
    let help = decl.help_text(args[0]);
    let inv = |s: Scan| s.help ==> exists|before: Seq<char>| s.output == #[trigger] (before + help);
    assert forall|j: int, k: int, s: Scan|
        1 <= j < args.len() && 0 <= k < flag_tokens(args[j]).len() && inv(s)
            && !s.help implies inv(#[trigger] decl.apply(args, j, flag_tokens(args[j])[k], s)) by {
        let next = decl.apply(args, j, flag_tokens(args[j])[k], s);
        if next.help {
            assert(next.output == s.output + help);
        }
    }
    lemma_scan_invariant(decl, args, 1, Scan::start(), inv);
}

/// Whether one of the flags is called `name`.
pub open spec fn is_flag_name(flags: Seq<Flag>, name: Seq<char>) -> bool {
    exists|k: int| 0 <= k < flags.len() && (#[trigger] flags[k]).canonical_name() == name
}

/// Every match is called by the canonical name of a flag: of a declared
/// one, or of the built-in help flag.
pub proof fn lemma_matches_name_flags(decl: Declared, args: Seq<Seq<char>>)
    ensures
        forall|m: int|
            0 <= m < decl.scan(args).matches.len() ==> is_flag_name(
                decl.known(),
                (#[trigger] decl.scan(args).matches[m]).name,
            ),
{
    let known = decl.known();
    let inv = |s: Scan|
        forall|m: int|
            0 <= m < s.matches.len() ==> is_flag_name(known, (#[trigger] s.matches[m]).name);
    assert forall|j: int, k: int, s: Scan|
        1 <= j < args.len() && 0 <= k < flag_tokens(args[j]).len() && inv(s)
            && !s.help implies inv(#[trigger] decl.apply(args, j, flag_tokens(args[j])[k], s)) by {
        let token = flag_tokens(args[j])[k];
        let next = decl.apply(args, j, token, s);
        lemma_found_is_known(known, token, 0);
        assert forall|m: int| 0 <= m < next.matches.len() implies is_flag_name(
            known,
            (#[trigger] next.matches[m]).name,
        ) by {
            if m < s.matches.len() {
                assert(next.matches[m] == s.matches[m]);
            } else {
                let found = find_from(known, token, 0).unwrap();
                assert(known[found].canonical_name() == next.matches[m].name);
            }
        }
    }
    lemma_scan_invariant(decl, args, 1, Scan::start(), inv);
}

/// What `find_from` finds is the first flag from `i` on that the token
/// names.
pub proof fn lemma_found_is_known(flags: Seq<Flag>, token: Seq<char>, i: int)
    requires
        0 <= i,
    ensures
        match find_from(flags, token, i) {
            Some(k) => i <= k < flags.len() && flags[k].matches(token) && forall|j: int|
                i <= j < k ==> !(#[trigger] flags[j]).matches(token),
            None => forall|j: int| i <= j < flags.len() ==> !(#[trigger] flags[j]).matches(token),
        },
    decreases flags.len() - i,
{
    if i < flags.len() && !flags[i].matches(token) {
        lemma_found_is_known(flags, token, i + 1);
    }
}

/// A step adds the argument it looks at to the positional arguments where
/// that argument is no value of the flag before it and stands for no flag,
/// and leaves them alone otherwise: the positional arguments are those
/// arguments, in the order of the command line.
pub proof fn lemma_step_positional(decl: Declared, args: Seq<Seq<char>>, i: int, st: Scan)
    requires
        1 <= i < args.len(),
    ensures
        decl.step(args, i, st).args == if !st.skip && flag_tokens(args[i]).len() == 0 {
            st.args.push(args[i])
        } else {
            st.args
        },
{
    if !st.skip && flag_tokens(args[i]).len() > 0 {
        lemma_apply_all_keeps(decl, args, i, 0, st);
    }
}

proof fn lemma_apply_all_keeps(decl: Declared, args: Seq<Seq<char>>, i: int, k: int, st: Scan)
    requires
        1 <= i < args.len(),
        0 <= k,
    ensures
        decl.apply_all(args, i, flag_tokens(args[i]), k, st).args == st.args,
        st.matches.is_prefix_of(decl.apply_all(args, i, flag_tokens(args[i]), k, st).matches),
    decreases flag_tokens(args[i]).len() - k,
{
    let tokens = flag_tokens(args[i]);
    if k < tokens.len() && !st.help {
        lemma_apply_all_keeps(decl, args, i, k + 1, decl.apply(args, i, tokens[k], st));
    }
}

/// A scan only adds behind what it has: the matches and the positional
/// arguments found up to some argument stay first, in their order, whatever
/// follows.
pub proof fn lemma_scan_keeps_order(decl: Declared, args: Seq<Seq<char>>, i: int, st: Scan)
    requires
        1 <= i,
    ensures
        st.matches.is_prefix_of(decl.scan_from(args, i, st).matches),
        st.args.is_prefix_of(decl.scan_from(args, i, st).args),
    decreases args.len() - i,
{
    if i < args.len() && !st.help {
        let next = decl.step(args, i, st);
        lemma_step_positional(decl, args, i, st);
        if !st.skip && flag_tokens(args[i]).len() > 0 {
            lemma_apply_all_keeps(decl, args, i, 0, st);
        }
        lemma_scan_keeps_order(decl, args, i + 1, next);
    }
}

/// The built-in help flag is called `--help` and answers to `h` and to
/// `--help`.
proof fn lemma_help_flag()
    ensures
        help_flag().canonical_name() == help_flag().long,
        help_flag().matches(seq!['h']),
        help_flag().matches(help_flag().long),
        flag_tokens("-h"@) == seq![seq!['h']],
        flag_tokens("--help"@) == seq!["--help"@],
{
    reveal_strlit("-h");
    reveal_strlit("--help");
    lemma_first_space("--help"@, 6);
    assert("--help"@.take(6) =~= "--help"@);
    assert("-h"@.skip(1) =~= seq!['h']);
    assert(flag_tokens("-h"@) =~= seq![seq!['h']]);
}

proof fn lemma_apply_all_takes_nothing(
    decl: Declared,
    args: Seq<Seq<char>>,
    j: int,
    k: int,
    st: Scan,
)
    requires
        1 <= j < args.len(),
        0 <= k,
        !st.skip,
        !decl.may_take_next(args, j),
    ensures
        !decl.apply_all(args, j, flag_tokens(args[j]), k, st).skip,
    decreases flag_tokens(args[j]).len() - k,
{
    let tokens = flag_tokens(args[j]);
    if k < tokens.len() && !st.help {
        let next = decl.apply(args, j, tokens[k], st);
        if next.skip {
            assert(is_long_form(args[j]) || args[j].len() == 2);
            assert(tokens.len() == 1);
        }
        lemma_apply_all_takes_nothing(decl, args, j, k + 1, next);
    }
}

proof fn lemma_scan_reaches_help(decl: Declared, args: Seq<Seq<char>>, i: int, j: int, st: Scan)
    requires
        1 <= j <= i < args.len(),
        args[i] == "-h"@ || args[i] == "--help"@,
        i == 1 || !decl.may_take_next(args, i - 1),
        j == i ==> st.help || !st.skip,
    ensures
        decl.scan_from(args, j, st).help,
    decreases i - j,
{
    if !st.help {
        let next = decl.step(args, j, st);
        if j < i {
            if j + 1 == i && !st.skip && flag_tokens(args[j]).len() > 0 {
                lemma_apply_all_takes_nothing(decl, args, j, 0, st);
            }
            lemma_scan_reaches_help(decl, args, i, j + 1, next);
        } else {
            lemma_help_flag();
            let tokens = flag_tokens(args[i]);
            let token = tokens[0];
            assert(decl.known()[0] == help_flag());
            assert(find_from(decl.known(), token, 0) == Some(0int));
            let after = decl.apply(args, i, token, st);
            assert(after.help);
            assert(decl.apply_all(args, i, tokens, 1, after) == after);
            assert(next == after);
            assert(decl.scan_from(args, i + 1, next) == next);
        }
    }
}

/// An argument `-h` or `--help` ends the parse with help, whatever the
/// program declares and whatever stands before it and behind it, as long as
/// it is not the value of the flag before it.
pub proof fn lemma_help_is_honoured(decl: Declared, args: Seq<Seq<char>>, i: int)
    requires
        1 <= i < args.len(),
        args[i] == "-h"@ || args[i] == "--help"@,
        i == 1 || !decl.may_take_next(args, i - 1),
    ensures
        decl.scan(args).outcome().status == ParseStatus::Help,
{
    lemma_scan_reaches_help(decl, args, i, 1, Scan::start());
}

} // verus!
