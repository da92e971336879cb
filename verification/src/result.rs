//! What a parse returns, and the questions a program asks of it.

use crate::opt::Opt;
use crate::parser::OptionParser;
use crate::text::str_eq;
use vstd::prelude::*;
use vstd::string::*;

verus! {

/// How a parse ended.
#[derive(Clone, Copy, Debug, PartialEq, Eq, Structural)]
pub enum ParseStatus {
    /// The arguments were parsed without complaint.
    Success,
    /// A flag that asks for usage information was given.
    Help,
    /// Something in the arguments was wrong.
    Error,
}

/// One use of a flag on the command line.
pub struct OptMatch {
    /// Canonical name of the flag.
    pub opt_name: String,
    /// The argument given to it; empty where it took none.
    pub val: String,
}

/// The flags that were set, in the order of the command line, the arguments
/// that belong to no flag, and the text that the parse wants shown.
pub struct ParseResult {
    pub opts: Vec<OptMatch>,
    pub status: ParseStatus,
    pub args: Vec<String>,
    /// Diagnostics and help, ready to be printed.
    pub output: String,
}

/// One use of a flag, as sequences of characters.
pub struct Match {
    pub name: Seq<char>,
    pub value: Seq<char>,
}

/// A parse result, as sequences of characters.
pub struct Outcome {
    pub matches: Seq<Match>,
    pub status: ParseStatus,
    pub args: Seq<Seq<char>>,
    pub output: Seq<char>,
}

impl View for OptMatch {
    type V = Match;

    open spec fn view(&self) -> Match {
        Match { name: self.opt_name@, value: self.val@ }
    }
}

pub open spec fn matches_of(opts: Seq<OptMatch>) -> Seq<Match> {
    opts.map_values(|m: OptMatch| m@)
}

pub open spec fn texts_of(strings: Seq<String>) -> Seq<Seq<char>> {
    strings.map_values(|s: String| s@)
}

pub open spec fn views_of(strs: Seq<&str>) -> Seq<Seq<char>> {
    strs.map_values(|s: &str| s@)
}

impl View for ParseResult {
    type V = Outcome;

    open spec fn view(&self) -> Outcome {
        Outcome {
            matches: matches_of(self.opts@),
            status: self.status,
            args: texts_of(self.args@),
            output: self.output@,
        }
    }
}

/// The values of the matches called `name`, in the order of the matches.
pub open spec fn values_named(matches: Seq<Match>, name: Seq<char>) -> Seq<Seq<char>>
    decreases matches.len(),
{
    if matches.len() == 0 {
        Seq::empty()
    } else if matches.last().name == name {
        values_named(matches.drop_last(), name).push(matches.last().value)
    } else {
        values_named(matches.drop_last(), name)
    }
}

/// The values of a flag come in the order of the matches: those among
/// earlier matches before those among later ones.
pub proof fn lemma_values_keep_order(earlier: Seq<Match>, later: Seq<Match>, name: Seq<char>)
    ensures
        values_named(earlier + later, name) == values_named(earlier, name) + values_named(
            later,
            name,
        ),
    decreases later.len(),
{
    if later.len() == 0 {
        assert(earlier + later =~= earlier);
        assert(values_named(earlier, name) + values_named(later, name) =~= values_named(
            earlier,
            name,
        ));
    } else {
        lemma_values_keep_order(earlier, later.drop_last(), name);
        assert((earlier + later).drop_last() =~= earlier + later.drop_last());
        assert(values_named(earlier + later, name) =~= values_named(earlier, name)
            + values_named(later, name));
    }
}

impl<'a> OptionParser<'a> {
    /// All values that were given to `match_opt`, in the order of the
    /// command line; one empty value for each use without an argument.
    pub fn values<'r>(&self, flags: &'r ParseResult, match_opt: &Opt) -> (found: Vec<&'r str>)
        ensures
            views_of(found@) == values_named(flags@.matches, match_opt@.canonical_name()),
    {
        let name = match_opt.long_parsed();
        let mut found: Vec<&'r str> = Vec::new();
        let ghost all = flags@.matches;
        let mut i: usize = 0;
        assert(views_of(found@) =~= values_named(all.take(0), name@));
        while i < flags.opts.len()
            invariant
                i <= flags.opts@.len(),
                all == matches_of(flags.opts@),
                views_of(found@) == values_named(all.take(i as int), name@),
            decreases flags.opts@.len() - i,
        {
            let opt_match: &'r OptMatch = &flags.opts[i];
            proof {
                assert(all.take(i + 1).drop_last() =~= all.take(i as int));
                assert(all.take(i + 1).last() == opt_match@);
            }
            if str_eq(opt_match.opt_name.as_str(), name) {
                found.push(opt_match.val.as_str());
                assert(views_of(found@) =~= values_named(all.take(i + 1), name@));
            }
            i += 1;
        }
        assert(all.take(i as int) =~= all);
        found
    }

    /// The first value that was given to `match_opt`, if it was set.
    pub fn value<'r>(&self, flags: &'r ParseResult, match_opt: &Opt) -> (first: Option<&'r str>)
        ensures
            first.is_some() <==> values_named(flags@.matches, match_opt@.canonical_name()).len()
                > 0,
            first.is_some() ==> first.unwrap()@ == values_named(
                flags@.matches,
                match_opt@.canonical_name(),
            )[0],
    {
        let found = self.values(flags, match_opt);
        if found.len() > 0 {
            assert(views_of(found@)[0] == found@[0]@);
            Some(found[0])
        } else {
            None
        }
    }

    /// Whether `opt` was given on the command line.
    pub fn is_set(&self, flags: &ParseResult, opt: &Opt) -> (set: bool)
        ensures
            set <==> values_named(flags@.matches, opt@.canonical_name()).len() > 0,
    {
        match self.value(flags, opt) {
            Some(_) => true,
            None => false,
        }
    }

    /// Calls `action` with the first value of `opt`, if `opt` was set.
    pub fn with_value<F: FnOnce(&str)>(&self, flags: &ParseResult, opt: &Opt, action: F)
        requires
            forall|v: &str|
                values_named(flags@.matches, opt@.canonical_name()).len() > 0 && v@
                    == values_named(flags@.matches, opt@.canonical_name())[0]
                    ==> #[trigger] action.requires((v,)),
        ensures
            values_named(flags@.matches, opt@.canonical_name()).len() > 0 ==> exists|v: &str|
                v@ == values_named(flags@.matches, opt@.canonical_name())[0]
                    && #[trigger] action.ensures((v,), ()),
    {
        match self.value(flags, opt) {
            Some(value) => action(value),
            None => {},
        }
    }
}

} // verus!
