//! The scan of an argument list: which tokens are flags, which flag takes
//! the token behind it as its value, which tokens are left over, and what is
//! said about the tokens that fit no flag.

use crate::opt::{help_flag, Flag, Opt};
use crate::parser::{flags_of, names_of, Declared, OptionParser};
use crate::result::{
    matches_of, texts_of, views_of, Match, OptMatch, Outcome, ParseResult, ParseStatus,
};
use crate::suggest::{closest, lemma_closest_is_first_minimum};
use crate::text::str_eq;
use vstd::prelude::*;
use vstd::string::*;

verus! {

/// The argument is written in long form: it starts with two dashes.
pub open spec fn is_long_form(arg: Seq<char>) -> bool {
    arg.len() >= 2 && arg[0] == '-' && arg[1] == '-'
}

/// The argument starts with a dash.
pub open spec fn is_dashed(arg: Seq<char>) -> bool {
    arg.len() >= 1 && arg[0] == '-'
}

/// The flag tokens that one argument stands for: itself where it is written
/// in long form; each letter behind the dash where it starts with a single
/// dash; none otherwise. A lone dash stands for no flag, and so counts as a
/// positional argument.
pub open spec fn flag_tokens(arg: Seq<char>) -> Seq<Seq<char>> {
    if is_long_form(arg) {
        seq![arg]
    } else if is_dashed(arg) {
        Seq::new((arg.len() - 1) as nat, |k: int| seq![arg[k + 1]])
    } else {
        Seq::empty()
    }
}

/// Index of the first flag from position `i` on that `token` names.
pub open spec fn find_from(flags: Seq<Flag>, token: Seq<char>, i: int) -> Option<int>
    decreases flags.len() - i,
{
    if i >= flags.len() {
        None
    } else if flags[i].matches(token) {
        Some(i)
    } else {
        find_from(flags, token, i + 1)
    }
}

/// What is said about a token that names no flag: the declared flag that is
/// spelled most like the whole argument, with its help line, if any flag is
/// declared.
pub open spec fn unknown_message(flags: Seq<Flag>, arg: Seq<char>, token: Seq<char>) -> Seq<
    char,
> {
    if flags.len() == 0 {
        "Unknown option "@ + token + "\n"@
    } else {
        let near = flags[closest(names_of(flags), arg)];
        "Unknown option "@ + token + ", did you mean '"@ + near.canonical_name() + "'?\n\n"@
            + near.help_line() + "\n\n"@
    }
}

/// What is said about a flag that came without the argument it requires.
pub open spec fn missing_message(flag: Flag, token: Seq<char>) -> Seq<char> {
    "Missing required argument for option "@ + token + ".\n\n"@ + flag.help_line() + "\n\n"@
}

/// How far a scan has come.
pub struct Scan {
    /// The uses of flags found so far.
    pub matches: Seq<Match>,
    /// The positional arguments found so far.
    pub args: Seq<Seq<char>>,
    /// The text to show.
    pub output: Seq<char>,
    /// A token named no flag.
    pub unknown: bool,
    /// A flag came without the argument it requires.
    pub missing: bool,
    /// Help was asked for; the scan has stopped.
    pub help: bool,
    /// The next argument is the value of a flag.
    pub skip: bool,
}

impl Scan {
    /// The state before the first argument.
    pub open spec fn start() -> Scan {
        Scan {
            matches: Seq::empty(),
            args: Seq::empty(),
            output: Seq::empty(),
            unknown: false,
            missing: false,
            help: false,
            skip: false,
        }
    }

    /// Help wins over errors; without either the parse succeeded.
    pub open spec fn status(self) -> ParseStatus {
        if self.help {
            ParseStatus::Help
        } else if self.unknown || self.missing {
            ParseStatus::Error
        } else {
            ParseStatus::Success
        }
    }

    /// The scan after an argument that was the value of a flag.
    pub open spec fn past_value(self) -> Scan {
        Scan { skip: false, ..self }
    }

    /// The scan after a positional argument.
    pub open spec fn with_positional(self, arg: Seq<char>) -> Scan {
        Scan { args: self.args.push(arg), ..self }
    }

    pub open spec fn outcome(self) -> Outcome {
        Outcome {
            matches: self.matches,
            status: self.status(),
            args: self.args,
            output: self.output,
        }
    }
}

impl Declared {
    /// The built-in help flag and, behind it, the declared flags: `-h` and
    /// `--help` ask for help whatever the program declares.
    pub open spec fn known(self) -> Seq<Flag> {
        seq![help_flag()] + self.flags
    }

    /// The flag takes the argument behind argument `i` as its value: it
    /// takes an argument, one follows, and argument `i` is this flag alone,
    /// in long form or as a dash and one letter.
    pub open spec fn takes_next(self, args: Seq<Seq<char>>, i: int, flag: Flag) -> bool {
        flag.takes_argument() && i + 1 < args.len() && (is_long_form(args[i]) || args[i].len()
            == 2)
    }

    /// The scan after one flag token of argument `i`.
    ///
    /// A token that names no flag is an error; only the first error of a scan
    /// is reported. A flag called `--help` puts the help text out and ends the
    /// scan. A flag with a value is matched with it, one that may go without
    /// is matched with the empty value, and one that requires the value it
    /// did not get is an error.
    pub open spec fn apply(self, args: Seq<Seq<char>>, i: int, token: Seq<char>, st: Scan) -> Scan {
        let quiet = st.unknown || st.missing;
        match find_from(self.known(), token, 0) {
            None => Scan {
                unknown: true,
                output: if quiet {
                    st.output
                } else {
                    st.output + unknown_message(self.flags, args[i], token)
                },
                ..st
            },
            Some(k) => {
                let flag = self.known()[k];
                if flag.canonical_name() == help_flag().long {
                    Scan {
                        help: true,
                        matches: st.matches.push(
                            Match { name: flag.canonical_name(), value: Seq::empty() },
                        ),
                        output: st.output + self.help_text(args[0]),
                        ..st
                    }
                } else if self.takes_next(args, i, flag) {
                    Scan {
                        skip: true,
                        matches: st.matches.push(
                            Match { name: flag.canonical_name(), value: args[i + 1] },
                        ),
                        ..st
                    }
                } else if flag.argument_required() {
                    Scan {
                        missing: true,
                        output: if quiet {
                            st.output
                        } else {
                            st.output + missing_message(flag, token)
                        },
                        ..st
                    }
                } else {
                    Scan {
                        matches: st.matches.push(
                            Match { name: flag.canonical_name(), value: Seq::empty() },
                        ),
                        ..st
                    }
                }
            },
        }
    }

    /// The scan after the flag tokens of argument `i` from the `k`-th on.
    pub open spec fn apply_all(
        self,
        args: Seq<Seq<char>>,
        i: int,
        tokens: Seq<Seq<char>>,
        k: int,
        st: Scan,
    ) -> Scan
        decreases tokens.len() - k,
    {
        if k >= tokens.len() || k < 0 || st.help {
            st
        } else {
            self.apply_all(args, i, tokens, k + 1, self.apply(args, i, tokens[k], st))
        }
    }

    /// The scan after argument `i`: skipped where it is the value of the flag
    /// before it, positional where it stands for no flag.
    pub open spec fn step(self, args: Seq<Seq<char>>, i: int, st: Scan) -> Scan {
        if st.skip {
            st.past_value()
        } else if flag_tokens(args[i]).len() == 0 {
            st.with_positional(args[i])
        } else {
            self.apply_all(args, i, flag_tokens(args[i]), 0, st)
        }
    }

    /// The scan after the arguments from the `i`-th on, or up to the one
    /// that asks for help.
    pub open spec fn scan_from(self, args: Seq<Seq<char>>, i: int, st: Scan) -> Scan
        decreases args.len() - i,
    {
        if i >= args.len() || i < 0 || st.help {
            st
        } else {
            self.scan_from(args, i + 1, self.step(args, i, st))
        }
    }

    /// The scan of a whole argument list. Its first entry is the program's
    /// name and stands for nothing.
    pub open spec fn scan(self, args: Seq<Seq<char>>) -> Scan {
        self.scan_from(args, 1, Scan::start())
    }
}

/// A scan in progress.
pub struct Progress {
    pub opts: Vec<OptMatch>,
    pub args: Vec<String>,
    pub output: String,
    pub unknown: bool,
    pub missing: bool,
    pub help: bool,
    pub skip: bool,
}

impl View for Progress {
    type V = Scan;

    open spec fn view(&self) -> Scan {
        Scan {
            matches: matches_of(self.opts@),
            args: texts_of(self.args@),
            output: self.output@,
            unknown: self.unknown,
            missing: self.missing,
            help: self.help,
            skip: self.skip,
        }
    }
}

/// Whether `arg` starts with two dashes.
pub fn starts_long(arg: &str) -> (r: bool)
    ensures
        r == is_long_form(arg@),
{
    arg.unicode_len() >= 2 && arg.get_char(0) == '-' && arg.get_char(1) == '-'
}

impl<'a> OptionParser<'a> {
    /// The flag tokens in one command-line argument.
    pub fn opts_in_arg<'r>(arg: &'r str) -> (tokens: Vec<&'r str>)
        ensures
            views_of(tokens@) == flag_tokens(arg@),
    {
        let mut tokens: Vec<&'r str> = Vec::new();
        let n: usize = arg.unicode_len();
        if starts_long(arg) {
            tokens.push(arg);
            assert(views_of(tokens@) =~= flag_tokens(arg@));
        } else if n >= 1 && arg.get_char(0) == '-' {
            let mut i: usize = 1;
            while i < n
                invariant
                    1 <= i <= n,
                    n == arg@.len(),
                    tokens@.len() == i - 1,
                    forall|k: int| 0 <= k < i - 1 ==> (#[trigger] tokens@[k])@ == seq![arg@[k + 1]],
                decreases n - i,
            {
                let letter = arg.substring_char(i, i + 1);
                assert(letter@ =~= seq![arg@[i as int]]);
                tokens.push(letter);
                i += 1;
            }
            assert(views_of(tokens@) =~= flag_tokens(arg@));
        } else {
            assert(views_of(tokens@) =~= flag_tokens(arg@));
        }
        tokens
    }

    /// Position of the first flag that `token` names, among the built-in
    /// help flag and the declared flags behind it.
    pub fn find_opt(&self, token: &str) -> (found: Option<usize>)
        ensures
            match found {
                Some(k) => find_from(self@.known(), token@, 0) == Some(k as int) && k
                    <= self.opts@.len(),
                None => find_from(self@.known(), token@, 0).is_none(),
            },
    {
        let ghost known = self@.known();
        assert(known[0] == help_flag());
        if Opt::help_opt().match_arg(token) {
            return Some(0);
        }
        let n: usize = self.opts.len();
        let mut i: usize = 0;
        while i < n
            invariant
                i <= n,
                n == self.opts@.len(),
                known == self@.known(),
                find_from(known, token@, i + 1) == find_from(known, token@, 0),
            decreases n - i,
        {
            assert(known[i + 1] == self.opts@[i as int]@);
            if self.opts[i].match_arg(token) {
                assert(find_from(known, token@, i + 1) == Some(i + 1));
                return Some(i + 1);
            }
            i += 1;
        }
        assert(find_from(known, token@, n + 1).is_none());
        None
    }

    /// Handles one flag token of argument `i`.
    pub fn apply_flag(&self, args: &Vec<String>, i: usize, token: &str, progress: &mut Progress)
        requires
            1 <= i < args@.len(),
        ensures
            final(progress)@ == self@.apply(texts_of(args@), i as int, token@, old(progress)@),
    {
        let ghost texts = texts_of(args@);
        let ghost st = progress@;
        let quiet: bool = progress.unknown || progress.missing;
        let n: usize = args.len();
        let arg: &str = args[i].as_str();
        assert(texts[i as int] == arg@);
        assert(texts[0] == args@[0]@);
        let help_opt = Opt::help_opt();
        match self.find_opt(token) {
            None => {
                if !quiet {
                    progress.output.append("Unknown option ");
                    progress.output.append(token);
                    match self.suggest_opt(arg) {
                        Some(near) => {
                            proof {
                                lemma_closest_is_first_minimum(names_of(self@.flags), arg@);
                            }
                            progress.output.append(", did you mean '");
                            progress.output.append(near.long_parsed());
                            progress.output.append("'?\n\n");
                            let line = Self::arg_help_str(near);
                            progress.output.append(line.as_str());
                            progress.output.append("\n\n");
                        },
                        None => {
                            progress.output.append("\n");
                        },
                    }
                    assert(progress.output@ =~= st.output + unknown_message(
                        self@.flags,
                        arg@,
                        token@,
                    ));
                }
                progress.unknown = true;
            },
            Some(k) => {
                let opt: &Opt = if k == 0 {
                    &help_opt
                } else {
                    self.opts[k - 1]
                };
                assert(opt@ == self@.known()[k as int]);
                let name: &str = opt.long_parsed();
                if str_eq(name, "--help") {
                    let help = self.format_help_str(args[0].as_str());
                    progress.output.append(help.as_str());
                    progress.opts.push(
                        OptMatch { opt_name: String::from_str(name), val: String::new() },
                    );
                    progress.help = true;
                    assert(matches_of(progress.opts@) =~= st.matches.push(
                        Match { name: name@, value: Seq::empty() },
                    ));
                } else if opt.has_arg() && i + 1 < n && (starts_long(arg)
                    || arg.unicode_len() == 2) {
                    let val: String = args[i + 1].clone();
                    assert(texts[i + 1] == val@);
                    progress.opts.push(OptMatch { opt_name: String::from_str(name), val });
                    progress.skip = true;
                    assert(matches_of(progress.opts@) =~= st.matches.push(
                        Match { name: name@, value: texts[i + 1] },
                    ));
                } else if opt.has_required_arg() {
                    if !quiet {
                        progress.output.append("Missing required argument for option ");
                        progress.output.append(token);
                        progress.output.append(".\n\n");
                        let line = Self::arg_help_str(opt);
                        progress.output.append(line.as_str());
                        progress.output.append("\n\n");
                        assert(progress.output@ =~= st.output + missing_message(opt@, token@));
                    }
                    progress.missing = true;
                } else {
                    progress.opts.push(
                        OptMatch { opt_name: String::from_str(name), val: String::new() },
                    );
                    assert(matches_of(progress.opts@) =~= st.matches.push(
                        Match { name: name@, value: Seq::empty() },
                    ));
                }
            },
        }
    }

    /// Parses a list of command-line arguments, the program's name first.
    ///
    /// The result holds the flags that were set, which `is_set`, `value`,
    /// `values` and `with_value` look up, the arguments that belong to no
    /// flag, and in `output` the help text or the complaint about the first
    /// argument that was wrong.
    pub fn parse(&self, args: Vec<String>) -> (result: ParseResult)
        ensures
            result@ == self@.scan(texts_of(args@)).outcome(),
    {
        let ghost texts = texts_of(args@);
        let mut progress = Progress {
            opts: Vec::new(),
            args: Vec::new(),
            output: String::new(),
            unknown: false,
            missing: false,
            help: false,
            skip: false,
        };
        assert(matches_of(progress.opts@) =~= Seq::<Match>::empty());
        assert(texts_of(progress.args@) =~= Seq::<Seq<char>>::empty());
        let mut i: usize = 1;
        while i < args.len() && !progress.help
            invariant
                1 <= i,
                texts == texts_of(args@),
                self@.scan_from(texts, i as int, progress@) == self@.scan(texts),
            decreases args@.len() - i,
        {
            let arg: &str = args[i].as_str();
            assert(texts[i as int] == arg@);
            let ghost before = progress@;
            if progress.skip {
                progress.skip = false;
            } else {
                let tokens = Self::opts_in_arg(arg);
                if tokens.len() == 0 {
                    progress.args.push(args[i].clone());
                    assert(texts_of(progress.args@) =~= before.args.push(arg@));
                } else {
                    let mut k: usize = 0;
                    while k < tokens.len() && !progress.help
                        invariant
                            1 <= i < args@.len(),
                            texts == texts_of(args@),
                            views_of(tokens@) == flag_tokens(texts[i as int]),
                            self@.apply_all(
                                texts,
                                i as int,
                                flag_tokens(texts[i as int]),
                                k as int,
                                progress@,
                            ) == self@.apply_all(
                                texts,
                                i as int,
                                flag_tokens(texts[i as int]),
                                0,
                                before,
                            ),
                        decreases tokens@.len() - k,
                    {
                        assert(views_of(tokens@)[k as int] == tokens@[k as int]@);
                        self.apply_flag(&args, i, tokens[k], &mut progress);
                        k += 1;
                    }
                }
            }
            assert(progress@ =~= self@.step(texts, i as int, before));
            i += 1;
        }
        let status = if progress.help {
            ParseStatus::Help
        } else if progress.unknown || progress.missing {
            ParseStatus::Error
        } else {
            ParseStatus::Success
        };
        ParseResult { opts: progress.opts, status, args: progress.args, output: progress.output }
    }
}

} // verus!
