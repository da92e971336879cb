//! Flag descriptors: what one command-line option looks like.

use crate::text::{spaces, str_eq, wrap};
use vstd::prelude::*;
use vstd::string::*;

verus! {

/// Column at which the description of a flag starts in help output.
pub const DESCRIPTION_COL: usize = 26;

/// Width of help output, in columns.
pub const HELP_WIDTH: usize = 80;

/// A command-line flag.
///
/// `short` is empty or a dash and one letter (`-o`). `long` is two dashes and
/// a name, optionally followed by a blank and the name of an argument
/// (`--option`, `--option ARG`, `--option [ARG]`); square brackets mark the
/// argument as optional. The syntax is taken as given and not validated.
pub struct Opt {
    pub short: String,
    pub long: String,
    pub description: String,
}

/// What a flag descriptor holds, as sequences of characters.
pub struct Flag {
    pub short: Seq<char>,
    pub long: Seq<char>,
    pub description: Seq<char>,
}

impl View for Opt {
    type V = Flag;

    open spec fn view(&self) -> Flag {
        Flag { short: self.short@, long: self.long@, description: self.description@ }
    }
}

/// Number of characters of `s` before its first blank; the length of `s`
/// when it holds none.
pub open spec fn first_space(s: Seq<char>) -> nat
    decreases s.len(),
{
    if s.len() == 0 || s[0] == ' ' {
        0
    } else {
        1 + first_space(s.skip(1))
    }
}

/// `first_space` is the one position that has no blank before it and either
/// a blank at it or the end of the text.
pub proof fn lemma_first_space(s: Seq<char>, i: int)
    requires
        0 <= i <= s.len(),
        forall|j: int| 0 <= j < i ==> s[j] != ' ',
        i == s.len() || s[i] == ' ',
    ensures
        first_space(s) == i,
    decreases s.len(),
{
    if i > 0 {
        lemma_first_space(s.skip(1), i - 1);
    }
}

impl Flag {
    /// The syntax that a flag is meant to have: a long form, and a short
    /// form that is empty or a dash and one letter.
    pub open spec fn well_formed(self) -> bool {
        self.long.len() > 0 && (self.short.len() == 0 || (self.short.len() == 2 && self.short[0]
            == '-'))
    }

    /// The flag takes an argument: its long form names one.
    pub open spec fn takes_argument(self) -> bool {
        self.long.contains(' ')
    }

    /// The flag takes an argument that may not be left out: its long form
    /// names an argument and holds no `[`.
    pub open spec fn argument_required(self) -> bool {
        self.takes_argument() && !self.long.contains('[')
    }

    /// The long form without the argument's name.
    pub open spec fn canonical_name(self) -> Seq<char> {
        self.long.take(first_space(self.long) as int)
    }

    /// Whether a flag token names this flag: the letter of its short form, or
    /// its canonical long form.
    pub open spec fn matches(self, token: Seq<char>) -> bool {
        (self.short.len() > 1 && token == self.short.skip(1)) || token == self.canonical_name()
    }

    /// Both forms of the flag as they open its line of help.
    pub open spec fn syntax(self) -> Seq<char> {
        if self.short.len() > 0 {
            "  "@ + self.short + ", "@ + self.long
        } else {
            "      "@ + self.long
        }
    }

    /// The flag's entry in help output: its syntax, then its description
    /// wrapped behind the description column. Syntax that reaches that column
    /// gets a line of its own.
    pub open spec fn help_line(self) -> Seq<char> {
        let described = wrap(self.description, DESCRIPTION_COL as nat, HELP_WIDTH as nat);
        if self.syntax().len() < DESCRIPTION_COL {
            self.syntax() + spaces((DESCRIPTION_COL - self.syntax().len()) as nat) + described
        } else {
            self.syntax() + "\n"@ + spaces(DESCRIPTION_COL as nat) + described
        }
    }
}

/// The built-in flag that asks for help.
pub open spec fn help_flag() -> Flag {
    Flag { short: "-h"@, long: "--help"@, description: "Display usage information"@ }
}

/// The ready-made flag that asks for the version.
pub open spec fn version_flag() -> Flag {
    Flag { short: "-v"@, long: "--version"@, description: "Display version information"@ }
}

/// Whether `s` holds the character `c`.
pub fn contains_char(s: &str, c: char) -> (r: bool)
    ensures
        r == s@.contains(c),
{
    let n: usize = s.unicode_len();
    let mut i: usize = 0;
    while i < n
        invariant
            i <= n,
            n == s@.len(),
            forall|j: int| 0 <= j < i ==> s@[j] != c,
        decreases n - i,
    {
        if s.get_char(i) == c {
            return true;
        }
        i += 1;
    }
    false
}

impl Opt {
    /// A flag with the given short form, long form and description.
    pub fn new(short: &str, long: &str, description: &str) -> (opt: Opt)
        ensures
            opt@ == (Flag { short: short@, long: long@, description: description@ }),
    {
        Opt {
            short: String::from_str(short),
            long: String::from_str(long),
            description: String::from_str(description),
        }
    }

    /// The `--help` flag.
    pub fn help_opt() -> (opt: Opt)
        ensures
            opt@ == help_flag(),
            opt@.well_formed(),
    {
        proof {
            reveal_strlit("-h");
            reveal_strlit("--help");
        }
        Opt::new("-h", "--help", "Display usage information")
    }

    /// A `--version` flag.
    pub fn version_opt() -> (opt: Opt)
        ensures
            opt@ == version_flag(),
            opt@.well_formed(),
    {
        proof {
            reveal_strlit("-v");
            reveal_strlit("--version");
        }
        Opt::new("-v", "--version", "Display version information")
    }

    /// Whether this flag takes an argument.
    pub fn has_arg(&self) -> (r: bool)
        ensures
            r == self@.takes_argument(),
    {
        contains_char(self.long.as_str(), ' ')
    }

    /// Whether this flag takes an argument that may not be left out.
    pub fn has_required_arg(&self) -> (r: bool)
        ensures
            r == self@.argument_required(),
    {
        self.has_arg() && !contains_char(self.long.as_str(), '[')
    }

    /// The long form of this flag without the name of its argument:
    /// `--option` for `--option [arg]`.
    pub fn long_parsed(&self) -> (name: &str)
        ensures
            name@ == self@.canonical_name(),
    {
        let long = self.long.as_str();
        let n: usize = long.unicode_len();
        let mut i: usize = 0;
        while i < n && long.get_char(i) != ' '
            invariant
                i <= n,
                n == long@.len(),
                forall|j: int| 0 <= j < i ==> long@[j] != ' ',
            decreases n - i,
        {
            i += 1;
        }
        proof {
            lemma_first_space(long@, i as int);
        }
        long.substring_char(0, i)
    }

    /// Whether a flag token, in the form `o` or `--option`, names this flag.
    pub fn match_arg(&self, arg: &str) -> (r: bool)
        ensures
            r == self@.matches(arg@),
    {
        let short = self.short.as_str();
        let n: usize = short.unicode_len();
        if n > 1 {
            let letter = short.substring_char(1, n);
            assert(letter@ =~= short@.skip(1));
            if str_eq(arg, letter) {
                return true;
            }
        }
        str_eq(arg, self.long_parsed())
    }
}

} // verus!
