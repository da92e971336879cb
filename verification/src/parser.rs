//! The option parser: the flags a program declares and the texts of its
//! help output.

use crate::opt::{Flag, Opt};
use crate::suggest::{closest, lev_distance};
use vstd::prelude::*;
use vstd::string::*;

verus! {

/// Parser for command-line arguments; also renders usage information.
pub struct OptionParser<'a> {
    /// One line of usage, shown by `-h` behind the program's name.
    pub usage: String,
    /// A short summary of what the command does, shown under the usage line
    /// and above the list of flags.
    pub banner: String,
    /// The accepted flags.
    pub opts: Vec<&'a Opt>,
    /// A text shown below the list of flags.
    pub tail_banner: Option<String>,
}

/// What a parser declares, as sequences of characters.
pub struct Declared {
    pub usage: Seq<char>,
    pub banner: Seq<char>,
    pub flags: Seq<Flag>,
    pub tail_banner: Option<Seq<char>>,
}

/// The descriptors behind a list of references.
pub open spec fn flags_of(opts: Seq<&Opt>) -> Seq<Flag> {
    opts.map_values(|o: &Opt| o@)
}

/// The canonical names of a list of flags.
pub open spec fn names_of(flags: Seq<Flag>) -> Seq<Seq<char>> {
    flags.map_values(|f: Flag| f.canonical_name())
}

impl<'a> View for OptionParser<'a> {
    type V = Declared;

    open spec fn view(&self) -> Declared {
        Declared {
            usage: self.usage@,
            banner: self.banner@,
            flags: flags_of(self.opts@),
            tail_banner: match self.tail_banner {
                Some(t) => Some(t@),
                None => None,
            },
        }
    }
}

impl<'a> OptionParser<'a> {
    /// A parser for the given flags, without a tail banner.
    pub fn new(usage: &str, banner: &str, opts: &[&'a Opt]) -> (parser: OptionParser<'a>)
        ensures
            parser@ == (Declared {
                usage: usage@,
                banner: banner@,
                flags: flags_of(opts@),
                tail_banner: None,
            }),
    {
        let mut list: Vec<&'a Opt> = Vec::new();
        let mut i: usize = 0;
        while i < opts.len()
            invariant
                i <= opts@.len(),
                list@ == opts@.take(i as int),
            decreases opts@.len() - i,
        {
            list.push(opts[i]);
            assert(opts@.take(i + 1) =~= opts@.take(i as int).push(opts@[i as int]));
            i += 1;
        }
        assert(opts@.take(i as int) =~= opts@);
        OptionParser {
            usage: String::from_str(usage),
            banner: String::from_str(banner),
            opts: list,
            tail_banner: None,
        }
    }

    /// The declared flag whose canonical name is spelled most like `input`:
    /// the first of those at the least edit distance. `None` only where no
    /// flag is declared.
    pub fn suggest_opt(&self, input: &str) -> (suggested: Option<&'a Opt>)
        ensures
            suggested.is_none() <==> self.opts@.len() == 0,
            suggested.is_some() ==> suggested.unwrap() == self.opts@[closest(
                names_of(self@.flags),
                input@,
            )],
    {
        if self.opts.len() == 0 {
            return None;
        }
        let ghost names = names_of(self@.flags);
        let mut best: usize = 0;
        let mut best_dist: usize = lev_distance(self.opts[0].long_parsed(), input);
        let mut i: usize = 1;
        assert(names.take(1).len() == 1);
        while i < self.opts.len()
            invariant
                1 <= i <= self.opts@.len(),
                names == names_of(self@.flags),
                best == closest(names.take(i as int), input@),
                best < i,
                best_dist == crate::suggest::edit_distance(names[best as int], input@),
            decreases self.opts@.len() - i,
        {
            let dist: usize = lev_distance(self.opts[i].long_parsed(), input);
            proof {
                assert(names.take(i + 1).drop_last() =~= names.take(i as int));
                assert(names.take(i + 1).last() == names[i as int]);
                assert(names.take(i + 1)[best as int] == names[best as int]);
            }
            if dist < best_dist {
                best = i;
                best_dist = dist;
            }
            i += 1;
        }
        assert(names.take(i as int) =~= names);
        Some(self.opts[best])
    }
}

} // verus!
