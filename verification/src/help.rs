//! Help output: one line per flag, the flags in the order of their long
//! forms, between the usage line and the banners.

use crate::opt::{Flag, Opt, DESCRIPTION_COL, HELP_WIDTH};
use crate::parser::{flags_of, Declared, OptionParser};
use crate::text::{pad, word_wrap_str, wrap};
use vstd::prelude::*;
use vstd::string::*;

verus! {

/// Lexicographic order of `a` and `b` from position `i` on, given that they
/// agree before it: by the first character in which they differ, and a text
/// before each of its extensions.
pub open spec fn lex_le_from(a: Seq<char>, b: Seq<char>, i: int) -> bool
    decreases a.len() - i,
{
    if i >= a.len() {
        true
    } else if i >= b.len() {
        false
    } else if a[i] != b[i] {
        (a[i] as u32) < (b[i] as u32)
    } else {
        lex_le_from(a, b, i + 1)
    }
}

/// `a` comes no later than `b` in lexicographic order.
pub open spec fn lex_le(a: Seq<char>, b: Seq<char>) -> bool {
    lex_le_from(a, b, 0)
}

/// `sorted` with `x` put behind the last flag whose long form comes no later
/// than that of `x`.
pub open spec fn insert_sorted(sorted: Seq<Flag>, x: Flag) -> Seq<Flag>
    decreases sorted.len(),
{
    if sorted.len() == 0 || lex_le(sorted.last().long, x.long) {
        sorted.push(x)
    } else {
        insert_sorted(sorted.drop_last(), x).push(sorted.last())
    }
}

/// The flags in the order of their long forms; flags with the same long form
/// keep the order in which they were declared.
pub open spec fn sort_by_long(flags: Seq<Flag>) -> Seq<Flag>
    decreases flags.len(),
{
    if flags.len() == 0 {
        Seq::empty()
    } else {
        insert_sorted(sort_by_long(flags.drop_last()), flags.last())
    }
}

/// The help lines of the flags, one below the other.
pub open spec fn help_lines(flags: Seq<Flag>) -> Seq<char>
    decreases flags.len(),
{
    if flags.len() == 0 {
        Seq::empty()
    } else if flags.len() == 1 {
        flags[0].help_line()
    } else {
        help_lines(flags.drop_last()) + "\n"@ + flags.last().help_line()
    }
}

impl Declared {
    /// The whole help output for a program called `program`: the usage line,
    /// the wrapped banner, the sorted flags and the tail banner if there is
    /// one, a blank line between each two of them.
    pub open spec fn help_text(self, program: Seq<char>) -> Seq<char> {
        let body = "Usage: "@ + program + " "@ + self.usage + "\n\n"@ + wrap(
            self.banner,
            0,
            HELP_WIDTH as nat,
        ) + "\n\n"@ + help_lines(sort_by_long(self.flags));
        match self.tail_banner {
            Some(tail) => body + "\n\n"@ + tail + "\n"@,
            None => body + "\n"@,
        }
    }
}

proof fn lemma_insert_at(sorted: Seq<Flag>, x: Flag, j: int)
    requires
        0 <= j <= sorted.len(),
        forall|k: int| j <= k < sorted.len() ==> !lex_le(#[trigger] sorted[k].long, x.long),
        j == 0 || lex_le(sorted[j - 1].long, x.long),
    ensures
        insert_sorted(sorted, x) == sorted.insert(j, x),
    decreases sorted.len(),
{
    if j == sorted.len() {
        assert(sorted.push(x) =~= sorted.insert(j, x));
    } else {
        assert(!lex_le(sorted[sorted.len() - 1].long, x.long));
        lemma_insert_at(sorted.drop_last(), x, j);
        assert(sorted.drop_last().insert(j, x).push(sorted.last()) =~= sorted.insert(j, x));
    }
}

/// Of two texts, one comes no later than the other.
pub proof fn lemma_lex_le_total(a: Seq<char>, b: Seq<char>, i: int)
    requires
        0 <= i,
    ensures
        lex_le_from(a, b, i) || lex_le_from(b, a, i),
    decreases a.len() - i,
{
    if i < a.len() && i < b.len() {
        if a[i] == b[i] {
            lemma_lex_le_total(a, b, i + 1);
        } else {
            vstd::utf8::char_u32_cast(a[i], a[i] as u32);
            vstd::utf8::char_u32_cast(b[i], b[i] as u32);
        }
    }
}

/// What comes no later than a text comes no later than all that this text
/// comes no later than.
pub proof fn lemma_lex_le_transitive(a: Seq<char>, b: Seq<char>, c: Seq<char>, i: int)
    requires
        0 <= i,
        lex_le_from(a, b, i),
        lex_le_from(b, c, i),
    ensures
        lex_le_from(a, c, i),
    decreases a.len() - i,
{
    if i < a.len() && a[i] == b[i] && b[i] == c[i] {
        lemma_lex_le_transitive(a, b, c, i + 1);
    }
}

/// The long forms never go down along the list.
pub open spec fn ordered_by_long(flags: Seq<Flag>) -> bool {
    forall|i: int, j: int|
        0 <= i < j < flags.len() ==> lex_le(#[trigger] flags[i].long, #[trigger] flags[j].long)
}

/// Where `insert_sorted` puts a flag.
pub open spec fn insert_position(sorted: Seq<Flag>, x: Flag) -> int
    decreases sorted.len(),
{
    if sorted.len() == 0 || lex_le(sorted.last().long, x.long) {
        sorted.len() as int
    } else {
        insert_position(sorted.drop_last(), x)
    }
}

proof fn lemma_insert_position(sorted: Seq<Flag>, x: Flag)
    ensures
        0 <= insert_position(sorted, x) <= sorted.len(),
        forall|k: int|
            insert_position(sorted, x) <= k < sorted.len() ==> !lex_le(
                #[trigger] sorted[k].long,
                x.long,
            ),
        insert_position(sorted, x) == 0 || lex_le(
            sorted[insert_position(sorted, x) - 1].long,
            x.long,
        ),
    decreases sorted.len(),
{
    if !(sorted.len() == 0 || lex_le(sorted.last().long, x.long)) {
        let front = sorted.drop_last();
        lemma_insert_position(front, x);
        assert forall|k: int| insert_position(sorted, x) <= k < sorted.len() implies !lex_le(
            #[trigger] sorted[k].long,
            x.long,
        ) by {
            if k < front.len() {
                assert(sorted[k] == front[k]);
            }
        }
    }
}

/// Putting a flag into an ordered list leaves the list ordered, and adds
/// that flag to it and nothing else.
pub proof fn lemma_insert_sorted(sorted: Seq<Flag>, x: Flag)
    requires
        ordered_by_long(sorted),
    ensures
        ordered_by_long(insert_sorted(sorted, x)),
        insert_sorted(sorted, x).to_multiset() == sorted.to_multiset().insert(x),
{
    let p = insert_position(sorted, x);
    let longer = sorted.insert(p, x);
    lemma_insert_position(sorted, x);
    lemma_insert_at(sorted, x, p);
    assert forall|i: int, j: int| 0 <= i < j < longer.len() implies lex_le(
        #[trigger] longer[i].long,
        #[trigger] longer[j].long,
    ) by {
        if j == p {
            if i < p - 1 {
                assert(lex_le(sorted[i].long, sorted[p - 1].long));
                lemma_lex_le_transitive(sorted[i].long, sorted[p - 1].long, x.long, 0);
            }
        } else if i == p {
            assert(longer[j] == sorted[j - 1]);
            assert(!lex_le(sorted[j - 1].long, x.long));
            lemma_lex_le_total(x.long, sorted[j - 1].long, 0);
        } else {
            let a = if i < p { i } else { i - 1 };
            let b = if j < p { j } else { j - 1 };
            assert(longer[i] == sorted[a] && longer[j] == sorted[b]);
        }
    }
    assert(longer.remove(p) =~= sorted);
    vstd::seq_lib::to_multiset_remove(longer, p);
    assert(longer.to_multiset().count(x) > 0) by {
        assert(longer[p] == x);
        assert(longer.contains(x));
        longer.to_multiset_ensures();
    }
    assert(longer.to_multiset() =~= sorted.to_multiset().insert(x));
}

/// The sorted list is ordered by long form and holds the declared flags,
/// each as often as it was declared.
pub proof fn lemma_sort_by_long(flags: Seq<Flag>)
    ensures
        ordered_by_long(sort_by_long(flags)),
        sort_by_long(flags).to_multiset() == flags.to_multiset(),
        sort_by_long(flags).len() == flags.len(),
    decreases flags.len(),
{
    if flags.len() > 0 {
        lemma_sort_by_long(flags.drop_last());
        lemma_insert_sorted(sort_by_long(flags.drop_last()), flags.last());
        assert(flags =~= flags.drop_last().push(flags.last()));
        vstd::seq_lib::to_multiset_build(flags.drop_last(), flags.last());
    } else {
        assert(flags =~= Seq::<Flag>::empty());
    }
    sort_by_long(flags).to_multiset_ensures();
    flags.to_multiset_ensures();
}

/// Whether `a` comes no later than `b` in lexicographic order.
pub fn str_le(a: &str, b: &str) -> (r: bool)
    ensures
        r == lex_le(a@, b@),
{
    let n: usize = a.unicode_len();
    let m: usize = b.unicode_len();
    let mut i: usize = 0;
    while i < n
        invariant
            i <= n,
            n == a@.len(),
            m == b@.len(),
            lex_le_from(a@, b@, i as int) == lex_le(a@, b@),
        decreases n - i,
    {
        if i >= m {
            return false;
        }
        let x: char = a.get_char(i);
        let y: char = b.get_char(i);
        if x != y {
            return (x as u32) < (y as u32);
        }
        i += 1;
    }
    true
}

impl<'a> OptionParser<'a> {
    /// The declared flags in the order in which help lists them.
    pub fn sorted_opts(&self) -> (sorted: Vec<&'a Opt>)
        ensures
            flags_of(sorted@) == sort_by_long(self@.flags),
    {
        let mut sorted: Vec<&'a Opt> = Vec::new();
        let mut i: usize = 0;
        let ghost flags = self@.flags;
        assert(flags_of(sorted@) =~= sort_by_long(flags.take(0)));
        while i < self.opts.len()
            invariant
                i <= self.opts@.len(),
                flags == flags_of(self.opts@),
                sorted@.len() == i,
                flags_of(sorted@) == sort_by_long(flags.take(i as int)),
            decreases self.opts@.len() - i,
        {
            let opt: &'a Opt = self.opts[i];
            let mut j: usize = sorted.len();
            while j > 0 && !str_le(sorted[j - 1].long.as_str(), opt.long.as_str())
                invariant
                    j <= sorted@.len(),
                    forall|k: int|
                        j <= k < sorted@.len() ==> !lex_le(
                            #[trigger] flags_of(sorted@)[k].long,
                            opt@.long,
                        ),
                decreases j,
            {
                j -= 1;
            }
            proof {
                let before = flags_of(sorted@);
                assert(j > 0 ==> before[j - 1].long == sorted@[j - 1].long@);
                lemma_insert_at(before, opt@, j as int);
                assert(flags.take(i + 1).drop_last() =~= flags.take(i as int));
                assert(flags.take(i + 1).last() == opt@);
                assert(flags_of(sorted@.insert(j as int, opt)) =~= before.insert(j as int, opt@));
            }
            sorted.insert(j, opt);
            i += 1;
        }
        assert(flags.take(i as int) =~= flags);
        sorted
    }

    /// The entry of one flag in help output.
    pub fn arg_help_str(opt: &Opt) -> (line: String)
        ensures
            line@ == opt@.help_line(),
    {
        let mut line = String::new();
        if opt.short.as_str().unicode_len() > 0 {
            line.append("  ");
            line.append(opt.short.as_str());
            line.append(", ");
        } else {
            line.append("      ");
        }
        line.append(opt.long.as_str());
        assert(line@ =~= opt@.syntax());
        let len: usize = line.as_str().unicode_len();
        if len < DESCRIPTION_COL {
            pad(&mut line, DESCRIPTION_COL - len);
        } else {
            line.append("\n");
            pad(&mut line, DESCRIPTION_COL);
        }
        let described = word_wrap_str(opt.description.as_str(), DESCRIPTION_COL, HELP_WIDTH);
        line.append(described.as_str());
        line
    }

    /// The help output for the declared flags, for a program that was
    /// started as `program`.
    pub fn format_help_str(&self, program: &str) -> (help: String)
        ensures
            help@ == self@.help_text(program@),
    {
        let mut help = String::new();
        help.append("Usage: ");
        help.append(program);
        help.append(" ");
        help.append(self.usage.as_str());
        help.append("\n\n");
        let banner = word_wrap_str(self.banner.as_str(), 0, HELP_WIDTH);
        help.append(banner.as_str());
        help.append("\n\n");
        let sorted = self.sorted_opts();
        let ghost head = help@;
        let ghost flags = flags_of(sorted@);
        assert(head =~= "Usage: "@ + program@ + " "@ + self.usage@ + "\n\n"@ + wrap(
            self.banner@,
            0,
            HELP_WIDTH as nat,
        ) + "\n\n"@);
        let mut i: usize = 0;
        assert(help@ =~= head + help_lines(flags.take(0)));
        while i < sorted.len()
            invariant
                i <= sorted@.len(),
                flags == flags_of(sorted@),
                help@ == head + help_lines(flags.take(i as int)),
            decreases sorted@.len() - i,
        {
            proof {
                assert(flags.take(i + 1).drop_last() =~= flags.take(i as int));
                assert(flags.take(i + 1).last() == sorted@[i as int]@);
            }
            if i > 0 {
                help.append("\n");
            }
            let line = Self::arg_help_str(sorted[i]);
            help.append(line.as_str());
            assert(help@ =~= head + help_lines(flags.take(i + 1)));
            i += 1;
        }
        assert(flags.take(i as int) =~= flags);
        match &self.tail_banner {
            Some(tail) => {
                help.append("\n\n");
                help.append(tail.as_str());
            },
            None => {},
        }
        help.append("\n");
        assert(help@ =~= self@.help_text(program@));
        help
    }
}

} // verus!
