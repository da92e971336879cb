//! Character-level helpers and the word-wrapping text formatter.

use vstd::prelude::*;
use vstd::string::*;

verus! {

/// Whether `c` separates words: the Unicode `White_Space` code points.
pub open spec fn is_space(c: char) -> bool {
    let n = c as u32;
    ||| 0x09 <= n <= 0x0d
    ||| n == 0x20
    ||| n == 0x85
    ||| n == 0xa0
    ||| n == 0x1680
    ||| 0x2000 <= n <= 0x200a
    ||| n == 0x2028
    ||| n == 0x2029
    ||| n == 0x202f
    ||| n == 0x205f
    ||| n == 0x3000
}

/// `n` blanks.
pub open spec fn spaces(n: nat) -> Seq<char> {
    Seq::new(n, |i: int| ' ')
}

/// The maximal runs of non-blank characters of `s`, in order.
pub open spec fn words(s: Seq<char>) -> Seq<Seq<char>>
    decreases s.len(),
{
    if s.len() == 0 {
        Seq::empty()
    } else {
        let rest = words(s.drop_last());
        if is_space(s.last()) {
            rest
        } else if s.len() > 1 && !is_space(s[s.len() - 2]) && rest.len() > 0 {
            rest.drop_last().push(rest.last().push(s.last()))
        } else {
            rest.push(seq![s.last()])
        }
    }
}

/// The words of one line with a single blank between neighbours.
pub open spec fn join_words(line: Seq<Seq<char>>) -> Seq<char>
    decreases line.len(),
{
    if line.len() == 0 {
        Seq::empty()
    } else if line.len() == 1 {
        line[0]
    } else {
        join_words(line.drop_last()) + seq![' '] + line.last()
    }
}

/// Greedy distribution of words over lines that offer `avail` columns each:
/// a word joins the current line when it still fits behind one blank, and
/// opens a new line otherwise. A word is never split, so a line that holds a
/// single word may be wider than `avail`.
pub open spec fn layout(ws: Seq<Seq<char>>, avail: nat) -> Seq<Seq<Seq<char>>>
    decreases ws.len(),
{
    if ws.len() == 0 {
        Seq::empty()
    } else {
        let prev = layout(ws.drop_last(), avail);
        if prev.len() > 0 && join_words(prev.last()).len() + 1 + ws.last().len() <= avail {
            prev.drop_last().push(prev.last().push(ws.last()))
        } else {
            prev.push(seq![ws.last()])
        }
    }
}

/// The lines as one text: each line after the first starts on a new line
/// behind `indent` blanks.
pub open spec fn render(lines: Seq<Seq<Seq<char>>>, indent: nat) -> Seq<char>
    decreases lines.len(),
{
    if lines.len() == 0 {
        Seq::empty()
    } else if lines.len() == 1 {
        join_words(lines[0])
    } else {
        render(lines.drop_last(), indent) + seq!['\n'] + spaces(indent) + join_words(
            lines.last(),
        )
    }
}

/// `text` wrapped to `cols` columns, every line starting at column
/// `start_col`; the first line is taken to stand at that column already.
pub open spec fn wrap(text: Seq<char>, start_col: nat, cols: nat) -> Seq<char> {
    render(layout(words(text), (cols - start_col) as nat), start_col)
}

/// A text that is not empty and holds no blank.
pub open spec fn is_word(w: Seq<char>) -> bool {
    w.len() > 0 && forall|j: int| 0 <= j < w.len() ==> !is_space(#[trigger] w[j])
}

/// No word is empty, and no word holds a blank.
pub proof fn lemma_words_hold_no_blank(s: Seq<char>)
    ensures
        forall|k: int| 0 <= k < words(s).len() ==> is_word(#[trigger] words(s)[k]),
    decreases s.len(),
{
    if s.len() > 0 {
        let rest = words(s.drop_last());
        lemma_words_hold_no_blank(s.drop_last());
        if !is_space(s.last()) {
            if s.len() > 1 && !is_space(s[s.len() - 2]) && rest.len() > 0 {
                assert(is_word(rest.last()));
                assert(is_word(rest.last().push(s.last())));
            } else {
                assert(is_word(seq![s.last()]));
            }
        }
        assert forall|k: int| 0 <= k < words(s).len() implies is_word(#[trigger] words(s)[k]) by {
            if k < words(s).len() - 1 {
                assert(words(s)[k] == rest[k]);
            }
        }
    }
}

/// Every line of a layout holds at least one word, and a line of more than
/// one word is no wider than the columns on offer: only a single word that
/// is too wide by itself sticks out.
pub proof fn lemma_layout_lines_fit(ws: Seq<Seq<char>>, avail: nat)
    ensures
        ws.len() > 0 ==> layout(ws, avail).len() > 0,
        forall|l: int|
            0 <= l < layout(ws, avail).len() ==> (#[trigger] layout(ws, avail)[l]).len() >= 1 && (
            layout(ws, avail)[l].len() == 1 || join_words(layout(ws, avail)[l]).len() <= avail),
    decreases ws.len(),
{
    if ws.len() > 0 {
        let prev = layout(ws.drop_last(), avail);
        lemma_layout_lines_fit(ws.drop_last(), avail);
        if prev.len() > 0 && join_words(prev.last()).len() + 1 + ws.last().len() <= avail {
            let line = prev.last().push(ws.last());
            assert(line.drop_last() =~= prev.last());
            assert(join_words(line).len() == join_words(prev.last()).len() + 1 + ws.last().len());
        }
    }
}

/// The words of all lines, in order.
pub open spec fn words_of_lines(lines: Seq<Seq<Seq<char>>>) -> Seq<Seq<char>>
    decreases lines.len(),
{
    if lines.len() == 0 {
        Seq::empty()
    } else {
        words_of_lines(lines.drop_last()) + lines.last()
    }
}

/// A layout holds the words it was given, whole and in their order.
pub proof fn lemma_layout_keeps_words(ws: Seq<Seq<char>>, avail: nat)
    ensures
        words_of_lines(layout(ws, avail)) == ws,
    decreases ws.len(),
{
    if ws.len() > 0 {
        let prev = layout(ws.drop_last(), avail);
        let next = layout(ws, avail);
        lemma_layout_keeps_words(ws.drop_last(), avail);
        assert(ws =~= ws.drop_last().push(ws.last()));
        if prev.len() > 0 && join_words(prev.last()).len() + 1 + ws.last().len() <= avail {
            assert(next.drop_last() =~= prev.drop_last());
            assert(words_of_lines(next) =~= words_of_lines(prev).push(ws.last()));
        } else {
            assert(next.drop_last() =~= prev);
            assert(words_of_lines(next) =~= words_of_lines(prev).push(ws.last()));
        }
    } else {
        assert(ws =~= Seq::<Seq<char>>::empty());
    }
}

/// Words that fit on one line are laid out on one line.
pub proof fn lemma_layout_one_line(ws: Seq<Seq<char>>, avail: nat)
    requires
        ws.len() > 0,
        join_words(ws).len() <= avail,
    ensures
        layout(ws, avail) == seq![ws],
    decreases ws.len(),
{
    let front = ws.drop_last();
    if front.len() > 0 {
        lemma_layout_one_line(front, avail);
        assert(front.push(ws.last()) =~= ws);
        assert(seq![front].drop_last().push(ws) =~= seq![ws]);
    } else {
        assert(seq![ws.last()] =~= ws);
        assert(layout(front, avail).push(ws) =~= seq![ws]);
    }
}

/// A line of a layout: at least one word, and nothing but words.
pub open spec fn is_line(line: Seq<Seq<char>>) -> bool {
    line.len() > 0 && forall|k: int| 0 <= k < line.len() ==> is_word(#[trigger] line[k])
}

/// A text of blanks only.
pub open spec fn is_blank(s: Seq<char>) -> bool {
    forall|i: int| 0 <= i < s.len() ==> is_space(#[trigger] s[i])
}

/// Laid out words stay words.
pub proof fn lemma_layout_lines_hold_words(ws: Seq<Seq<char>>, avail: nat)
    requires
        forall|k: int| 0 <= k < ws.len() ==> is_word(#[trigger] ws[k]),
    ensures
        forall|l: int| 0 <= l < layout(ws, avail).len() ==> is_line(#[trigger] layout(ws, avail)[l]),
    decreases ws.len(),
{
    if ws.len() > 0 {
        let prev = layout(ws.drop_last(), avail);
        let next = layout(ws, avail);
        assert forall|k: int| 0 <= k < ws.drop_last().len() implies is_word(
            #[trigger] ws.drop_last()[k],
        ) by {
            assert(ws.drop_last()[k] == ws[k]);
        }
        lemma_layout_lines_hold_words(ws.drop_last(), avail);
        assert(is_word(ws.last()));
        assert forall|l: int| 0 <= l < next.len() implies is_line(#[trigger] next[l]) by {
            if l < next.len() - 1 {
                assert(next[l] == prev[l]);
            } else if prev.len() > 0 && join_words(prev.last()).len() + 1 + ws.last().len()
                <= avail {
                assert(is_line(prev.last()));
                assert(is_line(prev.last().push(ws.last())));
            } else {
                assert(is_line(seq![ws.last()]));
            }
        }
    }
}

/// Blanks behind a text add no word to it.
pub proof fn lemma_words_skip_blanks(s: Seq<char>, blanks: Seq<char>)
    requires
        is_blank(blanks),
    ensures
        words(s + blanks) == words(s),
    decreases blanks.len(),
{
    if blanks.len() == 0 {
        assert(s + blanks =~= s);
    } else {
        assert((s + blanks).drop_last() =~= s + blanks.drop_last());
        assert(is_space(blanks[blanks.len() - 1]));
        lemma_words_skip_blanks(s, blanks.drop_last());
    }
}

/// A word behind a blank, or behind nothing, is one more word.
pub proof fn lemma_words_add_word(s: Seq<char>, w: Seq<char>)
    requires
        is_word(w),
        s.len() == 0 || is_space(s.last()),
    ensures
        words(s + w) == words(s).push(w),
    decreases w.len(),
{
    let front = w.drop_last();
    let text = s + w;
    assert(text.drop_last() =~= s + front);
    assert(text.last() == w[w.len() - 1]);
    if front.len() == 0 {
        assert(s + front =~= s);
        assert(seq![w.last()] =~= w);
    } else {
        assert(is_word(front)) by {
            assert forall|j: int| 0 <= j < front.len() implies !is_space(#[trigger] front[j]) by {
                assert(front[j] == w[j]);
            }
        }
        lemma_words_add_word(s, front);
        assert(text[text.len() - 2] == w[w.len() - 2]);
        assert(front.push(w.last()) =~= w);
        assert(words(s).push(front).drop_last() =~= words(s));
    }
}

/// The words of a line behind a blank, or behind nothing, are so many more
/// words.
pub proof fn lemma_words_add_line(s: Seq<char>, line: Seq<Seq<char>>)
    requires
        is_line(line),
        s.len() == 0 || is_space(s.last()),
    ensures
        words(s + join_words(line)) == words(s) + line,
    decreases line.len(),
{
    if line.len() == 1 {
        lemma_words_add_word(s, line[0]);
        assert(words(s).push(line[0]) =~= words(s) + line);
    } else {
        let front = line.drop_last();
        assert(is_line(front)) by {
            assert forall|k: int| 0 <= k < front.len() implies is_word(#[trigger] front[k]) by {
                assert(front[k] == line[k]);
            }
        }
        lemma_words_add_line(s, front);
        let upto = s + join_words(front);
        assert(is_blank(seq![' ']));
        lemma_words_skip_blanks(upto, seq![' ']);
        assert(is_word(line.last()));
        lemma_words_add_word(upto + seq![' '], line.last());
        assert(s + join_words(line) =~= upto + seq![' '] + line.last());
        assert((words(s) + front).push(line.last()) =~= words(s) + line);
    }
}

/// The words of a rendered layout are the words that were laid out.
pub proof fn lemma_words_of_render(lines: Seq<Seq<Seq<char>>>, indent: nat)
    requires
        forall|l: int| 0 <= l < lines.len() ==> is_line(#[trigger] lines[l]),
    ensures
        words(render(lines, indent)) == words_of_lines(lines),
    decreases lines.len(),
{
    if lines.len() == 1 {
        let none = Seq::<char>::empty();
        assert(is_line(lines[0]));
        lemma_words_add_line(none, lines[0]);
        assert(none + join_words(lines[0]) =~= join_words(lines[0]));
        assert(words_of_lines(lines.drop_last()) =~= Seq::<Seq<char>>::empty());
        assert(words(none) + lines[0] =~= words_of_lines(lines));
    } else if lines.len() > 1 {
        let front = lines.drop_last();
        assert forall|l: int| 0 <= l < front.len() implies is_line(#[trigger] front[l]) by {
            assert(front[l] == lines[l]);
        }
        lemma_words_of_render(front, indent);
        let gap = seq!['\n'] + spaces(indent);
        assert(is_blank(gap));
        lemma_words_skip_blanks(render(front, indent), gap);
        let upto = render(front, indent) + gap;
        assert(is_space(upto.last()));
        assert(is_line(lines.last()));
        lemma_words_add_line(upto, lines.last());
        assert(render(lines, indent) =~= upto + join_words(lines.last()));
    }
}

/// Wrapping a wrapped text again changes nothing.
pub proof fn lemma_wrap_idempotent(text: Seq<char>, start_col: nat, cols: nat)
    ensures
        wrap(wrap(text, start_col, cols), start_col, cols) == wrap(text, start_col, cols),
{
    let avail = (cols - start_col) as nat;
    let lines = layout(words(text), avail);
    lemma_words_hold_no_blank(text);
    lemma_layout_lines_hold_words(words(text), avail);
    lemma_words_of_render(lines, start_col);
    lemma_layout_keeps_words(words(text), avail);
}

/// The text is one line of words with single blanks between them: its
/// only blank character is the space, and no space stands first, last or
/// behind another.
pub open spec fn single_spaced(text: Seq<char>) -> bool {
    forall|i: int|
        0 <= i < text.len() && is_space(#[trigger] text[i]) ==> text[i] == ' ' && 0 < i
            < text.len() - 1 && !is_space(text[i - 1])
}

proof fn lemma_join_extended_word(line: Seq<Seq<char>>, c: char)
    requires
        line.len() > 0,
    ensures
        join_words(line.drop_last().push(line.last().push(c))) == join_words(line).push(c),
{
    let longer = line.drop_last().push(line.last().push(c));
    assert(longer.drop_last() =~= line.drop_last());
    if line.len() > 1 {
        assert(join_words(longer) =~= join_words(line).push(c));
    }
}

proof fn lemma_join_words_of(s: Seq<char>)
    requires
        forall|i: int|
            0 <= i < s.len() && is_space(#[trigger] s[i]) ==> s[i] == ' ' && 0 < i && !is_space(
                s[i - 1],
            ),
    ensures
        s.len() > 0 ==> words(s).len() > 0,
        s.len() > 0 && is_space(s.last()) ==> join_words(words(s)) + seq![' '] == s,
        !(s.len() > 0 && is_space(s.last())) ==> join_words(words(s)) == s,
    decreases s.len(),
{
    if s.len() > 0 {
        let front = s.drop_last();
        let rest = words(front);
        assert forall|i: int| 0 <= i < front.len() && is_space(#[trigger] front[i]) implies front[i]
            == ' ' && 0 < i && !is_space(front[i - 1]) by {
            assert(front[i] == s[i]);
        }
        lemma_join_words_of(front);
        assert(s =~= front.push(s.last()));
        if is_space(s.last()) {
            assert(s[s.len() - 1] == ' ');
            assert(front.last() == s[s.len() - 2]);
            assert(join_words(rest) + seq![' '] =~= s);
        } else if front.len() == 0 {
            assert(rest.push(seq![s.last()]) =~= seq![seq![s.last()]]);
            assert(seq![s.last()] =~= s);
        } else if !is_space(s[s.len() - 2]) {
            assert(front.last() == s[s.len() - 2]);
            lemma_join_extended_word(rest, s.last());
        } else {
            assert(front.last() == s[s.len() - 2]);
            let longer = rest.push(seq![s.last()]);
            assert(longer.drop_last() =~= rest);
            assert(join_words(longer) =~= s);
        }
    }
}

/// Wrapping leaves a short line as it is: a single-spaced text that fits
/// between the starting column and the width comes back unchanged.
pub proof fn lemma_wrap_keeps_short_line(text: Seq<char>, start_col: nat, cols: nat)
    requires
        single_spaced(text),
        start_col + text.len() <= cols,
    ensures
        wrap(text, start_col, cols) == text,
{
    lemma_join_words_of(text);
    if words(text).len() > 0 {
        lemma_layout_one_line(words(text), (cols - start_col) as nat);
    }
}

pub fn is_whitespace(c: char) -> (r: bool)
    ensures
        r == is_space(c),
{
    let n: u32 = c as u32;
    (0x09 <= n && n <= 0x0d) || n == 0x20 || n == 0x85 || n == 0xa0 || n == 0x1680 || (0x2000 <= n
        && n <= 0x200a) || n == 0x2028 || n == 0x2029 || n == 0x202f || n == 0x205f || n == 0x3000
}

/// Whether two strings hold the same characters.
pub fn str_eq(a: &str, b: &str) -> (r: bool)
    ensures
        r == (a@ == b@),
{
    let n: usize = a.unicode_len();
    if b.unicode_len() != n {
        return false;
    }
    let mut i: usize = 0;
    while i < n
        invariant
            i <= n,
            n == a@.len(),
            n == b@.len(),
            forall|j: int| 0 <= j < i ==> a@[j] == b@[j],
        decreases n - i,
    {
        if a.get_char(i) != b.get_char(i) {
            return false;
        }
        i += 1;
    }
    assert(a@ =~= b@);
    true
}

/// The characters of `s` as a vector.
pub fn chars_of(s: &str) -> (r: Vec<char>)
    ensures
        r@ == s@,
{
    let n: usize = s.unicode_len();
    let mut v: Vec<char> = Vec::new();
    let mut i: usize = 0;
    while i < n
        invariant
            i <= n,
            n == s@.len(),
            v@ == s@.take(i as int),
        decreases n - i,
    {
        v.push(s.get_char(i));
        assert(s@.take(i + 1) =~= s@.take(i as int).push(s@[i as int]));
        i += 1;
    }
    assert(s@.take(n as int) =~= s@);
    v
}

/// Appends `n` blanks to `out`.
pub fn pad(out: &mut String, n: usize)
    ensures
        final(out)@ == old(out)@ + spaces(n as nat),
{
    let mut i: usize = 0;
    assert(out@ =~= old(out)@ + spaces(0));
    while i < n
        invariant
            i <= n,
            out@ == old(out)@ + spaces(i as nat),
        decreases n - i,
    {
        proof {
            reveal_strlit(" ");
        }
        out.append(" ");
        assert(out@ =~= old(out)@ + spaces((i + 1) as nat));
        i += 1;
    }
}

/// The places of the words of `text`: for each word, where it starts and
/// where it ends.
fn word_spans(text: &str) -> (spans: Vec<(usize, usize)>)
    ensures
        spans@.len() == words(text@).len(),
        forall|k: int|
            0 <= k < spans@.len() ==> 0 <= (#[trigger] spans@[k]).0 <= spans@[k].1 <= text@.len()
                && words(text@)[k] == text@.subrange(
                spans@[k].0 as int,
                spans@[k].1 as int,
            ),
{
    let n: usize = text.unicode_len();
    let mut spans: Vec<(usize, usize)> = Vec::new();
    let mut start: usize = 0;
    let mut in_word: bool = false;
    let mut i: usize = 0;
    while i < n
        invariant
            i <= n,
            n == text@.len(),
            in_word ==> start < i && !is_space(text@[i - 1]) && words(text@.take(i as int)).len()
                == spans@.len() + 1 && words(text@.take(i as int)).last() == text@.subrange(
                start as int,
                i as int,
            ),
            !in_word ==> words(text@.take(i as int)).len() == spans@.len() && (i == 0 || is_space(
                text@[i - 1],
            )),
            forall|k: int|
                0 <= k < spans@.len() ==> 0 <= (#[trigger] spans@[k]).0 <= spans@[k].1 <= i && words(
                    text@.take(i as int),
                )[k] == text@.subrange(spans@[k].0 as int, spans@[k].1 as int),
        decreases n - i,
    {
        let c: char = text.get_char(i);
        let ghost before = text@.take(i as int);
        let ghost after = text@.take(i + 1);
        proof {
            assert(after.drop_last() =~= before);
            assert(after.last() == c);
            assert(i > 0 ==> after[after.len() - 2] == text@[i - 1]);
            assert(in_word ==> text@.subrange(start as int, i + 1) =~= text@.subrange(
                start as int,
                i as int,
            ).push(c));
            assert(text@.subrange(i as int, i + 1) =~= seq![c]);
        }
        if is_whitespace(c) {
            if in_word {
                spans.push((start, i));
                in_word = false;
            }
        } else if !in_word {
            start = i;
            in_word = true;
        }
        i += 1;
    }
    assert(text@.take(n as int) =~= text@);
    if in_word {
        spans.push((start, n));
    }
    spans
}

/// Word-wraps `s` to `cols` columns for a block whose lines start at column
/// `start_col`.
pub fn word_wrap_str(s: &str, start_col: usize, cols: usize) -> (wrapped: String)
    requires
        start_col <= cols,
    ensures
        wrapped@ == wrap(s@, start_col as nat, cols as nat),
{
    let avail: usize = cols - start_col;
    let spans = word_spans(s);
    let ghost ws = words(s@);
    let mut wrapped = String::new();
    let mut used: usize = 0;
    let mut k: usize = 0;
    while k < spans.len()
        invariant
            k <= spans@.len(),
            spans@.len() == ws.len(),
            ws == words(s@),
            avail == cols - start_col,
            forall|j: int|
                0 <= j < spans@.len() ==> 0 <= (#[trigger] spans@[j]).0 <= spans@[j].1 <= s@.len()
                    && ws[j] == s@.subrange(spans@[j].0 as int, spans@[j].1 as int),
            wrapped@ == render(layout(ws.take(k as int), avail as nat), start_col as nat),
            k > 0 ==> layout(ws.take(k as int), avail as nat).len() > 0 && used == join_words(
                layout(ws.take(k as int), avail as nat).last(),
            ).len() && layout(ws.take(k as int), avail as nat).last().len() > 0,
        decreases spans@.len() - k,
    {
        let (from, to) = spans[k];
        let word = s.substring_char(from, to);
        let len: usize = to - from;
        let ghost prev = layout(ws.take(k as int), avail as nat);
        let ghost next = layout(ws.take(k + 1), avail as nat);
        proof {
            assert(ws.take(k + 1).drop_last() =~= ws.take(k as int));
            assert(ws.take(k + 1).last() == word@);
            assert(word@ == ws[k as int]);
            assert(k == 0 ==> prev.len() == 0);
        }
        if k == 0 {
            used = len;
            proof {
                assert(next =~= seq![seq![word@]]);
                assert(wrapped@ + word@ =~= word@);
            }
        } else if len < avail && used <= avail - len - 1 {
            proof {
                reveal_strlit(" ");
                let line = prev.last().push(word@);
                assert(next == prev.drop_last().push(line));
                assert(line.drop_last() =~= prev.last());
                assert(join_words(line) == join_words(prev.last()) + seq![' '] + word@);
                assert(next.drop_last() =~= prev.drop_last());
                assert(render(next, start_col as nat) =~= wrapped@ + " "@ + word@);
            }
            wrapped.append(" ");
            used = used + 1 + len;
        } else {
            proof {
                reveal_strlit("\n");
                assert(next == prev.push(seq![word@]));
                assert(next.drop_last() =~= prev);
                assert(render(next, start_col as nat) =~= wrapped@ + "\n"@ + spaces(
                    start_col as nat,
                ) + word@);
            }
            wrapped.append("\n");
            pad(&mut wrapped, start_col);
            used = len;
        }
        wrapped.append(word);
        k += 1;
    }
    assert(ws.take(k as int) =~= ws);
    wrapped
}

} // verus!
