//! Edit distance between spellings, and the closest of a list of names.

use crate::text::chars_of;
use vstd::prelude::*;

verus! {

pub open spec fn min3(a: nat, b: nat, c: nat) -> nat {
    if a <= b && a <= c {
        a
    } else if b <= c {
        b
    } else {
        c
    }
}

/// The Levenshtein distance: the least number of insertions, deletions and
/// substitutions of single characters that turn `a` into `b`.
pub open spec fn edit_distance(a: Seq<char>, b: Seq<char>) -> nat
    decreases a.len() + b.len(),
{
    if a.len() == 0 {
        b.len()
    } else if b.len() == 0 {
        a.len()
    } else {
        let substitute = edit_distance(a.drop_last(), b.drop_last()) + if a.last() == b.last() {
            0nat
        } else {
            1nat
        };
        let delete = edit_distance(a.drop_last(), b) + 1;
        let insert = edit_distance(a, b.drop_last()) + 1;
        min3(substitute, delete, insert)
    }
}

/// The distance never exceeds the length of the longer text.
pub proof fn lemma_edit_distance_bound(a: Seq<char>, b: Seq<char>)
    ensures
        edit_distance(a, b) <= a.len() || edit_distance(a, b) <= b.len(),
    decreases a.len() + b.len(),
{
    if a.len() > 0 && b.len() > 0 {
        lemma_edit_distance_bound(a.drop_last(), b.drop_last());
    }
}

/// The distance from `a` to `b` is the distance from `b` to `a`.
pub proof fn lemma_edit_distance_symmetric(a: Seq<char>, b: Seq<char>)
    ensures
        edit_distance(a, b) == edit_distance(b, a),
    decreases a.len() + b.len(),
{
    if a.len() > 0 && b.len() > 0 {
        lemma_edit_distance_symmetric(a.drop_last(), b.drop_last());
        lemma_edit_distance_symmetric(a.drop_last(), b);
        lemma_edit_distance_symmetric(a, b.drop_last());
    }
}

/// A text is at distance 0 from itself.
pub proof fn lemma_edit_distance_same(a: Seq<char>)
    ensures
        edit_distance(a, a) == 0,
    decreases a.len(),
{
    if a.len() > 0 {
        lemma_edit_distance_same(a.drop_last());
    }
}

/// Index of the name closest to `input` by edit distance; of several equally
/// close names, the first. 0 for an empty list.
pub open spec fn closest(names: Seq<Seq<char>>, input: Seq<char>) -> int
    decreases names.len(),
{
    if names.len() <= 1 {
        0
    } else {
        let k = closest(names.drop_last(), input);
        if edit_distance(names.last(), input) < edit_distance(names[k], input) {
            names.len() - 1
        } else {
            k
        }
    }
}

/// `closest` picks a name of the list, no name is closer to the input than
/// that one, and every name before it is farther away.
pub proof fn lemma_closest_is_first_minimum(names: Seq<Seq<char>>, input: Seq<char>)
    requires
        names.len() > 0,
    ensures
        0 <= closest(names, input) < names.len(),
        forall|j: int|
            0 <= j < names.len() ==> edit_distance(names[closest(names, input)], input)
                <= edit_distance(#[trigger] names[j], input),
        forall|j: int|
            0 <= j < closest(names, input) ==> edit_distance(names[closest(names, input)], input)
                < edit_distance(#[trigger] names[j], input),
    decreases names.len(),
{
    if names.len() > 1 {
        let front = names.drop_last();
        lemma_closest_is_first_minimum(front, input);
        assert forall|j: int| 0 <= j < names.len() - 1 implies names[j] == front[j] by {}
    }
}

/// The edit distance between two strings, counted in characters.
pub fn lev_distance(a: &str, b: &str) -> (d: usize)
    ensures
        d == edit_distance(a@, b@),
{
    let av = chars_of(a);
    let bv = chars_of(b);
    let n: usize = av.len();
    let m: usize = bv.len();
    let mut prev: Vec<usize> = Vec::new();
    prev.push(0);
    let mut j: usize = 0;
    assert(bv@.take(0).len() == 0);
    while j < m
        invariant
            j <= m,
            m == bv@.len(),
            prev@.len() == j + 1,
            forall|t: int|
                0 <= t <= j ==> #[trigger] prev@[t] == edit_distance(av@.take(0), bv@.take(t)),
        decreases m - j,
    {
        prev.push(j + 1);
        j += 1;
    }
    let mut i: usize = 0;
    while i < n
        invariant
            i <= n,
            n == av@.len(),
            m == bv@.len(),
            prev@.len() == m + 1,
            forall|t: int|
                0 <= t <= m ==> #[trigger] prev@[t] == edit_distance(
                    av@.take(i as int),
                    bv@.take(t),
                ),
        decreases n - i,
    {
        let mut cur: Vec<usize> = Vec::new();
        cur.push(i + 1);
        let ghost row = av@.take(i + 1);
        proof {
            assert(row.drop_last() =~= av@.take(i as int));
            assert(bv@.take(0).len() == 0);
        }
        let mut j: usize = 0;
        while j < m
            invariant
                j <= m,
                i < n,
                n == av@.len(),
                m == bv@.len(),
                row == av@.take(i + 1),
                row.drop_last() == av@.take(i as int),
                prev@.len() == m + 1,
                cur@.len() == j + 1,
                forall|t: int|
                    0 <= t <= m ==> #[trigger] prev@[t] == edit_distance(
                        av@.take(i as int),
                        bv@.take(t),
                    ),
                forall|t: int|
                    0 <= t <= j ==> #[trigger] cur@[t] == edit_distance(row, bv@.take(t)),
            decreases m - j,
        {
            let ghost col = bv@.take(j + 1);
            proof {
                assert(col.drop_last() =~= bv@.take(j as int));
                lemma_edit_distance_bound(av@.take(i as int), bv@.take(j as int));
                assert(prev@[j as int] == edit_distance(av@.take(i as int), bv@.take(j as int)));
                assert(prev@[j + 1] == edit_distance(av@.take(i as int), col));
                assert(cur@[j as int] == edit_distance(row, bv@.take(j as int)));
            }
            let mut best: usize = if av[i] == bv[j] {
                prev[j]
            } else {
                prev[j] + 1
            };
            if prev[j + 1] < best {
                best = prev[j + 1] + 1;
            }
            if cur[j] < best {
                best = cur[j] + 1;
            }
            cur.push(best);
            j += 1;
        }
        prev = cur;
        i += 1;
    }
    proof {
        assert(av@.take(n as int) =~= av@);
        assert(bv@.take(m as int) =~= bv@);
    }
    prev[m]
}

} // verus!
