//! Text statistics shown for the open note.
use vstd::prelude::*;

use crate::text::{chars_of, char_is_whitespace, is_white_space};

verus! {

/// Whether a word begins at index `i` of `s`: a non-white-space character
/// that is first or follows white space.
pub open spec fn starts_word(s: Seq<char>, i: int) -> bool {
    !is_white_space(s[i]) && (i == 0 || is_white_space(s[i - 1]))
}

/// The number of maximal runs of non-white-space characters in `s`: the
/// items that `str::split_whitespace` yields.
pub open spec fn count_words(s: Seq<char>) -> nat
    decreases s.len(),
{
    if s.len() == 0 {
        0
    } else {
        count_words(s.drop_last()) + if starts_word(s, s.len() - 1) {
            1nat
        } else {
            0nat
        }
    }
}

/// Returns a word count for the given text.
pub fn word_count(text: &str) -> (n: usize)
    ensures
        n == count_words(text@),
{
    let cs = chars_of(text);
    let mut n: usize = 0;
    let mut prev_white = true;
    let mut i: usize = 0;
    while i < cs.len()
        invariant
            i <= cs@.len(),
            cs@ == text@,
            n <= i,
            n == count_words(cs@.take(i as int)),
            prev_white == (i == 0 || is_white_space(cs@[i - 1])),
        decreases cs@.len() - i,
    {
        let white = char_is_whitespace(cs[i]);
        let ghost t = cs@.take(i + 1);
        assert(t.drop_last() =~= cs@.take(i as int));
        assert(starts_word(t, i as int) == starts_word(cs@, i as int));
        if !white && prev_white {
            n = n + 1;
        }
        prev_white = white;
        i = i + 1;
    }
    assert(cs@.take(cs@.len() as int) =~= cs@);
    n
}

proof fn lemma_count_words_after_white(x: Seq<char>, y: Seq<char>)
    requires
        x.len() == 0 || is_white_space(x.last()),
    ensures
        count_words(x + y) == count_words(x) + count_words(y),
    decreases y.len(),
{
    if y.len() == 0 {
        assert(x + y =~= x);
    } else {
        let xy = x + y;
        lemma_count_words_after_white(x, y.drop_last());
        assert(xy.drop_last() =~= x + y.drop_last());
        let k = xy.len() - 1;
        let j = y.len() - 1;
        assert(xy[k] == y[j]);
        if j > 0 {
            assert(xy[k - 1] == y[j - 1]);
        } else if x.len() > 0 {
            assert(xy[k - 1] == x.last());
        }
        assert(starts_word(xy, k) == starts_word(y, j));
    }
}

/// Words never run across a space: the word count of two texts joined by a
/// space is the sum of their word counts.
pub proof fn law_word_count_joined(a: Seq<char>, b: Seq<char>)
    ensures
        count_words(a + seq![' '] + b) == count_words(a) + count_words(b),
{
    let a1 = a + seq![' '];
    assert(a1.drop_last() =~= a);
    assert(!starts_word(a1, a1.len() - 1));
    assert(count_words(a1) == count_words(a));
    lemma_count_words_after_white(a1, b);
}

} // verus!
