//! Splitting a text into lowercase words.
//!
//! The standard library says which characters are letters and which are
//! whitespace, and what the lowercase form of a text is. The rest is done
//! here: from what it says of each character follows which characters
//! separate words, and from those the words.

use vstd::prelude::*;
use crate::unicode::{char_is_alphabetic, char_is_whitespace, push_char, to_lowercase};
use crate::unicode::{is_alphabetic, is_whitespace, lowercase};

verus! {

/// Whether a character separates words, given whether it is a letter,
/// whether it is whitespace, and whether the blank is whitespace. A
/// character that is neither a letter nor whitespace counts as a blank; a
/// character separates words if what it counts as is whitespace.
pub open spec fn separates(alphabetic: bool, whitespace: bool, blank_whitespace: bool) -> bool {
    if alphabetic || whitespace {
        whitespace
    } else {
        blank_whitespace
    }
}

/// Whether `c` separates words.
pub open spec fn is_separator(c: char) -> bool {
    separates(is_alphabetic(c), is_whitespace(c), is_whitespace(' '))
}

/// For each character of `s`, whether it separates words.
pub open spec fn separator_flags(s: Seq<char>) -> Seq<bool> {
    Seq::new(s.len(), |i: int| is_separator(s[i]))
}

/// The runs among the first `n` characters of `s`: the maximal stretches
/// of characters that are not flagged, in the order in which they stand in
/// `s`. A run that reaches the `n`th character ends there.
pub open spec fn runs_upto(s: Seq<char>, flags: Seq<bool>, n: int) -> Seq<Seq<char>>
    decreases n,
{
    if n <= 0 {
        Seq::empty()
    } else {
        let before = runs_upto(s, flags, n - 1);
        if flags[n - 1] {
            before
        } else if n >= 2 && !flags[n - 2] {
            before.drop_last().push(before.last().push(s[n - 1]))
        } else {
            before.push(seq![s[n - 1]])
        }
    }
}

/// The runs of `s`: the maximal stretches of characters that are not
/// flagged.
pub open spec fn runs_of(s: Seq<char>, flags: Seq<bool>) -> Seq<Seq<char>> {
    runs_upto(s, flags, s.len() as int)
}

/// The words of `s`: the maximal stretches of characters that are not
/// separators.
pub open spec fn words_of(s: Seq<char>) -> Seq<Seq<char>> {
    runs_of(s, separator_flags(s))
}

/// The tokens of a text: the words of its lowercase form.
pub open spec fn tokens_of(text: Seq<char>) -> Seq<Seq<char>> {
    words_of(lowercase(text))
}

/// Whether `c` is one of the first `n` characters of `s` and not flagged
/// there.
pub open spec fn stands_unflagged(s: Seq<char>, flags: Seq<bool>, n: int, c: char) -> bool {
    exists|j: int| 0 <= j < n && !flags[j] && #[trigger] s[j] == c
}

/// No run is empty, every character of a run is a character that is not
/// flagged, and where the last of the characters is not flagged there is a
/// run.
pub proof fn lemma_runs(s: Seq<char>, flags: Seq<bool>, n: int)
    requires
        0 <= n <= s.len(),
        flags.len() == s.len(),
    ensures
        forall|k: int|
            0 <= k < runs_upto(s, flags, n).len() ==> (#[trigger] runs_upto(s, flags, n)[k]).len()
                > 0,
        forall|k: int, i: int|
            0 <= k < runs_upto(s, flags, n).len() && 0 <= i < runs_upto(s, flags, n)[k].len()
                ==> stands_unflagged(s, flags, n, #[trigger] runs_upto(s, flags, n)[k][i]),
        n > 0 && !flags[n - 1] ==> runs_upto(s, flags, n).len() > 0,
    decreases n,
{
    if n > 0 {
        lemma_runs(s, flags, n - 1);
        let before = runs_upto(s, flags, n - 1);
        let runs = runs_upto(s, flags, n);
        assert forall|c: char| stands_unflagged(s, flags, n - 1, c) implies stands_unflagged(
            s,
            flags,
            n,
            c,
        ) by {
            let j = choose|j: int| 0 <= j < n - 1 && !flags[j] && #[trigger] s[j] == c;
            assert(0 <= j < n && !flags[j] && s[j] == c);
        }
        if !flags[n - 1] {
            assert(stands_unflagged(s, flags, n, s[n - 1]));
            let grows = n >= 2 && !flags[n - 2];
            assert forall|k: int| 0 <= k < runs.len() implies (#[trigger] runs[k]).len() > 0 by {
                if k < runs.len() - 1 {
                    assert(runs[k] == before[k]);
                }
            }
            assert forall|k: int, i: int|
                0 <= k < runs.len() && 0 <= i < runs[k].len() implies stands_unflagged(
                s,
                flags,
                n,
                #[trigger] runs[k][i],
            ) by {
                if k < runs.len() - 1 {
                    assert(runs[k] == before[k]);
                    assert(stands_unflagged(s, flags, n - 1, before[k][i]));
                } else if grows && i < runs[k].len() - 1 {
                    let last = before.len() - 1;
                    assert(runs[k][i] == before[last][i]);
                    assert(stands_unflagged(s, flags, n - 1, before[last][i]));
                } else {
                    assert(runs[k][i] == s[n - 1]);
                }
            }
        } else {
            assert forall|k: int, i: int|
                0 <= k < runs.len() && 0 <= i < runs[k].len() implies stands_unflagged(
                s,
                flags,
                n,
                #[trigger] runs[k][i],
            ) by {
                assert(stands_unflagged(s, flags, n - 1, before[k][i]));
            }
        }
    }
}

/// No word is empty, and every character of a word is a character of the
/// text that is no separator.
pub proof fn lemma_words(s: Seq<char>)
    ensures
        forall|k: int| 0 <= k < words_of(s).len() ==> (#[trigger] words_of(s)[k]).len() > 0,
        forall|k: int, i: int|
            0 <= k < words_of(s).len() && 0 <= i < words_of(s)[k].len() ==> !is_separator(
                #[trigger] words_of(s)[k][i],
            ),
{
    let flags = separator_flags(s);
    lemma_runs(s, flags, s.len() as int);
    let words = words_of(s);
    assert forall|k: int, i: int|
        0 <= k < words.len() && 0 <= i < words[k].len() implies !is_separator(
        #[trigger] words[k][i],
    ) by {
        assert(stands_unflagged(s, flags, s.len() as int, words[k][i]));
        let j = choose|j: int| 0 <= j < s.len() && !flags[j] && #[trigger] s[j] == words[k][i];
        assert(flags[j] == is_separator(s[j]));
    }
}

/// Whether a character separates words, given what the standard library
/// says of it and of the blank.
pub fn decide_separator(alphabetic: bool, whitespace: bool, blank_whitespace: bool) -> (r: bool)
    ensures
        r == separates(alphabetic, whitespace, blank_whitespace),
{
    if alphabetic || whitespace {
        whitespace
    } else {
        blank_whitespace
    }
}

/// Says of each character of `text` whether it separates words.
pub fn find_separators(text: &str) -> (flags: Vec<bool>)
    ensures
        flags@ == separator_flags(text@),
{
    let mut flags: Vec<bool> = Vec::new();
    let blank_whitespace = char_is_whitespace(' ');
    for c in it: text.chars()
        invariant
            it.seq() == text@,
            blank_whitespace == is_whitespace(' '),
            flags@ == separator_flags(text@.take(it.index() as int)),
    {
        let flag = decide_separator(
            char_is_alphabetic(c),
            char_is_whitespace(c),
            blank_whitespace,
        );
        flags.push(flag);
        assert(flags@ =~= separator_flags(text@.take(it.index() + 1)));
    }
    assert(text@.take(text@.len() as int) =~= text@);
    flags
}

/// Splits `text` into its runs: the maximal stretches of characters that
/// `flags` does not flag. No run is empty.
pub fn split_runs(text: &str, flags: &Vec<bool>) -> (runs: Vec<String>)
    requires
        flags.len() == text@.len(),
    ensures
        runs.deep_view() == runs_of(text@, flags@),
{
    let mut runs: Vec<String> = Vec::new();
    let mut current = String::new();
    let mut i: usize = 0;
    for c in it: text.chars()
        invariant
            it.seq() == text@,
            flags.len() == text@.len(),
            i == it.index(),
            runs_upto(text@, flags@, i as int) == if current@.len() > 0 {
                runs.deep_view().push(current@)
            } else {
                runs.deep_view()
            },
            current@.len() > 0 <==> i > 0 && !flags[i - 1],
    {
        let ghost done = runs.deep_view();
        let ghost run = current@;
        if !flags[i] {
            push_char(&mut current, c);
            proof {
                if run.len() > 0 {
                    assert(done.push(run).drop_last() == done);
                    assert(runs_upto(text@, flags@, i + 1) == done.push(run.push(c)));
                } else {
                    assert(run.push(c) == seq![c]);
                    assert(runs_upto(text@, flags@, i + 1) == done.push(seq![c]));
                }
            }
        } else if !current.as_str().is_empty() {
            runs.push(current);
            current = String::new();
            assert(runs.deep_view() == done.push(run));
        }
        i = i + 1;
    }
    if !current.as_str().is_empty() {
        let ghost done = runs.deep_view();
        let ghost run = current@;
        runs.push(current);
        assert(runs.deep_view() == done.push(run));
    }
    runs
}

/// Splits `text` into its words. Every character that is neither a letter
/// nor whitespace counts as a blank; stretches of blanks and whitespace
/// separate the words, and no word is empty.
pub fn split_words(text: &str) -> (words: Vec<String>)
    ensures
        words.deep_view() == words_of(text@),
{
    let flags = find_separators(text);
    split_runs(text, &flags)
}

/// Splits `text` into its tokens: the words of its lowercase form.
pub fn tokenize(text: &str) -> (tokens: Vec<String>)
    ensures
        tokens.deep_view() == tokens_of(text@),
{
    let lowered = to_lowercase(text);
    split_words(lowered.as_str())
}

} // verus!
