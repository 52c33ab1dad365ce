//! Why the counts of a cache add up to the number of kept tokens of its
//! batch: every kept token is counted by the entry of its word, and by no
//! other.

use vstd::prelude::*;
use crate::model::{
    is_cache_of, is_cached, lemma_batch_push, lemma_occurs, lemma_positions_push,
    lemma_sentences_membership, positions_in, retained_count, retained_in, total_count,
    word_count, WordInfo,
};
use crate::order::lemma_word_lt_irreflexive;
use crate::stop_words::is_retained;

verus! {

/// The words of the entries, in the order of the entries.
pub open spec fn words_of_entries(entries: Seq<WordInfo>) -> Seq<Seq<char>> {
    Seq::new(entries.len(), |k: int| entries[k].word)
}

/// How many of `tokens` are among `words`.
pub open spec fn members_in(words: Seq<Seq<char>>, tokens: Seq<Seq<char>>) -> nat
    decreases tokens.len(),
{
    if tokens.len() == 0 {
        0
    } else {
        members_in(words, tokens.drop_last()) + if words.contains(tokens.last()) {
            1nat
        } else {
            0nat
        }
    }
}

/// How many tokens of the batch are among `words`.
pub open spec fn members_in_batch(words: Seq<Seq<char>>, batch: Seq<Seq<Seq<char>>>) -> nat
    decreases batch.len(),
{
    if batch.len() == 0 {
        0
    } else {
        members_in_batch(words, batch.drop_last()) + members_in(words, batch.last())
    }
}

/// The number of positions that the words of `words` have in `tokens`,
/// added up word by word.
pub open spec fn positions_sum(words: Seq<Seq<char>>, tokens: Seq<Seq<char>>) -> nat
    decreases words.len(),
{
    if words.len() == 0 {
        0
    } else {
        positions_sum(words.drop_last(), tokens) + positions_in(tokens, words.last()).len()
    }
}

/// The counts that the words of `words` have in the batch, added up word by
/// word.
pub open spec fn counts_sum(words: Seq<Seq<char>>, batch: Seq<Seq<Seq<char>>>) -> nat
    decreases words.len(),
{
    if words.len() == 0 {
        0
    } else {
        counts_sum(words.drop_last(), batch) + word_count(batch, words.last())
    }
}

/// One more token adds one position to the sum if it is among the words,
/// which are all different, and none if it is not.
proof fn lemma_positions_sum_push(words: Seq<Seq<char>>, tokens: Seq<Seq<char>>, x: Seq<char>)
    requires
        words.no_duplicates(),
    ensures
        positions_sum(words, tokens.push(x)) == positions_sum(words, tokens) + if words.contains(
            x,
        ) {
            1nat
        } else {
            0nat
        },
    decreases words.len(),
{
    if words.len() > 0 {
        let front = words.drop_last();
        let w = words.last();
        lemma_positions_sum_push(front, tokens, x);
        lemma_positions_push(tokens, x, w);
        if front.contains(x) {
            let k = choose|k: int| 0 <= k < front.len() && front[k] == x;
            assert(words[k] == x);
            assert(words.contains(x));
            assert(w != x);
        } else if w == x {
            assert(words[words.len() - 1] == x);
        } else if words.contains(x) {
            let k = choose|k: int| 0 <= k < words.len() && words[k] == x;
            assert(front[k] == x);
        }
    }
}

/// Without tokens there are no positions.
proof fn lemma_positions_sum_empty(words: Seq<Seq<char>>)
    ensures
        positions_sum(words, Seq::empty()) == 0,
    decreases words.len(),
{
    if words.len() > 0 {
        lemma_positions_sum_empty(words.drop_last());
    }
}

/// Different words have as many positions in all as there are tokens among
/// them.
proof fn lemma_positions_sum_members(words: Seq<Seq<char>>, tokens: Seq<Seq<char>>)
    requires
        words.no_duplicates(),
    ensures
        positions_sum(words, tokens) == members_in(words, tokens),
    decreases tokens.len(),
{
    if tokens.len() == 0 {
        assert(tokens =~= Seq::empty());
        lemma_positions_sum_empty(words);
    } else {
        lemma_positions_sum_members(words, tokens.drop_last());
        lemma_positions_sum_push(words, tokens.drop_last(), tokens.last());
        assert(tokens.drop_last().push(tokens.last()) =~= tokens);
    }
}

/// One more generation adds its positions to the counts.
proof fn lemma_counts_sum_push(
    words: Seq<Seq<char>>,
    batch: Seq<Seq<Seq<char>>>,
    tokens: Seq<Seq<char>>,
)
    ensures
        counts_sum(words, batch.push(tokens)) == counts_sum(words, batch) + positions_sum(
            words,
            tokens,
        ),
    decreases words.len(),
{
    if words.len() > 0 {
        lemma_counts_sum_push(words.drop_last(), batch, tokens);
        lemma_batch_push(batch, tokens, words.last());
    }
}

/// Without generations every count is zero.
proof fn lemma_counts_sum_empty(words: Seq<Seq<char>>)
    ensures
        counts_sum(words, Seq::empty()) == 0,
    decreases words.len(),
{
    if words.len() > 0 {
        lemma_counts_sum_empty(words.drop_last());
    }
}

/// The counts of different words add up to the number of tokens that are
/// among them.
pub proof fn lemma_counts_sum_members(words: Seq<Seq<char>>, batch: Seq<Seq<Seq<char>>>)
    requires
        words.no_duplicates(),
    ensures
        counts_sum(words, batch) == members_in_batch(words, batch),
    decreases batch.len(),
{
    if batch.len() == 0 {
        assert(batch =~= Seq::empty());
        lemma_counts_sum_empty(words);
    } else {
        lemma_counts_sum_members(words, batch.drop_last());
        lemma_counts_sum_push(words, batch.drop_last(), batch.last());
        lemma_positions_sum_members(words, batch.last());
        assert(batch.drop_last().push(batch.last()) =~= batch);
    }
}

/// Where the words are exactly the kept ones among the tokens, the tokens
/// among the words are the kept tokens.
proof fn lemma_members_retained(words: Seq<Seq<char>>, tokens: Seq<Seq<char>>)
    requires
        forall|j: int|
            0 <= j < tokens.len() ==> (words.contains(#[trigger] tokens[j]) <==> is_retained(
                tokens[j],
            )),
    ensures
        members_in(words, tokens) == retained_in(tokens),
    decreases tokens.len(),
{
    if tokens.len() > 0 {
        let front = tokens.drop_last();
        assert forall|j: int| 0 <= j < front.len() implies (words.contains(#[trigger] front[j])
            <==> is_retained(front[j])) by {
            assert(front[j] == tokens[j]);
        }
        lemma_members_retained(words, front);
        assert(tokens.last() == tokens[tokens.len() - 1]);
    }
}

/// The same, generation by generation.
proof fn lemma_members_retained_batch(words: Seq<Seq<char>>, batch: Seq<Seq<Seq<char>>>)
    requires
        forall|i: int, j: int|
            0 <= i < batch.len() && 0 <= j < batch[i].len() ==> (words.contains(
                #[trigger] batch[i][j],
            ) <==> is_retained(batch[i][j])),
    ensures
        members_in_batch(words, batch) == retained_count(batch),
    decreases batch.len(),
{
    if batch.len() > 0 {
        let front = batch.drop_last();
        assert forall|i: int, j: int| 0 <= i < front.len() && 0 <= j < front[i].len() implies (
        words.contains(#[trigger] front[i][j]) <==> is_retained(front[i][j])) by {
            assert(front[i] == batch[i]);
            assert(front[i][j] == batch[i][j]);
        }
        lemma_members_retained_batch(words, front);
        let last = batch.last();
        assert forall|j: int| 0 <= j < last.len() implies (words.contains(#[trigger] last[j])
            <==> is_retained(last[j])) by {
            assert(last[j] == batch[batch.len() - 1][j]);
        }
        lemma_members_retained(words, last);
    }
}

/// The counts of entries that hold what the batch says of their words are
/// the counts of those words.
proof fn lemma_total_is_counts_sum(entries: Seq<WordInfo>, batch: Seq<Seq<Seq<char>>>)
    requires
        forall|k: int|
            0 <= k < entries.len() ==> (#[trigger] entries[k]).count == word_count(
                batch,
                entries[k].word,
            ),
    ensures
        total_count(entries) == counts_sum(words_of_entries(entries), batch),
    decreases entries.len(),
{
    if entries.len() > 0 {
        let front = entries.drop_last();
        assert forall|k: int| 0 <= k < front.len() implies (#[trigger] front[k]).count
            == word_count(batch, front[k].word) by {
            assert(front[k] == entries[k]);
        }
        lemma_total_is_counts_sum(front, batch);
        assert(words_of_entries(entries).drop_last() =~= words_of_entries(front));
        assert(words_of_entries(entries).last() == entries.last().word);
        assert(entries.last() == entries[entries.len() - 1]);
    }
}

/// Every kept token increments exactly one count by one: the counts of a
/// cache add up to the number of kept tokens of its batch.
pub proof fn lemma_total_count(entries: Seq<WordInfo>, batch: Seq<Seq<Seq<char>>>)
    requires
        is_cache_of(entries, batch),
    ensures
        total_count(entries) == retained_count(batch),
{
    let words = words_of_entries(entries);
    assert(words.no_duplicates()) by {
        assert forall|i: int, j: int| 0 <= i < words.len() && 0 <= j < words.len() && i
            != j implies words[i] != words[j] by {
            lemma_word_lt_irreflexive(words[i]);
            assert(entries[i].word == words[i]);
            assert(entries[j].word == words[j]);
        }
    }
    assert forall|i: int, j: int| 0 <= i < batch.len() && 0 <= j < batch[i].len() implies (
    words.contains(#[trigger] batch[i][j]) <==> is_retained(batch[i][j])) by {
        let x = batch[i][j];
        if words.contains(x) {
            let k = choose|k: int| 0 <= k < words.len() && words[k] == x;
            assert(entries[k].word == x);
        }
        if is_retained(x) {
            assert(batch[i].contains(x));
            lemma_sentences_membership(batch, x, i as nat);
            lemma_occurs(batch, x);
            assert(is_cached(batch, x));
            let k = choose|k: int| 0 <= k < entries.len() && (#[trigger] entries[k]).word == x;
            assert(words[k] == x);
        }
    }
    lemma_total_is_counts_sum(entries, batch);
    lemma_counts_sum_members(words, batch);
    lemma_members_retained_batch(words, batch);
}

} // verus!
