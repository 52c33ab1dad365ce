//! What a batch of tokenized texts says about each word: the mathematical
//! model that the word cache is held to.
//!
//! A batch is a sequence of generations, a generation is a sequence of
//! tokens, and a token is a sequence of characters.

use vstd::prelude::*;
use crate::order::word_lt;
use crate::stop_words::is_retained;

verus! {

/// What the cache records of one word.
pub struct WordInfo {
    /// The word itself.
    pub word: Seq<char>,
    /// How often the word occurs in the batch.
    pub count: nat,
    /// The generations in which the word occurs, ascending.
    pub sentences: Seq<nat>,
    /// The position of each occurrence within its generation, in the order
    /// of the occurrences.
    pub word_indices: Seq<nat>,
}

/// Whether the numbers of `s` grow strictly, so that none occurs twice.
pub open spec fn ascending(s: Seq<nat>) -> bool {
    forall|i: int, j: int| 0 <= i < j < s.len() ==> s[i] < s[j]
}

/// The positions at which `w` stands in `tokens`, ascending.
pub open spec fn positions_in(tokens: Seq<Seq<char>>, w: Seq<char>) -> Seq<nat>
    decreases tokens.len(),
{
    if tokens.len() == 0 {
        Seq::empty()
    } else {
        let before = positions_in(tokens.drop_last(), w);
        if tokens.last() == w {
            before.push((tokens.len() - 1) as nat)
        } else {
            before
        }
    }
}

/// The position of every occurrence of `w` within its generation, generation
/// by generation. Positions start at zero in every generation.
pub open spec fn word_indices(batch: Seq<Seq<Seq<char>>>, w: Seq<char>) -> Seq<nat>
    decreases batch.len(),
{
    if batch.len() == 0 {
        Seq::empty()
    } else {
        word_indices(batch.drop_last(), w) + positions_in(batch.last(), w)
    }
}

/// The indices of the generations that hold `w`, ascending.
pub open spec fn word_sentences(batch: Seq<Seq<Seq<char>>>, w: Seq<char>) -> Seq<nat>
    decreases batch.len(),
{
    if batch.len() == 0 {
        Seq::empty()
    } else {
        let before = word_sentences(batch.drop_last(), w);
        if batch.last().contains(w) {
            before.push((batch.len() - 1) as nat)
        } else {
            before
        }
    }
}

/// How often `w` occurs in the batch.
pub open spec fn word_count(batch: Seq<Seq<Seq<char>>>, w: Seq<char>) -> nat {
    word_indices(batch, w).len()
}

/// What the cache records of `w` once it has taken in `batch`.
pub open spec fn word_info(batch: Seq<Seq<Seq<char>>>, w: Seq<char>) -> WordInfo {
    WordInfo {
        word: w,
        count: word_count(batch, w),
        sentences: word_sentences(batch, w),
        word_indices: word_indices(batch, w),
    }
}

/// Whether the cache of `batch` has an entry for `w`: the word is kept and
/// occurs at least once.
pub open spec fn is_cached(batch: Seq<Seq<Seq<char>>>, w: Seq<char>) -> bool {
    is_retained(w) && word_count(batch, w) > 0
}

/// Whether `entries` is the cache of `batch`: one entry for each word that
/// the batch caches, each holding what the batch says of its word, in
/// ascending order of the words.
pub open spec fn is_cache_of(entries: Seq<WordInfo>, batch: Seq<Seq<Seq<char>>>) -> bool {
    &&& forall|k: int|
        0 <= k < entries.len() ==> is_cached(batch, (#[trigger] entries[k]).word) && entries[k]
            == word_info(batch, entries[k].word)
    &&& forall|j: int, k: int|
        0 <= j < k < entries.len() ==> word_lt(
            (#[trigger] entries[j]).word,
            (#[trigger] entries[k]).word,
        )
    &&& forall|w: Seq<char>| #[trigger]
        is_cached(batch, w) ==> exists|k: int|
            0 <= k < entries.len() && (#[trigger] entries[k]).word == w
}

/// The number of kept tokens among `tokens`.
pub open spec fn retained_in(tokens: Seq<Seq<char>>) -> nat
    decreases tokens.len(),
{
    if tokens.len() == 0 {
        0
    } else {
        retained_in(tokens.drop_last()) + if is_retained(tokens.last()) {
            1nat
        } else {
            0nat
        }
    }
}

/// The number of kept tokens in the whole batch.
pub open spec fn retained_count(batch: Seq<Seq<Seq<char>>>) -> nat
    decreases batch.len(),
{
    if batch.len() == 0 {
        0
    } else {
        retained_count(batch.drop_last()) + retained_in(batch.last())
    }
}

/// The sum of the counts of `entries`.
pub open spec fn total_count(entries: Seq<WordInfo>) -> nat
    decreases entries.len(),
{
    if entries.len() == 0 {
        0
    } else {
        total_count(entries.drop_last()) + entries.last().count
    }
}

/// One more token: its position joins the positions of its own word and of
/// no other.
pub proof fn lemma_positions_push(tokens: Seq<Seq<char>>, x: Seq<char>, w: Seq<char>)
    ensures
        positions_in(tokens.push(x), w) == if x == w {
            positions_in(tokens, w).push(tokens.len())
        } else {
            positions_in(tokens, w)
        },
{
    assert(tokens.push(x).drop_last() == tokens);
}

/// The positions of a word are positions of the generation, strictly
/// ascending, and each holds the word.
pub proof fn lemma_positions_ascending(tokens: Seq<Seq<char>>, w: Seq<char>)
    ensures
        forall|k: int|
            0 <= k < positions_in(tokens, w).len() ==> (#[trigger] positions_in(tokens, w)[k])
                < tokens.len() && tokens[positions_in(tokens, w)[k] as int] == w,
        forall|j: int, k: int|
            0 <= j < k < positions_in(tokens, w).len() ==> positions_in(tokens, w)[j]
                < positions_in(tokens, w)[k],
    decreases tokens.len(),
{
    if tokens.len() > 0 {
        let front = tokens.drop_last();
        lemma_positions_ascending(front, w);
        let before = positions_in(front, w);
        let all = positions_in(tokens, w);
        assert forall|k: int| 0 <= k < all.len() implies (#[trigger] all[k]) < tokens.len()
            && tokens[all[k] as int] == w by {
            if k < before.len() {
                assert(all[k] == before[k]);
                assert(front[before[k] as int] == w);
            }
        }
        assert forall|j: int, k: int| 0 <= j < k < all.len() implies all[j] < all[k] by {
            assert(all[j] == before[j]);
            if k < before.len() {
                assert(all[k] == before[k]);
            }
        }
    }
}

/// A generation holds a word exactly if the word has a position in it.
pub proof fn lemma_positions_contains(tokens: Seq<Seq<char>>, w: Seq<char>)
    ensures
        tokens.contains(w) <==> positions_in(tokens, w).len() > 0,
    decreases tokens.len(),
{
    if tokens.len() > 0 {
        let front = tokens.drop_last();
        lemma_positions_contains(front, w);
        if tokens.contains(w) {
            let i = choose|i: int| 0 <= i < tokens.len() && tokens[i] == w;
            if i < tokens.len() - 1 {
                assert(front[i] == w);
            }
        }
        if front.contains(w) {
            let i = choose|i: int| 0 <= i < front.len() && front[i] == w;
            assert(tokens[i] == w);
        }
    }
}

/// One more generation: its positions follow those of the batch, and its
/// index joins the generations of each word that it holds.
pub proof fn lemma_batch_push(batch: Seq<Seq<Seq<char>>>, tokens: Seq<Seq<char>>, w: Seq<char>)
    ensures
        word_indices(batch.push(tokens), w) == word_indices(batch, w) + positions_in(tokens, w),
        word_sentences(batch.push(tokens), w) == if tokens.contains(w) {
            word_sentences(batch, w).push(batch.len())
        } else {
            word_sentences(batch, w)
        },
{
    assert(batch.push(tokens).drop_last() == batch);
}

/// The generations of a word are indices of the batch, strictly ascending.
pub proof fn lemma_sentences_ascending(batch: Seq<Seq<Seq<char>>>, w: Seq<char>)
    ensures
        forall|k: int|
            0 <= k < word_sentences(batch, w).len() ==> (#[trigger] word_sentences(batch, w)[k])
                < batch.len(),
        forall|j: int, k: int|
            0 <= j < k < word_sentences(batch, w).len() ==> word_sentences(batch, w)[j]
                < word_sentences(batch, w)[k],
    decreases batch.len(),
{
    if batch.len() > 0 {
        lemma_sentences_ascending(batch.drop_last(), w);
        let before = word_sentences(batch.drop_last(), w);
        let all = word_sentences(batch, w);
        assert forall|k: int| 0 <= k < all.len() implies (#[trigger] all[k]) < batch.len() by {
            if k < before.len() {
                assert(all[k] == before[k]);
            }
        }
        assert forall|j: int, k: int| 0 <= j < k < all.len() implies all[j] < all[k] by {
            assert(all[j] == before[j]);
            if k < before.len() {
                assert(all[k] == before[k]);
            }
        }
    }
}

/// The generations of a word are exactly those that hold it.
pub proof fn lemma_sentences_membership(batch: Seq<Seq<Seq<char>>>, w: Seq<char>, i: nat)
    ensures
        word_sentences(batch, w).contains(i) <==> i < batch.len() && batch[i as int].contains(w),
    decreases batch.len(),
{
    if batch.len() > 0 {
        let front = batch.drop_last();
        let last = (batch.len() - 1) as nat;
        lemma_sentences_membership(front, w, i);
        lemma_sentences_ascending(front, w);
        let before = word_sentences(front, w);
        let all = word_sentences(batch, w);
        if all.contains(i) {
            let k = choose|k: int| 0 <= k < all.len() && all[k] == i;
            if k < before.len() {
                assert(before[k] == i);
            }
        }
        if before.contains(i) {
            let k = choose|k: int| 0 <= k < before.len() && before[k] == i;
            assert(all[k] == i);
        }
        if i == last && batch.last().contains(w) {
            assert(all[all.len() - 1] == i);
        }
    }
}

/// A word has a generation exactly if it occurs, and never more generations
/// than occurrences.
pub proof fn lemma_occurs(batch: Seq<Seq<Seq<char>>>, w: Seq<char>)
    ensures
        word_count(batch, w) > 0 <==> word_sentences(batch, w).len() > 0,
        word_sentences(batch, w).len() <= word_count(batch, w),
    decreases batch.len(),
{
    if batch.len() > 0 {
        lemma_occurs(batch.drop_last(), w);
        lemma_positions_contains(batch.last(), w);
    }
}

/// In a cache, the generations of every entry grow strictly, so that none
/// occurs twice; each is a generation of the batch; and they are exactly
/// the generations that hold the word.
pub proof fn lemma_entry_sentences(entries: Seq<WordInfo>, batch: Seq<Seq<Seq<char>>>, k: int)
    requires
        is_cache_of(entries, batch),
        0 <= k < entries.len(),
    ensures
        ascending(entries[k].sentences),
        entries[k].sentences.no_duplicates(),
        forall|i: int|
            0 <= i < entries[k].sentences.len() ==> (#[trigger] entries[k].sentences[i])
                < batch.len(),
        forall|g: nat|
            entries[k].sentences.contains(g) <==> g < batch.len() && batch[g as int].contains(
                entries[k].word,
            ),
{
    let w = entries[k].word;
    assert(entries[k] == word_info(batch, w));
    lemma_sentences_ascending(batch, w);
    assert forall|g: nat|
        entries[k].sentences.contains(g) <==> g < batch.len() && batch[g as int].contains(w) by {
        lemma_sentences_membership(batch, w, g);
    }
}

/// In a cache, every entry holds as many positions as its count says, one
/// for each occurrence; it counts at least one occurrence, and no fewer
/// occurrences than generations.
pub proof fn lemma_entry_count(entries: Seq<WordInfo>, batch: Seq<Seq<Seq<char>>>, k: int)
    requires
        is_cache_of(entries, batch),
        0 <= k < entries.len(),
    ensures
        entries[k].word_indices.len() == entries[k].count,
        entries[k].count >= 1,
        1 <= entries[k].sentences.len() <= entries[k].count,
{
    assert(entries[k] == word_info(batch, entries[k].word));
    lemma_occurs(batch, entries[k].word);
}

/// Two sequences of words in ascending order that hold the same words are
/// the same sequence.
pub proof fn lemma_same_words(a: Seq<Seq<char>>, b: Seq<Seq<char>>)
    requires
        forall|i: int, j: int| 0 <= i < j < a.len() ==> word_lt(#[trigger] a[i], #[trigger] a[j]),
        forall|i: int, j: int| 0 <= i < j < b.len() ==> word_lt(#[trigger] b[i], #[trigger] b[j]),
        forall|w: Seq<char>| a.contains(w) <==> b.contains(w),
    ensures
        a == b,
    decreases a.len(),
{
    if a.len() == 0 {
        if b.len() > 0 {
            assert(b.contains(b[0]));
        }
        assert(a =~= b);
    } else {
        let top = a.last();
        assert(a.contains(top)) by {
            assert(a[a.len() - 1] == top);
        }
        let m = choose|m: int| 0 <= m < b.len() && b[m] == top;
        assert(b.contains(b.last())) by {
            assert(b[b.len() - 1] == b.last());
        }
        let n = choose|n: int| 0 <= n < a.len() && a[n] == b.last();
        // `top` is the last word of `b` too
        assert(b.last() == top) by {
            if m < b.len() - 1 {
                assert(word_lt(b[m], b[b.len() - 1]));
                if n < a.len() - 1 {
                    assert(word_lt(a[n], a[a.len() - 1]));
                }
                crate::order::lemma_word_lt_asymmetric(top, b.last());
            }
        }
        let a_front = a.drop_last();
        let b_front = b.drop_last();
        assert forall|w: Seq<char>| a_front.contains(w) <==> b_front.contains(w) by {
            crate::order::lemma_word_lt_irreflexive(top);
            if a_front.contains(w) {
                let i = choose|i: int| 0 <= i < a_front.len() && a_front[i] == w;
                assert(word_lt(a[i], a[a.len() - 1]));
                assert(a.contains(w)) by {
                    assert(a[i] == w);
                }
                let j = choose|j: int| 0 <= j < b.len() && b[j] == w;
                assert(b_front[j] == w);
            }
            if b_front.contains(w) {
                let j = choose|j: int| 0 <= j < b_front.len() && b_front[j] == w;
                assert(word_lt(b[j], b[b.len() - 1]));
                assert(b.contains(w)) by {
                    assert(b[j] == w);
                }
                let i = choose|i: int| 0 <= i < a.len() && a[i] == w;
                assert(a_front[i] == w);
            }
        }
        assert forall|i: int, j: int| 0 <= i < j < a_front.len() implies word_lt(
            #[trigger] a_front[i],
            #[trigger] a_front[j],
        ) by {
            assert(word_lt(a[i], a[j]));
        }
        assert forall|i: int, j: int| 0 <= i < j < b_front.len() implies word_lt(
            #[trigger] b_front[i],
            #[trigger] b_front[j],
        ) by {
            assert(word_lt(b[i], b[j]));
        }
        lemma_same_words(a_front, b_front);
        assert(a =~= a_front.push(top));
        assert(b =~= b_front.push(top));
    }
}

/// A batch has one cache: what it says of each word and the order of the
/// words leave no choice.
pub proof fn lemma_cache_unique(
    first: Seq<WordInfo>,
    second: Seq<WordInfo>,
    batch: Seq<Seq<Seq<char>>>,
)
    requires
        is_cache_of(first, batch),
        is_cache_of(second, batch),
    ensures
        first == second,
{
    let a = Seq::new(first.len(), |k: int| first[k].word);
    let b = Seq::new(second.len(), |k: int| second[k].word);
    assert forall|i: int, j: int| 0 <= i < j < a.len() implies word_lt(
        #[trigger] a[i],
        #[trigger] a[j],
    ) by {
        assert(word_lt(first[i].word, first[j].word));
    }
    assert forall|i: int, j: int| 0 <= i < j < b.len() implies word_lt(
        #[trigger] b[i],
        #[trigger] b[j],
    ) by {
        assert(word_lt(second[i].word, second[j].word));
    }
    assert forall|w: Seq<char>| a.contains(w) <==> b.contains(w) by {
        if a.contains(w) {
            let i = choose|i: int| 0 <= i < a.len() && a[i] == w;
            assert(is_cached(batch, first[i].word));
            let j = choose|j: int| 0 <= j < second.len() && (#[trigger] second[j]).word == w;
            assert(b[j] == w);
        }
        if b.contains(w) {
            let j = choose|j: int| 0 <= j < b.len() && b[j] == w;
            assert(is_cached(batch, second[j].word));
            let i = choose|i: int| 0 <= i < first.len() && (#[trigger] first[i]).word == w;
            assert(a[i] == w);
        }
    }
    lemma_same_words(a, b);
    assert(a.len() == first.len());
    assert(b.len() == second.len());
    assert forall|k: int| 0 <= k < first.len() implies first[k] == second[k] by {
        assert(a[k] == b[k]);
        assert(first[k] == word_info(batch, first[k].word));
        assert(second[k] == word_info(batch, second[k].word));
    }
    assert(first =~= second);
}

} // verus!
