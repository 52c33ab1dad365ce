//! The entries of the word cache, and how the cache of a batch follows from
//! the cache of the batch without its last token.

use vstd::prelude::*;
use crate::model::{
    is_cache_of, is_cached, lemma_batch_push, lemma_occurs, lemma_positions_contains,
    lemma_positions_push, lemma_sentences_ascending, positions_in, word_indices, word_info,
    word_sentences, WordInfo,
};
use crate::order::{lemma_word_lt_irreflexive, lemma_word_lt_total, lemma_word_lt_transitive, word_lt};
use crate::stop_words::is_retained;

verus! {

/// The numbers of `v` as natural numbers.
pub open spec fn as_nats(v: Seq<usize>) -> Seq<nat> {
    Seq::new(v.len(), |i: int| v[i] as nat)
}

/// What the cache holds of one word.
pub struct WordMetadata {
    /// The word: a lowercase token.
    pub word: String,
    /// How often the word occurs in the batch.
    pub count: usize,
    /// The generations in which the word occurs, ascending.
    pub sentences: Vec<usize>,
    /// The position of each occurrence within its generation, in the order
    /// of the occurrences. Positions start anew in every generation, so the
    /// same position may stand here more than once.
    pub word_indices: Vec<usize>,
}

impl View for WordMetadata {
    type V = WordInfo;

    open spec fn view(&self) -> WordInfo {
        WordInfo {
            word: self.word@,
            count: self.count as nat,
            sentences: as_nats(self.sentences@),
            word_indices: as_nats(self.word_indices@),
        }
    }
}

impl DeepView for WordMetadata {
    type V = WordInfo;

    open spec fn deep_view(&self) -> WordInfo {
        self@
    }
}

impl Clone for WordMetadata {
    fn clone(&self) -> (copy: WordMetadata)
        ensures
            copy@ == self@,
    {
        let copy = WordMetadata {
            word: self.word.clone(),
            count: self.count,
            sentences: self.sentences.clone(),
            word_indices: self.word_indices.clone(),
        };
        assert(copy.sentences@ =~= self.sentences@);
        assert(copy.word_indices@ =~= self.word_indices@);
        copy
    }
}

/// What the cache holds of `x` after one more occurrence of it, at the end
/// of the last generation of a batch of `generations` generations: the count
/// grows by one, the position joins the positions, and the generation joins
/// the generations unless it is the last of them already.
pub open spec fn with_occurrence(info: WordInfo, generations: nat, position: nat) -> WordInfo {
    WordInfo {
        word: info.word,
        count: info.count + 1,
        sentences: if info.sentences.len() > 0 && info.sentences.last() == generations - 1 {
            info.sentences
        } else {
            info.sentences.push((generations - 1) as nat)
        },
        word_indices: info.word_indices.push(position),
    }
}

/// A generation without tokens changes nothing for any word.
pub proof fn lemma_info_empty_generation(batch: Seq<Seq<Seq<char>>>, w: Seq<char>)
    ensures
        word_info(batch.push(Seq::empty()), w) == word_info(batch, w),
{
    let none = Seq::<Seq<char>>::empty();
    lemma_batch_push(batch, none, w);
    assert(word_indices(batch, w) + positions_in(none, w) =~= word_indices(batch, w));
}

/// One more token `x` at the end of the last generation changes what the
/// batch says of `x`, and of no other word.
pub proof fn lemma_info_token(
    batch: Seq<Seq<Seq<char>>>,
    tokens: Seq<Seq<char>>,
    x: Seq<char>,
    w: Seq<char>,
)
    ensures
        w != x ==> word_info(batch.push(tokens.push(x)), w) == word_info(batch.push(tokens), w),
        word_info(batch.push(tokens.push(x)), x) == with_occurrence(
            word_info(batch.push(tokens), x),
            batch.len() + 1,
            tokens.len(),
        ),
{
    let longer = tokens.push(x);
    lemma_batch_push(batch, tokens, w);
    lemma_batch_push(batch, longer, w);
    lemma_positions_push(tokens, x, w);
    lemma_positions_contains(tokens, w);
    lemma_positions_contains(longer, w);
    lemma_batch_push(batch, tokens, x);
    lemma_batch_push(batch, longer, x);
    lemma_positions_push(tokens, x, x);
    lemma_positions_contains(tokens, x);
    lemma_positions_contains(longer, x);
    lemma_sentences_ascending(batch, x);
    assert(word_indices(batch, x) + positions_in(tokens, x).push(tokens.len())
        =~= (word_indices(batch, x) + positions_in(tokens, x)).push(tokens.len()));
    let before = word_sentences(batch, x);
    if !tokens.contains(x) && before.len() > 0 {
        assert(before.last() == before[before.len() - 1]);
    }
}

/// The cache of a batch is the cache of the batch with one more generation
/// that has no tokens yet.
pub proof fn lemma_cache_empty_generation(entries: Seq<WordInfo>, batch: Seq<Seq<Seq<char>>>)
    requires
        is_cache_of(entries, batch),
    ensures
        is_cache_of(entries, batch.push(Seq::empty())),
{
    let longer = batch.push(Seq::<Seq<char>>::empty());
    assert forall|k: int| 0 <= k < entries.len() implies is_cached(
        longer,
        (#[trigger] entries[k]).word,
    ) && entries[k] == word_info(longer, entries[k].word) by {
        lemma_info_empty_generation(batch, entries[k].word);
    }
    assert forall|w: Seq<char>| #[trigger] is_cached(longer, w) implies exists|k: int|
        0 <= k < entries.len() && (#[trigger] entries[k]).word == w by {
        lemma_info_empty_generation(batch, w);
        assert(is_cached(batch, w));
    }
}

/// A token that is not kept leaves the cache as it is.
pub proof fn lemma_cache_skip_token(
    entries: Seq<WordInfo>,
    batch: Seq<Seq<Seq<char>>>,
    tokens: Seq<Seq<char>>,
    x: Seq<char>,
)
    requires
        is_cache_of(entries, batch.push(tokens)),
        !is_retained(x),
    ensures
        is_cache_of(entries, batch.push(tokens.push(x))),
{
    let shorter = batch.push(tokens);
    let longer = batch.push(tokens.push(x));
    assert forall|k: int| 0 <= k < entries.len() implies is_cached(
        longer,
        (#[trigger] entries[k]).word,
    ) && entries[k] == word_info(longer, entries[k].word) by {
        lemma_info_token(batch, tokens, x, entries[k].word);
    }
    assert forall|w: Seq<char>| #[trigger] is_cached(longer, w) implies exists|k: int|
        0 <= k < entries.len() && (#[trigger] entries[k]).word == w by {
        lemma_info_token(batch, tokens, x, w);
        assert(is_cached(shorter, w));
    }
}

/// A kept token whose word has an entry: the entry takes the occurrence in,
/// and the others stay.
pub proof fn lemma_cache_count_token(
    entries: Seq<WordInfo>,
    batch: Seq<Seq<Seq<char>>>,
    tokens: Seq<Seq<char>>,
    x: Seq<char>,
    k: int,
)
    requires
        is_cache_of(entries, batch.push(tokens)),
        0 <= k < entries.len(),
        entries[k].word == x,
    ensures
        is_cache_of(
            entries.update(k, with_occurrence(entries[k], batch.len() + 1, tokens.len())),
            batch.push(tokens.push(x)),
        ),
{
    let shorter = batch.push(tokens);
    let longer = batch.push(tokens.push(x));
    let updated = entries.update(k, with_occurrence(entries[k], batch.len() + 1, tokens.len()));
    assert forall|j: int| 0 <= j < updated.len() implies is_cached(
        longer,
        (#[trigger] updated[j]).word,
    ) && updated[j] == word_info(longer, updated[j].word) by {
        lemma_info_token(batch, tokens, x, entries[j].word);
        if j != k {
            // another entry holds another word
            lemma_word_lt_irreflexive(x);
            assert(word_lt(entries[j].word, entries[k].word) || word_lt(
                entries[k].word,
                entries[j].word,
            ));
        }
    }
    assert forall|i: int, j: int| 0 <= i < j < updated.len() implies word_lt(
        (#[trigger] updated[i]).word,
        (#[trigger] updated[j]).word,
    ) by {
        assert(updated[i].word == entries[i].word);
        assert(updated[j].word == entries[j].word);
    }
    assert forall|w: Seq<char>| #[trigger] is_cached(longer, w) implies exists|j: int|
        0 <= j < updated.len() && (#[trigger] updated[j]).word == w by {
        if w == x {
            assert(updated[k].word == w);
        } else {
            lemma_info_token(batch, tokens, x, w);
            assert(is_cached(shorter, w));
            let j = choose|j: int| 0 <= j < entries.len() && (#[trigger] entries[j]).word == w;
            assert(updated[j].word == w);
        }
    }
}

/// What the cache holds of a word at its first occurrence.
pub open spec fn first_occurrence(x: Seq<char>, generations: nat, position: nat) -> WordInfo {
    WordInfo {
        word: x,
        count: 1,
        sentences: seq![(generations - 1) as nat],
        word_indices: seq![position],
    }
}

/// A kept token whose word has no entry: a new entry takes its place in the
/// order of the words, and the others stay.
pub proof fn lemma_cache_new_word(
    entries: Seq<WordInfo>,
    batch: Seq<Seq<Seq<char>>>,
    tokens: Seq<Seq<char>>,
    x: Seq<char>,
    k: int,
)
    requires
        is_cache_of(entries, batch.push(tokens)),
        is_retained(x),
        0 <= k <= entries.len(),
        forall|j: int| 0 <= j < k ==> word_lt((#[trigger] entries[j]).word, x),
        k < entries.len() ==> !word_lt(entries[k].word, x) && entries[k].word != x,
    ensures
        is_cache_of(
            entries.insert(k, first_occurrence(x, batch.len() + 1, tokens.len())),
            batch.push(tokens.push(x)),
        ),
{
    let shorter = batch.push(tokens);
    let longer = batch.push(tokens.push(x));
    let fresh = first_occurrence(x, batch.len() + 1, tokens.len());
    let grown = entries.insert(k, fresh);
    // every entry from `k` on stands after `x`
    assert forall|j: int| k <= j < entries.len() implies word_lt(
        x,
        (#[trigger] entries[j]).word,
    ) by {
        lemma_word_lt_total(entries[k].word, x);
        if j > k {
            lemma_word_lt_transitive(x, entries[k].word, entries[j].word);
        }
    }
    // so `x` has no entry, and has not occurred
    assert(!is_cached(shorter, x)) by {
        if is_cached(shorter, x) {
            let j = choose|j: int| 0 <= j < entries.len() && (#[trigger] entries[j]).word == x;
            lemma_word_lt_irreflexive(x);
        }
    }
    lemma_occurs(shorter, x);
    lemma_info_token(batch, tokens, x, x);
    assert(word_info(shorter, x).sentences =~= Seq::<nat>::empty());
    assert(word_info(shorter, x).word_indices =~= Seq::<nat>::empty());
    assert(word_info(longer, x).sentences =~= fresh.sentences);
    assert(word_info(longer, x).word_indices =~= fresh.word_indices);
    assert(word_info(longer, x) == fresh);
    assert forall|j: int| 0 <= j < grown.len() implies is_cached(
        longer,
        (#[trigger] grown[j]).word,
    ) && grown[j] == word_info(longer, grown[j].word) by {
        if j < k {
            lemma_info_token(batch, tokens, x, entries[j].word);
            lemma_word_lt_irreflexive(x);
        } else if j > k {
            assert(grown[j] == entries[j - 1]);
            lemma_info_token(batch, tokens, x, entries[j - 1].word);
            lemma_word_lt_irreflexive(x);
        }
    }
    assert forall|i: int, j: int| 0 <= i < j < grown.len() implies word_lt(
        (#[trigger] grown[i]).word,
        (#[trigger] grown[j]).word,
    ) by {
        if j > k {
            assert(grown[j] == entries[j - 1]);
            if i > k {
                assert(grown[i] == entries[i - 1]);
            }
        }
    }
    assert forall|w: Seq<char>| #[trigger] is_cached(longer, w) implies exists|j: int|
        0 <= j < grown.len() && (#[trigger] grown[j]).word == w by {
        if w == x {
            assert(grown[k].word == w);
        } else {
            lemma_info_token(batch, tokens, x, w);
            assert(is_cached(shorter, w));
            let j = choose|j: int| 0 <= j < entries.len() && (#[trigger] entries[j]).word == w;
            if j < k {
                assert(grown[j].word == w);
            } else {
                assert(grown[j + 1] == entries[j]);
            }
        }
    }
}

} // verus!
