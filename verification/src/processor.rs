//! The processor: it owns the word cache, rebuilds it from each batch of
//! generations, and answers queries about the batch it took in last.

use vstd::prelude::*;
use crate::cache::{
    first_occurrence, lemma_cache_count_token, lemma_cache_empty_generation,
    lemma_cache_new_word, lemma_cache_skip_token, with_occurrence, WordMetadata,
};
use crate::graph::{
    build_links, build_nodes, graph_of, lemma_node_entry, sum_counts, GraphData,
};
use crate::model::{
    ascending, is_cache_of, lemma_entry_count, lemma_entry_sentences, lemma_sentences_ascending,
    retained_count, total_count, WordInfo,
};
use crate::order::{lemma_word_lt_irreflexive, lemma_word_lt_transitive, word_less, word_lt};
use crate::stop_words::{contains_word, stop_word_list, stop_words};
use crate::tokenizer::{tokenize, tokens_of};
use crate::totals::lemma_total_count;

verus! {

/// The tokens of each text of `texts`.
pub open spec fn tokenized(texts: Seq<Seq<char>>) -> Seq<Seq<Seq<char>>> {
    Seq::new(texts.len(), |i: int| tokens_of(texts[i]))
}

/// The totals of a batch.
pub struct PerformanceStats {
    /// The sum of the counts of all cached words.
    pub total_words: u128,
    /// The number of cached words.
    pub unique_words: usize,
    /// The number of generations of the batch.
    pub generations: usize,
    /// The words per generation, rounded down. A batch without generations
    /// has no average, and this is `None`.
    pub whole_words_per_generation: Option<u128>,
}

/// A text processor. Its cache is rebuilt from nothing by every batch, and
/// between two batches nothing changes it.
pub struct TextProcessor {
    word_cache: Vec<WordMetadata>,
    stop_words: Vec<String>,
    generation_count: usize,
    batch: Ghost<Seq<Seq<Seq<char>>>>,
}

impl TextProcessor {
    /// The entries of the cache, in ascending order of their words.
    pub closed spec fn entries(&self) -> Seq<WordInfo> {
        self.word_cache.deep_view()
    }

    /// The tokens of the generations that the cache was built from.
    pub closed spec fn batch(&self) -> Seq<Seq<Seq<char>>> {
        self.batch@
    }

    /// The number of generations of the batch taken in last.
    pub closed spec fn generations(&self) -> nat {
        self.generation_count as nat
    }

    /// The stop words that the processor holds.
    pub closed spec fn stop_list(&self) -> Seq<Seq<char>> {
        self.stop_words.deep_view()
    }

    /// What holds while a batch is taken in: the cache is the cache of the
    /// generations recorded so far.
    pub open spec fn building(&self) -> bool {
        &&& self.stop_list() == stop_word_list()
        &&& is_cache_of(self.entries(), self.batch())
        &&& self.batch().len() <= self.generations()
    }

    /// What holds between two batches: the cache is the cache of the whole
    /// batch taken in last.
    pub open spec fn wf(&self) -> bool {
        &&& self.building()
        &&& self.batch().len() == self.generations()
    }

    /// A processor that has taken in nothing yet.
    pub fn new() -> (processor: TextProcessor)
        ensures
            processor.wf(),
            processor.batch() == Seq::<Seq<Seq<char>>>::empty(),
            processor.entries() == Seq::<WordInfo>::empty(),
            processor.generations() == 0,
    {
        let processor = TextProcessor {
            word_cache: Vec::new(),
            stop_words: stop_words(),
            generation_count: 0,
            batch: Ghost(Seq::empty()),
        };
        assert(processor.word_cache.deep_view() =~= Seq::<WordInfo>::empty());
        processor
    }

    /// Forgets the last batch and announces one of `generation_count`
    /// generations.
    fn reset(&mut self, generation_count: usize)
        requires
            old(self).stop_list() == stop_word_list(),
        ensures
            final(self).building(),
            final(self).batch() == Seq::<Seq<Seq<char>>>::empty(),
            final(self).generations() == generation_count,
    {
        self.generation_count = generation_count;
        self.word_cache.clear();
        self.batch = Ghost(Seq::empty());
        assert(self.word_cache.deep_view() =~= Seq::<WordInfo>::empty());
    }

    /// The place of `word` in the cache: the index of its entry if it has
    /// one, and else the index at which its entry belongs.
    fn find_slot(&self, word: &String) -> (k: usize)
        requires
            self.building(),
        ensures
            k <= self.entries().len(),
            forall|j: int| 0 <= j < k ==> word_lt((#[trigger] self.entries()[j]).word, word@),
            forall|j: int|
                k <= j < self.entries().len() ==> !word_lt(
                    (#[trigger] self.entries()[j]).word,
                    word@,
                ),
    {
        let ghost entries = self.word_cache.deep_view();
        let mut low: usize = 0;
        let mut high: usize = self.word_cache.len();
        while low < high
            invariant
                low <= high <= entries.len(),
                entries == self.word_cache.deep_view(),
                entries.len() == self.word_cache.len(),
                forall|i: int, j: int|
                    0 <= i < j < entries.len() ==> word_lt(
                        (#[trigger] entries[i]).word,
                        (#[trigger] entries[j]).word,
                    ),
                forall|j: int| 0 <= j < low ==> word_lt((#[trigger] entries[j]).word, word@),
                forall|j: int|
                    high <= j < entries.len() ==> !word_lt((#[trigger] entries[j]).word, word@),
            decreases high - low,
        {
            let middle = low + (high - low) / 2;
            assert(entries[middle as int].word == self.word_cache[middle as int].word@);
            if word_less(self.word_cache[middle].word.as_str(), word.as_str()) {
                assert forall|j: int| 0 <= j < middle + 1 implies word_lt(
                    (#[trigger] entries[j]).word,
                    word@,
                ) by {
                    if j < middle {
                        lemma_word_lt_transitive(entries[j].word, entries[middle as int].word, word@);
                    }
                }
                low = middle + 1;
            } else {
                assert forall|j: int| middle <= j < entries.len() implies !word_lt(
                    (#[trigger] entries[j]).word,
                    word@,
                ) by {
                    if j > middle && word_lt(entries[j].word, word@) {
                        lemma_word_lt_transitive(entries[middle as int].word, entries[j].word, word@);
                    }
                }
                high = middle;
            }
        }
        low
    }

    /// Records the token `word`, which stands at position `word_idx` of
    /// generation `sent_idx`, the last generation recorded so far.
    fn record_token(&mut self, word: &String, sent_idx: usize, word_idx: usize)
        requires
            old(self).building(),
            old(self).batch().len() > 0,
            sent_idx == old(self).batch().len() - 1,
            word_idx == old(self).batch().last().len(),
        ensures
            final(self).building(),
            final(self).batch() == old(self).batch().drop_last().push(
                old(self).batch().last().push(word@),
            ),
            final(self).generations() == old(self).generations(),
    {
        let ghost before = self.batch@.drop_last();
        let ghost tokens = self.batch@.last();
        let ghost entries = self.word_cache.deep_view();
        assert(self.batch@ =~= before.push(tokens));
        if word.as_str().unicode_len() > 2 && !contains_word(&self.stop_words, word) {
            let k = self.find_slot(word);
            if k < self.word_cache.len() && self.word_cache[k].word == *word {
                let ghost held = self.word_cache[k as int];
                assert(entries[k as int] == held@);
                let entry = &mut self.word_cache[k];
                entry.word_indices.push(word_idx);
                assert(entry.count + 1 == entry.word_indices.len());
                entry.count = entry.count + 1;
                // the generations ascend: only the last of them can be this one
                let n = entry.sentences.len();
                if n == 0 || entry.sentences[n - 1] != sent_idx {
                    entry.sentences.push(sent_idx);
                }
                proof {
                    let now = self.word_cache[k as int];
                    lemma_cache_count_token(entries, before, tokens, word@, k as int);
                    let expected = with_occurrence(held@, before.len() + 1, tokens.len());
                    assert(now@.word_indices =~= expected.word_indices);
                    assert(now@.sentences =~= expected.sentences);
                    assert(now@ == expected);
                    assert(self.word_cache.deep_view() =~= entries.update(k as int, expected));
                }
            } else {
                let mut sentences: Vec<usize> = Vec::new();
                sentences.push(sent_idx);
                let mut word_indices: Vec<usize> = Vec::new();
                word_indices.push(word_idx);
                let entry = WordMetadata { word: word.clone(), count: 1, sentences, word_indices };
                proof {
                    lemma_cache_new_word(entries, before, tokens, word@, k as int);
                    let expected = first_occurrence(word@, before.len() + 1, tokens.len());
                    assert(entry@.sentences =~= expected.sentences);
                    assert(entry@.word_indices =~= expected.word_indices);
                    assert(entry@ == expected);
                }
                self.word_cache.insert(k, entry);
                assert(self.word_cache.deep_view() =~= entries.insert(
                    k as int,
                    first_occurrence(word@, before.len() + 1, tokens.len()),
                ));
            }
        } else {
            proof {
                lemma_cache_skip_token(entries, before, tokens, word@);
            }
        }
        self.batch = Ghost(before.push(tokens.push(word@)));
    }

    /// Records the tokens of generation `sent_idx`, the next generation of
    /// the batch that is being taken in.
    fn record_words(&mut self, words: &Vec<String>, sent_idx: usize)
        requires
            old(self).building(),
            sent_idx == old(self).batch().len(),
            sent_idx < old(self).generations(),
        ensures
            final(self).building(),
            final(self).batch() == old(self).batch().push(words.deep_view()),
            final(self).generations() == old(self).generations(),
    {
        let ghost before = self.batch@;
        proof {
            lemma_cache_empty_generation(self.word_cache.deep_view(), before);
        }
        self.batch = Ghost(before.push(Seq::empty()));
        assert(words.deep_view().take(0) =~= Seq::<Seq<char>>::empty());
        let mut word_idx: usize = 0;
        while word_idx < words.len()
            invariant
                word_idx <= words.len(),
                self.building(),
                self.batch() == before.push(words.deep_view().take(word_idx as int)),
                self.generations() == old(self).generations(),
                sent_idx == before.len(),
            decreases words.len() - word_idx,
        {
            let ghost seen = words.deep_view().take(word_idx as int);
            self.record_token(&words[word_idx], sent_idx, word_idx);
            proof {
                assert(before.push(seen).drop_last() == before);
                assert(seen.push(words[word_idx as int]@) == words.deep_view().take(
                    word_idx + 1,
                ));
            }
            word_idx = word_idx + 1;
        }
        proof {
            assert(words.deep_view().take(words.len() as int) == words.deep_view());
        }
    }

    /// Splits a text into its tokens: lowercase words without punctuation
    /// and digits.
    pub fn tokenize_sentence(&self, sentence: &str) -> (tokens: Vec<String>)
        ensures
            tokens.deep_view() == tokens_of(sentence@),
    {
        tokenize(sentence)
    }

    /// Tokenizes generation `sent_idx` and records its tokens.
    fn process_sentence(&mut self, sentence: &str, sent_idx: usize)
        requires
            old(self).building(),
            sent_idx == old(self).batch().len(),
            sent_idx < old(self).generations(),
        ensures
            final(self).building(),
            final(self).batch() == old(self).batch().push(tokens_of(sentence@)),
            final(self).generations() == old(self).generations(),
    {
        let words = self.tokenize_sentence(sentence);
        self.record_words(&words, sent_idx);
    }

    /// The entries of the cache, in ascending order of their words.
    pub fn words(&self) -> (words: Vec<WordMetadata>)
        ensures
            words.deep_view() == self.entries(),
    {
        let mut words: Vec<WordMetadata> = Vec::new();
        let mut k: usize = 0;
        while k < self.word_cache.len()
            invariant
                k <= self.word_cache.len(),
                words.deep_view() == self.word_cache.deep_view().take(k as int),
            decreases self.word_cache.len() - k,
        {
            let ghost copied = words.deep_view();
            let entry = self.word_cache[k].clone();
            words.push(entry);
            assert(words.deep_view() =~= copied.push(entry@));
            assert(self.word_cache.deep_view().take(k + 1) =~= copied.push(entry@));
            k = k + 1;
        }
        assert(self.word_cache.deep_view().take(k as int) == self.word_cache.deep_view());
        words
    }

    /// Takes in a batch of generations: forgets the last batch, tokenizes
    /// each generation and records its tokens. Returns the entries of the
    /// new cache.
    pub fn tokenize_generations(&mut self, generations: &Vec<String>) -> (words: Vec<WordMetadata>)
        requires
            old(self).wf(),
        ensures
            final(self).wf(),
            final(self).batch() == tokenized(generations.deep_view()),
            final(self).generations() == generations.len(),
            total_count(final(self).entries()) == retained_count(final(self).batch()),
            words.deep_view() == final(self).entries(),
    {
        self.reset(generations.len());
        let mut sent_idx: usize = 0;
        while sent_idx < generations.len()
            invariant
                sent_idx <= generations.len(),
                self.building(),
                self.generations() == generations.len(),
                self.batch() == tokenized(generations.deep_view()).take(sent_idx as int),
            decreases generations.len() - sent_idx,
        {
            self.process_sentence(generations[sent_idx].as_str(), sent_idx);
            sent_idx = sent_idx + 1;
        }
        assert(self.batch() == tokenized(generations.deep_view()));
        proof {
            lemma_total_count(self.entries(), self.batch());
        }
        self.words()
    }

    /// Takes in a batch of generations that are split into tokens already:
    /// forgets the last batch and records the tokens of each generation.
    /// Returns the entries of the new cache.
    pub fn ingest_tokens(&mut self, batch: &Vec<Vec<String>>) -> (words: Vec<WordMetadata>)
        requires
            old(self).wf(),
        ensures
            final(self).wf(),
            final(self).batch() == batch.deep_view(),
            final(self).generations() == batch.len(),
            total_count(final(self).entries()) == retained_count(final(self).batch()),
            words.deep_view() == final(self).entries(),
    {
        self.reset(batch.len());
        let mut sent_idx: usize = 0;
        while sent_idx < batch.len()
            invariant
                sent_idx <= batch.len(),
                self.building(),
                self.generations() == batch.len(),
                self.batch() == batch.deep_view().take(sent_idx as int),
            decreases batch.len() - sent_idx,
        {
            self.record_words(&batch[sent_idx], sent_idx);
            sent_idx = sent_idx + 1;
        }
        assert(self.batch() == batch.deep_view());
        proof {
            lemma_total_count(self.entries(), self.batch());
        }
        self.words()
    }

    /// Builds the graph of the words that count at least `min_frequency`
    /// occurrences. The nodes stand in ascending order of their words; the
    /// totals are those of the whole cache, whatever `min_frequency` is.
    /// Every two nodes are compared, so the work grows with the square of
    /// their number: choose `min_frequency` with the size of the vocabulary
    /// in mind.
    pub fn build_word_graph(&self, min_frequency: u32) -> (graph: GraphData)
        requires
            self.wf(),
        ensures
            graph@ == graph_of(self.entries(), min_frequency as nat),
    {
        let nodes = build_nodes(&self.word_cache, min_frequency);
        proof {
            let entries = self.word_cache.deep_view();
            assert forall|k: int| 0 <= k < nodes.len() implies ascending(
                (#[trigger] nodes[k])@.sentences,
            ) by {
                assert(nodes.deep_view()[k] == nodes[k]@);
                let j = lemma_node_entry(entries, min_frequency as nat, k);
                lemma_sentences_ascending(self.batch@, entries[j].word);
            }
        }
        let links = build_links(&nodes);
        let total_words = sum_counts(&self.word_cache);
        GraphData { nodes, links, total_words, unique_words: self.word_cache.len() }
    }

    /// The count of every cached word, in ascending order of the words.
    pub fn get_word_frequencies(&self) -> (frequencies: Vec<(String, usize)>)
        ensures
            frequencies.len() == self.entries().len(),
            forall|k: int|
                0 <= k < frequencies.len() ==> (#[trigger] frequencies[k]).0@
                    == self.entries()[k].word && frequencies[k].1 == self.entries()[k].count,
    {
        let mut frequencies: Vec<(String, usize)> = Vec::new();
        let mut k: usize = 0;
        while k < self.word_cache.len()
            invariant
                k <= self.word_cache.len(),
                frequencies.len() == k,
                forall|j: int|
                    0 <= j < k ==> (#[trigger] frequencies[j]).0@ == self.word_cache[j].word@
                        && frequencies[j].1 == self.word_cache[j].count,
            decreases self.word_cache.len() - k,
        {
            frequencies.push((self.word_cache[k].word.clone(), self.word_cache[k].count));
            k = k + 1;
        }
        frequencies
    }

    /// The totals of the batch taken in last.
    pub fn get_performance_stats(&self) -> (stats: PerformanceStats)
        ensures
            stats.total_words == total_count(self.entries()),
            stats.unique_words == self.entries().len(),
            stats.generations == self.generations(),
            stats.whole_words_per_generation == if self.generations() == 0 {
                None::<u128>
            } else {
                Some((total_count(self.entries()) / self.generations()) as u128)
            },
    {
        let total_words = sum_counts(&self.word_cache);
        let whole_words_per_generation = if self.generation_count == 0 {
            None
        } else {
            Some(total_words / self.generation_count as u128)
        };
        PerformanceStats {
            total_words,
            unique_words: self.word_cache.len(),
            generations: self.generation_count,
            whole_words_per_generation,
        }
    }

    /// Between two batches the cache says of the batch taken in last what
    /// its entries are there to say: no word has two entries; the counts
    /// add up to the number of kept tokens; the generations of each entry
    /// grow strictly and are generations of the batch; and each entry holds
    /// one position for every occurrence that it counts.
    pub proof fn lemma_snapshot(&self)
        requires
            self.wf(),
        ensures
            forall|j: int, k: int|
                0 <= j < k < self.entries().len() ==> (#[trigger] self.entries()[j]).word
                    != (#[trigger] self.entries()[k]).word,
            total_count(self.entries()) == retained_count(self.batch()),
            forall|k: int|
                0 <= k < self.entries().len() ==> ascending((#[trigger] self.entries()[k]).sentences),
            forall|k: int, i: int|
                0 <= k < self.entries().len() && 0 <= i < self.entries()[k].sentences.len()
                    ==> (#[trigger] self.entries()[k].sentences[i]) < self.generations(),
            forall|k: int|
                0 <= k < self.entries().len() ==> (#[trigger] self.entries()[k]).word_indices.len()
                    == self.entries()[k].count && self.entries()[k].count >= 1,
    {
        assert forall|j: int, k: int| 0 <= j < k < self.entries().len() implies (
        #[trigger] self.entries()[j]).word != (#[trigger] self.entries()[k]).word by {
            lemma_word_lt_irreflexive(self.entries()[j].word);
        }
        lemma_total_count(self.entries(), self.batch());
        assert forall|k: int| 0 <= k < self.entries().len() implies ascending(
            (#[trigger] self.entries()[k]).sentences,
        ) && self.entries()[k].word_indices.len() == self.entries()[k].count
            && self.entries()[k].count >= 1 by {
            lemma_entry_sentences(self.entries(), self.batch(), k);
            lemma_entry_count(self.entries(), self.batch(), k);
        }
        assert forall|k: int, i: int|
            0 <= k < self.entries().len() && 0 <= i < self.entries()[k].sentences.len() implies (
        #[trigger] self.entries()[k].sentences[i]) < self.generations() by {
            lemma_entry_sentences(self.entries(), self.batch(), k);
        }
    }
}

} // verus!
