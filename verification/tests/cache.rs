use text_processor::{TextProcessor, WordMetadata};

fn texts(items: &[&str]) -> Vec<String> {
    items.iter().map(|s| s.to_string()).collect()
}

fn names(words: &[WordMetadata]) -> Vec<String> {
    words.iter().map(|m| m.word.clone()).collect()
}

fn find<'a>(words: &'a [WordMetadata], word: &str) -> &'a WordMetadata {
    words.iter().find(|m| m.word == word).expect("the word is cached")
}

#[test]
fn stop_words_are_not_cached() {
    let mut processor = TextProcessor::new();
    let words = processor.tokenize_generations(&texts(&[
        "the with from would could should these those their",
        "This That THESE Those, They Them; Your!",
    ]));
    assert!(words.is_empty());
    let stats = processor.get_performance_stats();
    assert_eq!(stats.total_words, 0);
    assert_eq!(stats.generations, 2);
}

#[test]
fn short_tokens_are_not_cached() {
    let mut processor = TextProcessor::new();
    let words = processor.tokenize_generations(&texts(&["ox go up no x yz ab cd", "öl éé čž"]));
    assert!(words.is_empty());
}

#[test]
fn length_is_counted_in_characters() {
    let mut processor = TextProcessor::new();
    let words = processor.tokenize_generations(&texts(&["éé élan öl öle"]));
    assert_eq!(names(&words), vec!["élan", "öle"]);
    assert_eq!(find(&words, "élan").word_indices, vec![1]);
    assert_eq!(find(&words, "öle").word_indices, vec![3]);
}

#[test]
fn three_letter_words_are_cached() {
    let mut processor = TextProcessor::new();
    let words = processor.tokenize_generations(&texts(&["cat hat mat"]));
    assert_eq!(names(&words), vec!["cat", "hat", "mat"]);
}

#[test]
fn words_come_in_ascending_order() {
    let mut processor = TextProcessor::new();
    let words = processor.tokenize_generations(&texts(&[
        "zebra yak xenops walrus",
        "apple école banana zebra Apple cherry",
        "mango apple éclair walrus",
    ]));
    let got = names(&words);
    let mut sorted = got.clone();
    sorted.sort();
    sorted.dedup();
    assert_eq!(got, sorted);
    assert_eq!(
        got,
        vec![
            "apple", "banana", "cherry", "mango", "walrus", "xenops", "yak", "zebra", "éclair",
            "école"
        ]
    );
}

#[test]
fn positions_restart_in_every_generation() {
    let mut processor = TextProcessor::new();
    let words = processor.tokenize_generations(&texts(&["alpha beta", "beta alpha", "alpha"]));
    let alpha = find(&words, "alpha");
    assert_eq!(alpha.count, 3);
    assert_eq!(alpha.sentences, vec![0, 1, 2]);
    assert_eq!(alpha.word_indices, vec![0, 1, 0]);
    let beta = find(&words, "beta");
    assert_eq!(beta.count, 2);
    assert_eq!(beta.sentences, vec![0, 1]);
    assert_eq!(beta.word_indices, vec![1, 0]);
}

#[test]
fn positions_count_the_skipped_tokens_too() {
    let mut processor = TextProcessor::new();
    let words = processor.tokenize_generations(&texts(&["the cat is on a warm mat"]));
    assert_eq!(find(&words, "cat").word_indices, vec![1]);
    assert_eq!(find(&words, "warm").word_indices, vec![5]);
    assert_eq!(find(&words, "mat").word_indices, vec![6]);
}

#[test]
fn a_generation_is_listed_once_however_often_the_word_occurs() {
    let mut processor = TextProcessor::new();
    let words = processor.tokenize_generations(&texts(&[
        "rose",
        "tulip",
        "a rose is a rose is a rose",
        "rose tulip rose",
    ]));
    let rose = find(&words, "rose");
    assert_eq!(rose.count, 6);
    assert_eq!(rose.sentences, vec![0, 2, 3]);
    assert_eq!(rose.word_indices, vec![0, 1, 4, 7, 0, 2]);
    let tulip = find(&words, "tulip");
    assert_eq!(tulip.count, 2);
    assert_eq!(tulip.sentences, vec![1, 3]);
    assert_eq!(tulip.word_indices, vec![0, 1]);
}

#[test]
fn a_new_batch_replaces_the_cache() {
    let mut processor = TextProcessor::new();
    processor.tokenize_generations(&texts(&["first batch words", "more words"]));
    let words = processor.tokenize_generations(&texts(&["second batch"]));
    assert_eq!(names(&words), vec!["batch", "second"]);
    assert_eq!(find(&words, "batch").count, 1);
    assert_eq!(find(&words, "batch").sentences, vec![0]);
    let stats = processor.get_performance_stats();
    assert_eq!(stats.generations, 1);
    assert_eq!(stats.unique_words, 2);
    assert_eq!(stats.total_words, 2);
    let words = processor.tokenize_generations(&Vec::new());
    assert!(words.is_empty());
    assert_eq!(processor.get_performance_stats().generations, 0);
}

#[test]
fn ingest_tokens_takes_tokens_as_they_are() {
    let mut tokenized = TextProcessor::new();
    let from_text = tokenized.tokenize_generations(&texts(&["the cat sat", "the dog sat"]));
    let mut given = TextProcessor::new();
    let from_tokens = given.ingest_tokens(&vec![
        texts(&["the", "cat", "sat"]),
        texts(&["the", "dog", "sat"]),
    ]);
    assert_eq!(names(&from_text), names(&from_tokens));
    for (a, b) in from_text.iter().zip(from_tokens.iter()) {
        assert_eq!(a.count, b.count);
        assert_eq!(a.sentences, b.sentences);
        assert_eq!(a.word_indices, b.word_indices);
    }
    let stats = given.get_performance_stats();
    assert_eq!(stats.generations, 2);
    assert_eq!(stats.total_words, 4);
}

#[test]
fn ingest_tokens_does_not_change_the_case() {
    let mut processor = TextProcessor::new();
    let words = processor.ingest_tokens(&vec![texts(&["Cat", "cat", "THE", "the"])]);
    assert_eq!(names(&words), vec!["Cat", "THE", "cat"]);
    assert_eq!(find(&words, "cat").word_indices, vec![1]);
    assert_eq!(find(&words, "THE").word_indices, vec![2]);
}

#[test]
fn words_gives_the_cache_again() {
    let mut processor = TextProcessor::new();
    assert!(processor.words().is_empty());
    let returned = processor.tokenize_generations(&texts(&["sun moon sun", "moon star"]));
    let again = processor.words();
    assert_eq!(names(&returned), names(&again));
    assert_eq!(names(&again), vec!["moon", "star", "sun"]);
    for (a, b) in returned.iter().zip(again.iter()) {
        assert_eq!(a.count, b.count);
        assert_eq!(a.sentences, b.sentences);
        assert_eq!(a.word_indices, b.word_indices);
    }
}

#[test]
fn counts_add_up_to_the_kept_tokens() {
    let generations = texts(&[
        "The quick brown fox jumps over the lazy dog",
        "A quick brown dog, a lazy fox; it is so!",
        "",
        "over and over and over",
    ]);
    let mut processor = TextProcessor::new();
    let words = processor.tokenize_generations(&generations);
    // kept: quick brown fox jumps over lazy dog / quick brown dog lazy fox / over over over
    let sum: usize = words.iter().map(|m| m.count).sum();
    assert_eq!(sum, 15);
    assert_eq!(processor.get_performance_stats().total_words, 15);
    assert_eq!(processor.build_word_graph(0).total_words, 15);
}

#[test]
fn sentences_ascend_and_stay_within_the_batch() {
    let generations = texts(&[
        "red green blue",
        "green green red",
        "blue",
        "yellow red red blue",
        "",
        "green yellow",
    ]);
    let mut processor = TextProcessor::new();
    let words = processor.tokenize_generations(&generations);
    assert_eq!(words.len(), 4);
    for m in words.iter() {
        assert!(!m.sentences.is_empty());
        assert!(m.sentences.windows(2).all(|w| w[0] < w[1]));
        assert!(m.sentences.iter().all(|&s| s < generations.len()));
    }
    assert_eq!(find(&words, "red").sentences, vec![0, 1, 3]);
    assert_eq!(find(&words, "green").sentences, vec![0, 1, 5]);
    assert_eq!(find(&words, "blue").sentences, vec![0, 2, 3]);
    assert_eq!(find(&words, "yellow").sentences, vec![3, 5]);
}

#[test]
fn every_occurrence_has_its_position() {
    let mut processor = TextProcessor::new();
    let words = processor.tokenize_generations(&texts(&[
        "red green blue red",
        "green green red",
        "yellow red red blue",
    ]));
    for m in words.iter() {
        assert_eq!(m.word_indices.len(), m.count);
        assert!(m.count >= m.sentences.len());
        assert!(m.count >= 1);
    }
    assert_eq!(find(&words, "red").word_indices, vec![0, 3, 2, 1, 2]);
    assert_eq!(find(&words, "green").word_indices, vec![1, 0, 1]);
}
