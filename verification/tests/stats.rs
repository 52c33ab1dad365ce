use text_processor::TextProcessor;

fn texts(items: &[&str]) -> Vec<String> {
    items.iter().map(|s| s.to_string()).collect()
}

#[test]
fn a_new_processor_has_seen_nothing() {
    let processor = TextProcessor::new();
    let stats = processor.get_performance_stats();
    assert_eq!(stats.total_words, 0);
    assert_eq!(stats.unique_words, 0);
    assert_eq!(stats.generations, 0);
    assert_eq!(stats.whole_words_per_generation, None);
    assert!(processor.get_word_frequencies().is_empty());
    assert!(processor.words().is_empty());
    let graph = processor.build_word_graph(0);
    assert!(graph.nodes.is_empty());
    assert!(graph.links.is_empty());
}

#[test]
fn frequencies_list_every_word_once() {
    let mut processor = TextProcessor::new();
    processor.tokenize_generations(&texts(&["pear apple pear", "fig pear apple"]));
    assert_eq!(
        processor.get_word_frequencies(),
        vec![("apple".to_string(), 2), ("fig".to_string(), 1), ("pear".to_string(), 3)]
    );
}

#[test]
fn stats_give_the_totals_of_the_batch() {
    let mut processor = TextProcessor::new();
    processor.tokenize_generations(&texts(&["pear apple pear", "fig pear apple", "plum"]));
    let stats = processor.get_performance_stats();
    assert_eq!(stats.total_words, 7);
    assert_eq!(stats.unique_words, 4);
    assert_eq!(stats.generations, 3);
    assert_eq!(stats.whole_words_per_generation, Some(2));
}

#[test]
fn the_average_is_rounded_down() {
    let mut processor = TextProcessor::new();
    processor.tokenize_generations(&texts(&["pear", "", "", ""]));
    let stats = processor.get_performance_stats();
    assert_eq!(stats.total_words, 1);
    assert_eq!(stats.generations, 4);
    assert_eq!(stats.whole_words_per_generation, Some(0));
    processor.tokenize_generations(&texts(&["pear apple", "fig plum"]));
    let stats = processor.get_performance_stats();
    assert_eq!(stats.whole_words_per_generation, Some(2));
}

#[test]
fn generations_without_words_are_counted() {
    let mut processor = TextProcessor::new();
    let words = processor.tokenize_generations(&texts(&["", "the", "cat dog bird", "   "]));
    assert_eq!(words.len(), 3);
    assert_eq!(words[0].word, "bird");
    assert_eq!(words[0].sentences, vec![2]);
    let stats = processor.get_performance_stats();
    assert_eq!(stats.generations, 4);
    assert_eq!(stats.total_words, 3);
    assert_eq!(stats.whole_words_per_generation, Some(0));
}

#[test]
fn queries_do_not_change_the_cache() {
    let mut processor = TextProcessor::new();
    processor.tokenize_generations(&texts(&["pear apple pear", "fig pear apple"]));
    let before = processor.get_word_frequencies();
    let _ = processor.build_word_graph(2);
    let _ = processor.get_performance_stats();
    let _ = processor.words();
    assert_eq!(processor.get_word_frequencies(), before);
}
