use text_processor::{GraphData, TextProcessor, WordMetadata};

fn texts(items: &[&str]) -> Vec<String> {
    items.iter().map(|s| s.to_string()).collect()
}

fn entry<'a>(words: &'a [WordMetadata], word: &str) -> &'a WordMetadata {
    words.iter().find(|m| m.word == word).expect("the word is cached")
}

fn link_weight(graph: &GraphData, source: &str, target: &str) -> Option<usize> {
    graph
        .links
        .iter()
        .find(|l| l.source == source && l.target == target)
        .map(|l| l.weight)
}

#[test]
fn two_generations_fill_the_cache() {
    let mut processor = TextProcessor::new();
    let words = processor.tokenize_generations(&texts(&["the cat sat", "the dog sat"]));
    assert_eq!(words.len(), 3);
    let names: Vec<&str> = words.iter().map(|m| m.word.as_str()).collect();
    assert_eq!(names, vec!["cat", "dog", "sat"]);
    let cat = entry(&words, "cat");
    assert_eq!(cat.count, 1);
    assert_eq!(cat.sentences, vec![0]);
    assert_eq!(cat.word_indices, vec![1]);
    let sat = entry(&words, "sat");
    assert_eq!(sat.count, 2);
    assert_eq!(sat.sentences, vec![0, 1]);
    assert_eq!(sat.word_indices, vec![2, 2]);
    let dog = entry(&words, "dog");
    assert_eq!(dog.count, 1);
    assert_eq!(dog.sentences, vec![1]);
    assert_eq!(dog.word_indices, vec![1]);
}

#[test]
fn graph_links_words_that_share_a_generation() {
    let mut processor = TextProcessor::new();
    processor.tokenize_generations(&texts(&["the cat sat", "the dog sat"]));
    let graph = processor.build_word_graph(1);
    assert_eq!(graph.nodes.len(), 3);
    assert_eq!(graph.links.len(), 2);
    assert_eq!(link_weight(&graph, "cat", "sat"), Some(1));
    assert_eq!(link_weight(&graph, "dog", "sat"), Some(1));
    assert_eq!(link_weight(&graph, "cat", "dog"), None);
    assert_eq!(link_weight(&graph, "dog", "cat"), None);
    assert_eq!(link_weight(&graph, "sat", "cat"), None);
    assert_eq!(graph.total_words, 4);
    assert_eq!(graph.unique_words, 3);
}

#[test]
fn empty_batch_leaves_everything_empty() {
    let mut processor = TextProcessor::new();
    let words = processor.tokenize_generations(&Vec::new());
    assert!(words.is_empty());
    let stats = processor.get_performance_stats();
    assert_eq!(stats.unique_words, 0);
    assert_eq!(stats.total_words, 0);
    assert_eq!(stats.generations, 0);
    assert_eq!(stats.whole_words_per_generation, None);
    let graph = processor.build_word_graph(0);
    assert!(graph.nodes.is_empty());
    assert!(graph.links.is_empty());
    assert_eq!(graph.total_words, 0);
    assert_eq!(graph.unique_words, 0);
}

#[test]
fn repeated_word_counts_every_occurrence() {
    let mut processor = TextProcessor::new();
    let words = processor.tokenize_generations(&texts(&["echo echo, ECHO!"]));
    assert_eq!(words.len(), 1);
    let echo = entry(&words, "echo");
    assert_eq!(echo.count, 3);
    assert_eq!(echo.sentences, vec![0]);
    assert_eq!(echo.word_indices, vec![0, 1, 2]);
}
