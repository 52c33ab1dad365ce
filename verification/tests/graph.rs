use text_processor::graph::{build_links, build_nodes, make_node, sum_counts};
use text_processor::overlap::count_shared;
use text_processor::{GraphData, TextProcessor, WordMetadata};

fn texts(items: &[&str]) -> Vec<String> {
    items.iter().map(|s| s.to_string()).collect()
}

fn weight(graph: &GraphData, source: &str, target: &str) -> Option<usize> {
    let found: Vec<usize> = graph
        .links
        .iter()
        .filter(|l| l.source == source && l.target == target)
        .map(|l| l.weight)
        .collect();
    assert!(found.len() <= 1, "a pair has one link at most");
    found.first().copied()
}

fn colours() -> TextProcessor {
    let mut processor = TextProcessor::new();
    processor.tokenize_generations(&texts(&[
        "red green blue",
        "green green red",
        "blue",
        "yellow red red blue",
        "",
        "green yellow",
    ]));
    processor
}

#[test]
fn count_shared_counts_the_common_numbers() {
    assert_eq!(count_shared(&vec![0, 2, 5, 7], &vec![1, 2, 3, 7, 9]), 2);
    assert_eq!(count_shared(&vec![1, 2, 3, 7, 9], &vec![0, 2, 5, 7]), 2);
    assert_eq!(count_shared(&vec![], &vec![1, 2]), 0);
    assert_eq!(count_shared(&vec![1, 2], &vec![]), 0);
    assert_eq!(count_shared(&vec![], &vec![]), 0);
    assert_eq!(count_shared(&vec![0, 1, 2], &vec![0, 1, 2]), 3);
    assert_eq!(count_shared(&vec![0, 2, 4], &vec![1, 3, 5]), 0);
    assert_eq!(count_shared(&vec![5], &vec![0, 1, 2, 3, 4, 5]), 1);
    assert_eq!(count_shared(&vec![usize::MAX], &vec![0, usize::MAX]), 1);
}

#[test]
fn weight_is_the_number_of_shared_generations() {
    let graph = colours().build_word_graph(0);
    // red: 0 1 3, green: 0 1 5, blue: 0 2 3, yellow: 3 5
    assert_eq!(weight(&graph, "green", "red"), Some(2));
    assert_eq!(weight(&graph, "blue", "red"), Some(2));
    assert_eq!(weight(&graph, "blue", "green"), Some(1));
    assert_eq!(weight(&graph, "red", "yellow"), Some(1));
    assert_eq!(weight(&graph, "green", "yellow"), Some(1));
    assert_eq!(weight(&graph, "blue", "yellow"), Some(1));
    assert_eq!(graph.links.len(), 6);
}

#[test]
fn a_pair_has_one_link_with_the_smaller_word_first() {
    let graph = colours().build_word_graph(0);
    for link in graph.links.iter() {
        assert!(link.source < link.target);
        assert!(link.weight >= 1);
        assert_eq!(weight(&graph, &link.target, &link.source), None);
    }
    let pairs: Vec<(String, String)> =
        graph.links.iter().map(|l| (l.source.clone(), l.target.clone())).collect();
    let mut sorted = pairs.clone();
    sorted.sort();
    sorted.dedup();
    assert_eq!(pairs, sorted);
}

#[test]
fn words_without_a_common_generation_have_no_link() {
    let mut processor = TextProcessor::new();
    processor.tokenize_generations(&texts(&["north south", "east west", "north east"]));
    let graph = processor.build_word_graph(1);
    assert_eq!(weight(&graph, "north", "south"), Some(1));
    assert_eq!(weight(&graph, "east", "west"), Some(1));
    assert_eq!(weight(&graph, "east", "north"), Some(1));
    assert_eq!(weight(&graph, "south", "west"), None);
    assert_eq!(weight(&graph, "north", "west"), None);
    assert_eq!(weight(&graph, "east", "south"), None);
    assert_eq!(graph.links.len(), 3);
}

#[test]
fn frequency_zero_gives_a_node_for_every_word() {
    let processor = colours();
    let words = processor.words();
    let graph = processor.build_word_graph(0);
    assert_eq!(graph.nodes.len(), words.len());
    for (node, entry) in graph.nodes.iter().zip(words.iter()) {
        assert_eq!(node.word, entry.word);
        assert_eq!(node.count, entry.count);
        assert_eq!(node.sentences, entry.sentences);
        assert_eq!(node.word_indices, entry.word_indices);
    }
    let one = processor.build_word_graph(1);
    assert_eq!(one.nodes.len(), words.len());
    assert_eq!(one.links.len(), graph.links.len());
}

#[test]
fn a_frequency_above_every_count_gives_no_node() {
    let processor = colours();
    let all = processor.build_word_graph(0);
    let none = processor.build_word_graph(5);
    assert!(none.nodes.is_empty());
    assert!(none.links.is_empty());
    assert_eq!(none.total_words, all.total_words);
    assert_eq!(none.unique_words, all.unique_words);
    assert_eq!(none.total_words, 13);
    assert_eq!(none.unique_words, 4);
    let far = processor.build_word_graph(u32::MAX);
    assert!(far.nodes.is_empty());
    assert_eq!(far.total_words, 13);
}

#[test]
fn the_frequency_bounds_nodes_and_links() {
    let processor = colours();
    // counts: red 4, green 4, blue 3, yellow 2
    let graph = processor.build_word_graph(3);
    let names: Vec<&str> = graph.nodes.iter().map(|n| n.word.as_str()).collect();
    assert_eq!(names, vec!["blue", "green", "red"]);
    assert_eq!(graph.links.len(), 3);
    assert_eq!(weight(&graph, "blue", "green"), Some(1));
    assert_eq!(weight(&graph, "blue", "red"), Some(2));
    assert_eq!(weight(&graph, "green", "red"), Some(2));
    assert_eq!(graph.total_words, 13);
    assert_eq!(graph.unique_words, 4);
    let graph = processor.build_word_graph(4);
    let names: Vec<&str> = graph.nodes.iter().map(|n| n.word.as_str()).collect();
    assert_eq!(names, vec!["green", "red"]);
    assert_eq!(graph.links.len(), 1);
    assert_eq!(weight(&graph, "green", "red"), Some(2));
}

#[test]
fn nodes_have_no_edges_of_their_own() {
    let graph = colours().build_word_graph(0);
    for node in graph.nodes.iter() {
        assert!(node.children.is_empty());
        assert!(node.parents.is_empty());
        assert!(!node.is_root);
        assert!(!node.is_end);
    }
}

#[test]
fn a_single_word_has_no_link() {
    let mut processor = TextProcessor::new();
    processor.tokenize_generations(&texts(&["echo echo", "echo"]));
    let graph = processor.build_word_graph(0);
    assert_eq!(graph.nodes.len(), 1);
    assert_eq!(graph.nodes[0].word, "echo");
    assert_eq!(graph.nodes[0].count, 3);
    assert!(graph.links.is_empty());
    assert_eq!(graph.total_words, 3);
    assert_eq!(graph.unique_words, 1);
}

#[test]
fn the_parts_of_the_builder_agree_with_the_whole() {
    let processor = colours();
    let words: Vec<WordMetadata> = processor.words();
    let graph = processor.build_word_graph(3);
    let nodes = build_nodes(&words, 3);
    assert_eq!(nodes.len(), graph.nodes.len());
    let links = build_links(&nodes);
    assert_eq!(links.len(), graph.links.len());
    for (a, b) in links.iter().zip(graph.links.iter()) {
        assert_eq!(a.source, b.source);
        assert_eq!(a.target, b.target);
        assert_eq!(a.weight, b.weight);
    }
    assert_eq!(sum_counts(&words), 13);
    assert_eq!(sum_counts(&Vec::new()), 0);
    let node = make_node(&words[0]);
    assert_eq!(node.word, "blue");
    assert_eq!(node.count, 3);
    assert_eq!(node.sentences, vec![0, 2, 3]);
    assert_eq!(node.word_indices, vec![2, 0, 3]);
}
