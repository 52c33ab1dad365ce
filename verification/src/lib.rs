//! A batch text-analytics kernel: it splits short texts into lowercase words,
//! drops common stop words, records for every remaining word how often and
//! where it occurs, and derives a graph of the words that share a text.

pub mod unicode;
pub mod tokenizer;
pub mod order;
pub mod stop_words;
pub mod model;
pub mod cache;
pub mod totals;
pub mod overlap;
pub mod graph;
pub mod processor;

pub use cache::WordMetadata;
pub use graph::{GraphData, GraphLink, GraphNode};
pub use processor::{PerformanceStats, TextProcessor};
