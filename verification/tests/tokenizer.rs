use text_processor::order::word_less;
use text_processor::stop_words::{contains_word, stop_words};
use text_processor::tokenizer::{
    decide_separator, find_separators, split_runs, split_words, tokenize,
};
use text_processor::TextProcessor;

fn strings(items: &[&str]) -> Vec<String> {
    items.iter().map(|s| s.to_string()).collect()
}

#[test]
fn tokenize_lowercases_and_splits_on_punctuation() {
    assert_eq!(
        tokenize("Hello, World! 123 foo_bar"),
        strings(&["hello", "world", "foo", "bar"])
    );
}

#[test]
fn tokenize_of_nothing_is_empty() {
    assert!(tokenize("").is_empty());
    assert!(tokenize("   \t\r\n ").is_empty());
    assert!(tokenize("!!! 42 -- 3.14").is_empty());
}

#[test]
fn digits_and_punctuation_separate_words() {
    assert_eq!(tokenize("abc123def"), strings(&["abc", "def"]));
    assert_eq!(tokenize("don't stop-me"), strings(&["don", "t", "stop", "me"]));
    assert_eq!(tokenize("a.b,c;d"), strings(&["a", "b", "c", "d"]));
}

#[test]
fn letters_of_any_script_are_kept() {
    assert_eq!(tokenize("STRASSE Ünïcödé ÉCOLE"), strings(&["strasse", "ünïcödé", "école"]));
    assert_eq!(tokenize("Привет, мир"), strings(&["привет", "мир"]));
    assert_eq!(tokenize("東京 タワー"), strings(&["東京", "タワー"]));
}

#[test]
fn every_kind_of_whitespace_separates() {
    assert_eq!(
        tokenize("one\u{00A0}two\u{2003}three\u{3000}four\nfive"),
        strings(&["one", "two", "three", "four", "five"])
    );
}

#[test]
fn runs_of_separators_give_no_empty_token() {
    let tokens = tokenize("  ...alpha   ,,, beta!!!   ");
    assert_eq!(tokens, strings(&["alpha", "beta"]));
    assert!(tokens.iter().all(|t| !t.is_empty()));
}

#[test]
fn split_words_leaves_the_case_alone() {
    assert_eq!(split_words("Hello World"), strings(&["Hello", "World"]));
    assert_eq!(tokenize("Hello World"), strings(&["hello", "world"]));
}

#[test]
fn tokenize_sentence_is_the_tokenizer() {
    let processor = TextProcessor::new();
    assert_eq!(
        processor.tokenize_sentence("The Quick, brown fox"),
        tokenize("The Quick, brown fox")
    );
    assert_eq!(
        processor.tokenize_sentence("The Quick, brown fox"),
        strings(&["the", "quick", "brown", "fox"])
    );
}

#[test]
fn word_less_is_the_order_of_strings() {
    let words = [
        "", "a", "ab", "abc", "abd", "b", "ba", "cat", "car", "cart", "dog", "z", "zebra", "é",
        "école", "zé", "日本", "日", "😀", "a😀", "Z", "z\u{10FFFF}",
    ];
    for a in words.iter() {
        for b in words.iter() {
            assert_eq!(word_less(a, b), a < b, "{:?} {:?}", a, b);
        }
    }
}

#[test]
fn word_less_on_chosen_words() {
    assert!(word_less("cat", "dog"));
    assert!(!word_less("dog", "cat"));
    assert!(!word_less("cat", "cat"));
    assert!(word_less("cat", "cats"));
    assert!(!word_less("cats", "cat"));
    assert!(word_less("", "a"));
    assert!(!word_less("", ""));
    assert!(word_less("zoo", "école"));
}

#[test]
fn the_stop_words_are_the_fixed_list() {
    let list = stop_words();
    assert_eq!(list.len(), 58);
    assert_eq!(list[0], "the");
    assert_eq!(list[57], "our");
    for word in [
        "the", "a", "an", "and", "or", "but", "in", "on", "at", "to", "for", "of", "with", "by",
        "from", "as", "is", "was", "are", "were", "be", "been", "being", "have", "has", "had",
        "do", "does", "did", "will", "would", "could", "should", "may", "might", "must", "shall",
        "this", "that", "these", "those", "i", "you", "he", "she", "it", "we", "they", "me",
        "him", "her", "us", "them", "my", "your", "his", "their", "our",
    ] {
        assert!(contains_word(&list, &word.to_string()), "{}", word);
    }
    for word in ["cat", "The", "them ", "", "ours", "th"] {
        assert!(!contains_word(&list, &word.to_string()), "{:?}", word);
    }
}

#[test]
fn a_blank_separates_as_the_space_does() {
    // letters and whitespace speak for themselves
    assert!(!decide_separator(true, false, true));
    assert!(!decide_separator(true, false, false));
    assert!(decide_separator(false, true, true));
    assert!(decide_separator(false, true, false));
    assert!(decide_separator(true, true, false));
    // everything else counts as a blank
    assert!(decide_separator(false, false, true));
    assert!(!decide_separator(false, false, false));
}

#[test]
fn find_separators_flags_what_is_no_letter() {
    assert_eq!(
        find_separators("ab, c1\té"),
        vec![false, false, true, true, false, true, true, false]
    );
    assert!(find_separators("").is_empty());
}

#[test]
fn split_runs_cuts_at_the_flags() {
    let flags = vec![false, false, true, false, true, true, false, false];
    assert_eq!(split_runs("ab-c..de", &flags), strings(&["ab", "c", "de"]));
    assert_eq!(split_runs("ab c", &vec![false, false, true, false]), strings(&["ab", "c"]));
    assert_eq!(split_runs("ab c", &vec![false, false, false, false]), strings(&["ab c"]));
    assert!(split_runs("ab c", &vec![true, true, true, true]).is_empty());
    assert!(split_runs("", &Vec::new()).is_empty());
    assert_eq!(split_runs("éa", &vec![true, false]), strings(&["a"]));
}
