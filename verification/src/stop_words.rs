//! The fixed list of English function words that are never counted.

use vstd::prelude::*;

verus! {

/// The stop words, in the order in which the processor holds them.
pub open spec fn stop_word_list() -> Seq<Seq<char>> {
    seq![
        "the"@, "a"@, "an"@, "and"@, "or"@, "but"@, "in"@, "on"@, "at"@, "to"@,
        "for"@, "of"@, "with"@, "by"@, "from"@, "as"@, "is"@, "was"@, "are"@, "were"@,
        "be"@, "been"@, "being"@, "have"@, "has"@, "had"@, "do"@, "does"@, "did"@, "will"@,
        "would"@, "could"@, "should"@, "may"@, "might"@, "must"@, "shall"@, "this"@, "that"@, "these"@,
        "those"@, "i"@, "you"@, "he"@, "she"@, "it"@, "we"@, "they"@, "me"@, "him"@,
        "her"@, "us"@, "them"@, "my"@, "your"@, "his"@, "their"@, "our"@,
    ]
}

/// Whether `w` is one of the stop words.
pub open spec fn is_stop_word(w: Seq<char>) -> bool {
    stop_word_list().contains(w)
}

/// Whether a token is kept: it has more than two characters and is no stop
/// word.
pub open spec fn is_retained(w: Seq<char>) -> bool {
    w.len() > 2 && !is_stop_word(w)
}

/// Every stop word has at least one character and at most six, so that a
/// longer token is always kept.
pub proof fn lemma_stop_word_lengths(w: Seq<char>)
    requires
        is_stop_word(w),
    ensures
        1 <= w.len() <= 6,
{
    reveal_strlit("the");
    reveal_strlit("a");
    reveal_strlit("an");
    reveal_strlit("and");
    reveal_strlit("or");
    reveal_strlit("but");
    reveal_strlit("in");
    reveal_strlit("on");
    reveal_strlit("at");
    reveal_strlit("to");
    reveal_strlit("for");
    reveal_strlit("of");
    reveal_strlit("with");
    reveal_strlit("by");
    reveal_strlit("from");
    reveal_strlit("as");
    reveal_strlit("is");
    reveal_strlit("was");
    reveal_strlit("are");
    reveal_strlit("were");
    reveal_strlit("be");
    reveal_strlit("been");
    reveal_strlit("being");
    reveal_strlit("have");
    reveal_strlit("has");
    reveal_strlit("had");
    reveal_strlit("do");
    reveal_strlit("does");
    reveal_strlit("did");
    reveal_strlit("will");
    reveal_strlit("would");
    reveal_strlit("could");
    reveal_strlit("should");
    reveal_strlit("may");
    reveal_strlit("might");
    reveal_strlit("must");
    reveal_strlit("shall");
    reveal_strlit("this");
    reveal_strlit("that");
    reveal_strlit("these");
    reveal_strlit("those");
    reveal_strlit("i");
    reveal_strlit("you");
    reveal_strlit("he");
    reveal_strlit("she");
    reveal_strlit("it");
    reveal_strlit("we");
    reveal_strlit("they");
    reveal_strlit("me");
    reveal_strlit("him");
    reveal_strlit("her");
    reveal_strlit("us");
    reveal_strlit("them");
    reveal_strlit("my");
    reveal_strlit("your");
    reveal_strlit("his");
    reveal_strlit("their");
    reveal_strlit("our");
    let list = stop_word_list();
    let i = choose|i: int| 0 <= i < list.len() && list[i] == w;
    assert forall|k: int| 0 <= k < list.len() implies 1 <= (#[trigger] list[k]).len() <= 6 by {}
    assert(1 <= list[i].len() <= 6);
}

/// Adds `word` to the end of `list`.
fn push_word(list: &mut Vec<String>, word: &str)
    ensures
        final(list).deep_view() == old(list).deep_view().push(word@),
{
    list.push(word.to_owned());
    assert(list.deep_view() =~= old(list).deep_view().push(word@));
}

/// The stop words as strings.
#[verifier::rlimit(60)]
pub fn stop_words() -> (list: Vec<String>)
    ensures
        list.deep_view() == stop_word_list(),
{
    let mut list: Vec<String> = Vec::new();
    assert(list.deep_view() =~= Seq::<Seq<char>>::empty());
    push_word(&mut list, "the");
    push_word(&mut list, "a");
    push_word(&mut list, "an");
    push_word(&mut list, "and");
    push_word(&mut list, "or");
    push_word(&mut list, "but");
    push_word(&mut list, "in");
    push_word(&mut list, "on");
    push_word(&mut list, "at");
    push_word(&mut list, "to");
    push_word(&mut list, "for");
    push_word(&mut list, "of");
    push_word(&mut list, "with");
    push_word(&mut list, "by");
    push_word(&mut list, "from");
    push_word(&mut list, "as");
    push_word(&mut list, "is");
    push_word(&mut list, "was");
    push_word(&mut list, "are");
    push_word(&mut list, "were");
    push_word(&mut list, "be");
    push_word(&mut list, "been");
    push_word(&mut list, "being");
    push_word(&mut list, "have");
    push_word(&mut list, "has");
    push_word(&mut list, "had");
    push_word(&mut list, "do");
    push_word(&mut list, "does");
    push_word(&mut list, "did");
    push_word(&mut list, "will");
    push_word(&mut list, "would");
    push_word(&mut list, "could");
    push_word(&mut list, "should");
    push_word(&mut list, "may");
    push_word(&mut list, "might");
    push_word(&mut list, "must");
    push_word(&mut list, "shall");
    push_word(&mut list, "this");
    push_word(&mut list, "that");
    push_word(&mut list, "these");
    push_word(&mut list, "those");
    push_word(&mut list, "i");
    push_word(&mut list, "you");
    push_word(&mut list, "he");
    push_word(&mut list, "she");
    push_word(&mut list, "it");
    push_word(&mut list, "we");
    push_word(&mut list, "they");
    push_word(&mut list, "me");
    push_word(&mut list, "him");
    push_word(&mut list, "her");
    push_word(&mut list, "us");
    push_word(&mut list, "them");
    push_word(&mut list, "my");
    push_word(&mut list, "your");
    push_word(&mut list, "his");
    push_word(&mut list, "their");
    push_word(&mut list, "our");
    list
}

/// Whether `word` is among `list`.
pub fn contains_word(list: &Vec<String>, word: &String) -> (found: bool)
    ensures
        found == list.deep_view().contains(word@),
{
    let mut i: usize = 0;
    while i < list.len()
        invariant
            i <= list.len(),
            forall|k: int| 0 <= k < i ==> list.deep_view()[k] != word@,
        decreases list.len() - i,
    {
        if list[i] == *word {
            assert(list.deep_view()[i as int] == word@);
            return true;
        }
        i = i + 1;
    }
    false
}

} // verus!
