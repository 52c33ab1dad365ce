//! How many generations two words share.

use vstd::prelude::*;
use crate::cache::as_nats;
use crate::model::{ascending, lemma_sentences_membership, word_sentences};

verus! {

/// The number of generations that two words share: the size of the
/// intersection of their generations.
pub open spec fn shared(a: Seq<nat>, b: Seq<nat>) -> nat {
    a.to_set().intersect(b.to_set()).len()
}

/// Two words share as many generations whichever of them comes first.
pub proof fn lemma_shared_symmetric(a: Seq<nat>, b: Seq<nat>)
    ensures
        shared(a, b) == shared(b, a),
{
    assert(a.to_set().intersect(b.to_set()) =~= b.to_set().intersect(a.to_set()));
}

/// The generations of a batch that hold both `u` and `v`.
pub open spec fn generations_with_both(
    batch: Seq<Seq<Seq<char>>>,
    u: Seq<char>,
    v: Seq<char>,
) -> Set<nat> {
    Set::new(|g: nat| g < batch.len() && batch[g as int].contains(u) && batch[g as int].contains(v))
}

/// In a batch, the number of generations that two words share is the
/// number of generations that hold both.
pub proof fn lemma_shared_generations(batch: Seq<Seq<Seq<char>>>, u: Seq<char>, v: Seq<char>)
    ensures
        shared(word_sentences(batch, u), word_sentences(batch, v)) == generations_with_both(
            batch,
            u,
            v,
        ).len(),
{
    let both = word_sentences(batch, u).to_set().intersect(word_sentences(batch, v).to_set());
    let holding = generations_with_both(batch, u, v);
    assert forall|g: nat| both.contains(g) <==> holding.contains(g) by {
        lemma_sentences_membership(batch, u, g);
        lemma_sentences_membership(batch, v, g);
    }
    assert(both =~= holding);
}

/// Counts the generations that two words share. Both lists are ascending,
/// so one pass over the two of them finds every common number.
pub fn count_shared(a: &Vec<usize>, b: &Vec<usize>) -> (n: usize)
    requires
        ascending(as_nats(a@)),
        ascending(as_nats(b@)),
    ensures
        n == shared(as_nats(a@), as_nats(b@)),
{
    broadcast use vstd::seq_lib::seq_to_set_is_finite;

    let ghost left = as_nats(a@);
    let ghost right = as_nats(b@);
    let mut n: usize = 0;
    let mut i: usize = 0;
    let mut j: usize = 0;
    assert(left.take(0).to_set().intersect(right.take(0).to_set()) =~= Set::empty());
    while i < a.len() && j < b.len()
        invariant
            i <= a.len(),
            j <= b.len(),
            left == as_nats(a@),
            right == as_nats(b@),
            ascending(left),
            ascending(right),
            n <= i,
            n == left.take(i as int).to_set().intersect(right.take(j as int).to_set()).len(),
            forall|p: int| 0 <= p < i && j < right.len() ==> left[p] < right[j as int],
            forall|q: int| 0 <= q < j && i < left.len() ==> right[q] < left[i as int],
        decreases a.len() - i + b.len() - j,
    {
        let ghost seen_left = left.take(i as int);
        let ghost seen_right = right.take(j as int);
        let ghost both = seen_left.to_set().intersect(seen_right.to_set());
        let x = a[i];
        let y = b[j];
        proof {
            left.lemma_take_succ_push(i as int);
            right.lemma_take_succ_push(j as int);
            seen_left.lemma_push_to_set_commute(left[i as int]);
            seen_right.lemma_push_to_set_commute(right[j as int]);
            assert(!seen_left.contains(left[i as int])) by {
                if seen_left.contains(left[i as int]) {
                    let p = choose|p: int| 0 <= p < seen_left.len() && seen_left[p] == left[i as int];
                    assert(left[p] < left[i as int]);
                }
            }
            assert(!seen_right.contains(right[j as int])) by {
                if seen_right.contains(right[j as int]) {
                    let q = choose|q: int|
                        0 <= q < seen_right.len() && seen_right[q] == right[j as int];
                    assert(right[q] < right[j as int]);
                }
            }
            assert(x < y ==> !seen_right.contains(left[i as int])) by {
                if seen_right.contains(left[i as int]) {
                    let q = choose|q: int|
                        0 <= q < seen_right.len() && seen_right[q] == left[i as int];
                    assert(right[q] < left[i as int]);
                }
            }
            assert(y < x ==> !seen_left.contains(right[j as int])) by {
                if seen_left.contains(right[j as int]) {
                    let p = choose|p: int|
                        0 <= p < seen_left.len() && seen_left[p] == right[j as int];
                    assert(left[p] < right[j as int]);
                }
            }
        }
        if x == y {
            proof {
                assert(left.take(i + 1).to_set().intersect(right.take(j + 1).to_set())
                    =~= both.insert(left[i as int]));
            }
            n = n + 1;
            i = i + 1;
            j = j + 1;
        } else if x < y {
            proof {
                assert(left.take(i + 1).to_set().intersect(seen_right.to_set()) =~= both);
            }
            i = i + 1;
        } else {
            proof {
                assert(seen_left.to_set().intersect(right.take(j + 1).to_set()) =~= both);
            }
            j = j + 1;
        }
    }
    proof {
        let seen_left = left.take(i as int);
        let seen_right = right.take(j as int);
        assert(left.to_set().intersect(right.to_set()) =~= seen_left.to_set().intersect(
            seen_right.to_set(),
        )) by {
            assert forall|v: nat|
                left.to_set().contains(v) && right.to_set().contains(v) implies seen_left.contains(
                v,
            ) && seen_right.contains(v) by {
                let p = choose|p: int| 0 <= p < left.len() && left[p] == v;
                let q = choose|q: int| 0 <= q < right.len() && right[q] == v;
                if p >= i {
                    // then `j` has reached the end, and `right[q]` stands before `left[i]`
                    assert(right[q] < left[i as int]);
                    assert(p > i ==> left[i as int] < left[p]);
                }
                if q >= j {
                    assert(left[p] < right[j as int]);
                    assert(q > j ==> right[j as int] < right[q]);
                }
                assert(seen_left[p] == v);
                assert(seen_right[q] == v);
            }
            assert forall|v: nat| seen_left.contains(v) implies left.contains(v) by {
                let p = choose|p: int| 0 <= p < seen_left.len() && seen_left[p] == v;
                assert(left[p] == v);
            }
            assert forall|v: nat| seen_right.contains(v) implies right.contains(v) by {
                let q = choose|q: int| 0 <= q < seen_right.len() && seen_right[q] == v;
                assert(right[q] == v);
            }
        }
    }
    n
}

} // verus!
