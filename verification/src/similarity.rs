//! Similarity of two texts: one minus the edit distance over the length of
//! the longer text, as an exact fraction.

use vstd::prelude::*;

use crate::edit_distance::{edit_distance, edit_script, law_distance_bounds, law_distance_is_minimal,
    law_distance_is_reached, law_distance_symmetric, law_distance_zero, levenshtein_distance, max2};
use crate::text::same_text;

verus! {

/// The least similarity, in hundredths, at which two texts count as highly
/// similar.
pub const SIMILARITY_THRESHOLD: u128 = 85;

/// A similarity: the fraction `matched / total`, which lies between 0 and 1.
#[derive(Clone, Copy, Debug, PartialEq, Eq, Structural)]
pub struct Similarity {
    pub matched: usize,
    pub total: usize,
}

/// The similarity of two texts: 1 where they are equal, otherwise one minus
/// the edit distance over the length of the longer one.
pub open spec fn is_similarity(r: Similarity, a: Seq<char>, b: Seq<char>) -> bool {
    if a == b {
        r.matched == 1 && r.total == 1
    } else {
        &&& r.total == max2(a.len(), b.len())
        &&& r.matched == r.total - edit_distance(a, b)
    }
}

/// Two texts are highly similar where the similarity reaches the threshold.
pub open spec fn highly_similar(a: Seq<char>, b: Seq<char>) -> bool {
    let longer = max2(a.len(), b.len());
    100 * (longer - edit_distance(a, b)) >= SIMILARITY_THRESHOLD * longer
}

/// Computes the similarity of two texts.
pub fn similarity(a: &str, b: &str) -> (r: Similarity)
    ensures
        is_similarity(r, a@, b@),
        0 < r.total,
        r.matched <= r.total,
{
    if same_text(a, b) {
        return Similarity { matched: 1, total: 1 };
    }
    let a_len: usize = a.unicode_len();
    let b_len: usize = b.unicode_len();
    let total: usize = if a_len <= b_len {
        b_len
    } else {
        a_len
    };
    proof {
        law_distance_bounds(a@, b@);
        assert(a@.len() == 0 && b@.len() == 0 ==> a@ =~= b@);
    }
    let distance: usize = levenshtein_distance(a, b);
    Similarity { matched: total - distance, total }
}

/// Tells whether two texts are highly similar.
pub fn is_highly_similar(a: &str, b: &str) -> (r: bool)
    ensures
        r == highly_similar(a@, b@),
{
    let s: Similarity = similarity(a, b);
    proof {
        law_distance_zero(a@, b@);
    }
    100u128 * (s.matched as u128) >= SIMILARITY_THRESHOLD * (s.total as u128)
}

/// Every text is highly similar to itself.
pub proof fn law_similar_reflexive(a: Seq<char>)
    ensures
        highly_similar(a, a),
{
    law_distance_zero(a, a);
}

/// High similarity is symmetric.
pub proof fn law_similar_symmetric(a: Seq<char>, b: Seq<char>)
    ensures
        highly_similar(a, b) == highly_similar(b, a),
{
    law_distance_symmetric(a, b);
}


/// The fraction and the verdict go together at every length: two texts are
/// highly similar exactly where the fraction that is their similarity reaches
/// 85 hundredths. The fraction is 1 for equal texts, and otherwise has the
/// length of the longer text below, and above it that length without the
/// edits that turn the one into the other.
pub proof fn law_verdict_follows_the_fraction(r: Similarity, a: Seq<char>, b: Seq<char>)
    requires
        is_similarity(r, a, b),
    ensures
        highly_similar(a, b) <==> 100 * r.matched >= 85 * r.total,
        a == b ==> r.matched == r.total && r.total > 0,
        a != b ==> r.matched + edit_distance(a, b) == r.total,
        a != b ==> r.total >= a.len() && r.total >= b.len() && (r.total == a.len() || r.total
            == b.len()),
{
    law_distance_zero(a, b);
    law_distance_bounds(a, b);
}

/// Two texts are highly similar exactly where some edit script turns the one
/// into the other with at most 15 edits for each 100 characters of the longer
/// one.
pub proof fn law_similar_texts_are_few_edits_apart(a: Seq<char>, b: Seq<char>)
    ensures
        highly_similar(a, b) <==> exists|steps: Seq<Seq<char>>|
            #![trigger edit_script(steps, a, b)]
            edit_script(steps, a, b) && (100 * (steps.len() - 1) <= 15 * a.len() || 100 * (
            steps.len() - 1) <= 15 * b.len()),
{
    law_distance_bounds(a, b);
    if highly_similar(a, b) {
        let steps = law_distance_is_reached(a, b);
        assert(edit_script(steps, a, b));
    }
    if exists|steps: Seq<Seq<char>>|
        #![trigger edit_script(steps, a, b)]
        edit_script(steps, a, b) && (100 * (steps.len() - 1) <= 15 * a.len() || 100 * (steps.len()
            - 1) <= 15 * b.len()) {
        let steps = choose|steps: Seq<Seq<char>>|
            #![trigger edit_script(steps, a, b)]
            edit_script(steps, a, b) && (100 * (steps.len() - 1) <= 15 * a.len() || 100 * (
            steps.len() - 1) <= 15 * b.len());
        law_distance_is_minimal(steps, a, b);
    }
}

/// Texts that differ much in length are not highly similar.
pub proof fn law_similar_texts_have_similar_lengths(a: Seq<char>, b: Seq<char>)
    requires
        highly_similar(a, b),
    ensures
        100 * a.len() >= 85 * b.len(),
        100 * b.len() >= 85 * a.len(),
{
    law_distance_bounds(a, b);
}

} // verus!
