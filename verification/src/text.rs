//! Small helpers on text.

use vstd::prelude::*;

verus! {

/// `str`'s own equality: two slices are equal exactly when they hold the same
/// characters in the same order.
pub assume_specification[ <str as PartialEq>::eq ](left: &str, right: &str) -> (same: bool)
    ensures
        same == (left@ == right@),
;

/// Whether a text stands before another in the order of their characters.
pub open spec fn text_before(left: Seq<char>, right: Seq<char>) -> bool
    decreases left.len(),
{
    if right.len() == 0 {
        false
    } else if left.len() == 0 {
        true
    } else if left[0] != right[0] {
        (left[0] as int) < (right[0] as int)
    } else {
        text_before(left.drop_first(), right.drop_first())
    }
}

/// `str`'s own order: slices are ordered by their bytes, which is the order of
/// their characters by code point, character by character, and a slice stands
/// before those that it starts.
#[verifier::external_body]
fn is_before(left: &str, right: &str) -> (before: bool)
    ensures
        before == text_before(left@, right@),
{
    left < right
}

/// Whether a text stands before another.
pub fn comes_before(left: &str, right: &str) -> (before: bool)
    ensures
        before == text_before(left@, right@),
{
    is_before(left, right)
}

/// Texts are in a strict order.
pub proof fn lemma_text_order(first: Seq<char>, second: Seq<char>, third: Seq<char>)
    ensures
        !text_before(first, first),
        text_before(first, second) ==> !text_before(second, first),
        text_before(first, second) && text_before(second, third) ==> text_before(first, third),
        first == second || text_before(first, second) || text_before(second, first),
    decreases first.len() + second.len() + third.len(),
{
    if first.len() > 0 && second.len() > 0 {
        if third.len() > 0 {
            lemma_text_order(first.drop_first(), second.drop_first(), third.drop_first());
        } else {
            lemma_text_order(first.drop_first(), second.drop_first(), third);
        }
        if first[0] == second[0] && first.drop_first() == second.drop_first() {
            assert(first =~= seq![first[0]] + first.drop_first());
            assert(second =~= seq![second[0]] + second.drop_first());
        }
        if first[0] != second[0] {
            assert(first[0] as int != second[0] as int);
        }
    } else if first.len() > 0 {
        lemma_text_order(first.drop_first(), second, third);
    } else if second.len() == 0 {
        assert(first =~= second);
    }
}

/// Whether both slices hold the same text.
pub fn same_text(left: &str, right: &str) -> (same: bool)
    ensures
        same == (left@ == right@),
{
    *left == *right
}

} // verus!
