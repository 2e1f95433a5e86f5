//! The listing of a directory: the paths of its entries, in ascending order.
//!
//! Paths are ordered as texts: by the first character in which they differ,
//! the one with the smaller code point first, and a text before every longer
//! one that starts with it. This is the order of their bytes in UTF-8.

use vstd::prelude::*;
use vstd::relations::{sorted_by, total_ordering};
use vstd::seq_lib::lemma_sorted_unique;
use crate::text::texts;

verus! {

/// Whether `first` stands before `second`, or is `second`.
pub open spec fn precedes(first: Seq<char>, second: Seq<char>) -> bool
    decreases first.len(),
{
    if first.len() == 0 {
        true
    } else if second.len() == 0 {
        false
    } else if first[0] != second[0] {
        (first[0] as int) < (second[0] as int)
    } else {
        precedes(first.skip(1), second.skip(1))
    }
}

/// The order of paths, as a relation.
pub open spec fn path_order() -> spec_fn(Seq<char>, Seq<char>) -> bool {
    |first: Seq<char>, second: Seq<char>| precedes(first, second)
}

/// Whether each of `paths` stands before those that follow it, or is the
/// same.
pub open spec fn ascending(paths: Seq<Seq<char>>) -> bool {
    sorted_by(paths, path_order())
}

/// `paths` in ascending order: by `lemma_sorted_is_ascending` and
/// `lemma_listing_is_determined`, the one sequence in ascending order that
/// holds the same paths, each as often.
pub open spec fn sorted(paths: Seq<Seq<char>>) -> Seq<Seq<char>> {
    paths.sort_by(path_order())
}

proof fn lemma_precedes_itself(text: Seq<char>)
    ensures
        precedes(text, text),
    decreases text.len(),
{
    if text.len() > 0 {
        lemma_precedes_itself(text.skip(1));
    }
}

proof fn lemma_precedes_one_way(first: Seq<char>, second: Seq<char>)
    requires
        precedes(first, second),
        precedes(second, first),
    ensures
        first == second,
    decreases first.len(),
{
    if first.len() > 0 {
        lemma_precedes_one_way(first.skip(1), second.skip(1));
        assert(first =~= seq![first[0]] + first.skip(1));
        assert(second =~= seq![second[0]] + second.skip(1));
    } else {
        assert(first =~= second);
    }
}

proof fn lemma_precedes_chains(first: Seq<char>, second: Seq<char>, third: Seq<char>)
    requires
        precedes(first, second),
        precedes(second, third),
    ensures
        precedes(first, third),
    decreases first.len(),
{
    if first.len() > 0 && first[0] == second[0] && second[0] == third[0] {
        lemma_precedes_chains(first.skip(1), second.skip(1), third.skip(1));
    }
}

proof fn lemma_precedes_either_way(first: Seq<char>, second: Seq<char>)
    ensures
        precedes(first, second) || precedes(second, first),
    decreases first.len(),
{
    if first.len() > 0 && second.len() > 0 && first[0] == second[0] {
        lemma_precedes_either_way(first.skip(1), second.skip(1));
    }
}

/// The order of paths is a total order.
pub proof fn lemma_path_order_is_total()
    ensures
        total_ordering(path_order()),
{
    let order = path_order();
    assert forall|text: Seq<char>| #[trigger] order(text, text) by {
        lemma_precedes_itself(text);
    }
    assert forall|first: Seq<char>, second: Seq<char>| #[trigger]
        order(first, second) && #[trigger] order(second, first) implies first == second by {
        lemma_precedes_one_way(first, second);
    }
    assert forall|first: Seq<char>, second: Seq<char>, third: Seq<char>| #[trigger]
        order(first, second) && #[trigger] order(second, third) implies order(first, third) by {
        lemma_precedes_chains(first, second, third);
    }
    assert forall|first: Seq<char>, second: Seq<char>| #[trigger]
        order(first, second) || #[trigger] order(second, first) by {
        lemma_precedes_either_way(first, second);
    }
}

/// `sorted(paths)` holds the paths that `paths` holds, each as often, and
/// holds them in ascending order.
pub proof fn lemma_sorted_is_ascending(paths: Seq<Seq<char>>)
    ensures
        ascending(sorted(paths)),
        sorted(paths).to_multiset() == paths.to_multiset(),
        sorted(paths).len() == paths.len(),
{
    lemma_path_order_is_total();
    paths.lemma_sort_by_ensures(path_order());
    paths.to_multiset_ensures();
    sorted(paths).to_multiset_ensures();
}

/// A listing is determined by what it lists: two listings in ascending order
/// that hold the same paths, each as often, are the same, in whatever order
/// the paths were found.
pub proof fn lemma_listing_is_determined(first: Seq<Seq<char>>, second: Seq<Seq<char>>)
    requires
        ascending(first),
        ascending(second),
        first.to_multiset() == second.to_multiset(),
    ensures
        first == second,
{
    lemma_path_order_is_total();
    lemma_sorted_unique(first, second, path_order());
}

/// The order in which entries are found does not show in a listing: the
/// same paths, each as often, sort into the same listing.
pub proof fn lemma_sorted_ignores_order(first: Seq<Seq<char>>, second: Seq<Seq<char>>)
    requires
        first.to_multiset() == second.to_multiset(),
    ensures
        sorted(first) == sorted(second),
{
    lemma_sorted_is_ascending(first);
    lemma_sorted_is_ascending(second);
    lemma_listing_is_determined(sorted(first), sorted(second));
}

/// Calls std's `sort` on the vector. It puts the strings in ascending
/// order and keeps each as often as it was there. std orders strings by their
/// bytes, which is the order of the code points of their characters: the
/// first difference decides, and a prefix stands before what it is a prefix
/// of.
#[verifier::external_body]
fn sort_strings(strings: &mut Vec<String>)
    ensures
        ascending(texts(final(strings)@)),
        texts(final(strings)@).to_multiset() == texts(old(strings)@).to_multiset(),
{
    strings.sort();
}

/// Puts `paths` in ascending order.
pub fn sort_paths(paths: Vec<String>) -> (listing: Vec<String>)
    ensures
        texts(listing@) == sorted(texts(paths@)),
        ascending(texts(listing@)),
        texts(listing@).to_multiset() == texts(paths@).to_multiset(),
{
    let mut listing = paths;
    sort_strings(&mut listing);
    proof {
        lemma_sorted_is_ascending(texts(paths@));
        lemma_listing_is_determined(texts(listing@), sorted(texts(paths@)));
    }
    listing
}

} // verus!
