//! What holds of every proportional merge.

use vstd::prelude::*;
use crate::combine::{contents, drawn, interleave, lengths, targets};
use crate::schedule::{
    from_source, lemma_quota_of_empty, lemma_schedule_keeps_order, lemma_schedule_len,
    picks_after, quota, run_of, schedule, step_picks, total_len, Pick,
};

verus! {

/// A merge has as many entries as its lists have together.
pub proof fn lemma_interleave_len<T>(lists: Seq<Seq<T>>)
    ensures
        interleave(lists).len() == total_len(lengths(lists)),
{
    lemma_schedule_len(lengths(lists));
}

/// The entries that a merge draws from one list, in the order in which the
/// merge has them, are that list: the merge keeps the order within each list.
pub proof fn lemma_interleave_keeps_order<T>(lists: Seq<Seq<T>>, source: int)
    requires
        0 <= source < lists.len(),
    ensures
        drawn(lists, schedule(lengths(lists)).filter(from_source(source))) == lists[source],
{
    lemma_schedule_keeps_order(lengths(lists), source);
    assert(drawn(lists, run_of(source, lists[source].len())) =~= lists[source]);
}

/// Two merges of the same lists in the same order are the same.
pub proof fn lemma_merge_is_unique<T>(lists: &[Vec<T>], first: Vec<&T>, second: Vec<&T>)
    requires
        targets(first@) == interleave(contents(lists@)),
        targets(second@) == interleave(contents(lists@)),
    ensures
        first@ == second@,
{
    assert(targets(first@).len() == first@.len());
    assert(targets(second@).len() == second@.len());
    assert forall|at: int| 0 <= at < first@.len() implies first@[at] == second@[at] by {
        assert(targets(first@)[at] == *first@[at]);
        assert(targets(second@)[at] == *second@[at]);
    }
    assert(first@ =~= second@);
}

proof fn lemma_filter_keeps_all<A>(items: Seq<A>, keep: spec_fn(A) -> bool)
    requires
        forall|at: int| 0 <= at < items.len() ==> keep(#[trigger] items[at]),
    ensures
        items.filter(keep) == items,
    decreases items.len(),
{
    reveal(Seq::filter);
    if items.len() > 0 {
        lemma_filter_keeps_all(items.drop_last(), keep);
        assert(items.drop_last().push(items.last()) =~= items);
    }
}

/// A single list merges into itself.
pub proof fn lemma_interleave_single<T>(list: Seq<T>)
    ensures
        interleave(seq![list]) == list,
{
    let lists = seq![list];
    let picks = schedule(lengths(lists));
    lemma_schedule_len(lengths(lists));
    lemma_filter_keeps_all(picks, from_source(0));
    lemma_interleave_keeps_order(lists, 0);
}

proof fn lemma_total_len_with_zero(lens: Seq<nat>, at: int)
    requires
        0 <= at <= lens.len(),
    ensures
        total_len(lens.insert(at, 0)) == total_len(lens),
    decreases lens.len(),
{
    if at == lens.len() {
        assert(lens.insert(at, 0).drop_last() =~= lens);
    } else {
        lemma_total_len_with_zero(lens.drop_last(), at);
        assert(lens.insert(at, 0).drop_last() =~= lens.drop_last().insert(at, 0));
    }
}

proof fn lemma_drawn_push<T>(lists: Seq<Seq<T>>, picks: Seq<Pick>, pick: Pick)
    ensures
        drawn(lists, picks.push(pick)) == drawn(lists, picks).push(
            lists[pick.source][pick.index],
        ),
{
    assert(drawn(lists, picks.push(pick)) =~= drawn(lists, picks).push(
        lists[pick.source][pick.index],
    ));
}

proof fn lemma_drawn_add<T>(lists: Seq<Seq<T>>, first: Seq<Pick>, second: Seq<Pick>)
    ensures
        drawn(lists, first + second) == drawn(lists, first) + drawn(lists, second),
{
    assert(drawn(lists, first + second) =~= drawn(lists, first) + drawn(lists, second));
}

/// What one step draws is the same with an empty list put in at `at`: from
/// the first `upto` lists without it, and from as many with it, the empty
/// list counted where it has been passed.
proof fn lemma_step_with_empty<T>(lists: Seq<Seq<T>>, at: int, step: nat, upto: nat)
    requires
        0 <= at <= lists.len(),
        0 < step <= total_len(lengths(lists)),
        upto <= lists.len(),
    ensures
        drawn(
            lists.insert(at, Seq::empty()),
            step_picks(
                lengths(lists.insert(at, Seq::empty())),
                step,
                if upto < at {
                    upto
                } else {
                    upto + 1
                },
            ),
        ) == drawn(lists, step_picks(lengths(lists), step, upto)),
        upto == at ==> drawn(
            lists.insert(at, Seq::empty()),
            step_picks(lengths(lists.insert(at, Seq::empty())), step, upto),
        ) == drawn(lists, step_picks(lengths(lists), step, upto)),
    decreases upto,
{
    let wider = lists.insert(at, Seq::empty());
    let lens = lengths(lists);
    let wider_lens = lengths(wider);
    let total = total_len(lens);
    assert(wider_lens =~= lens.insert(at, 0));
    lemma_total_len_with_zero(lens, at);
    if upto == 0 {
        assert(drawn(wider, Seq::<Pick>::empty()) =~= drawn(lists, Seq::<Pick>::empty()));
    } else {
        lemma_step_with_empty(lists, at, step, (upto - 1) as nat);
        let source = upto - 1;
        let given = quota(lens[source], (step - 1) as nat, total);
        let earlier = step_picks(lens, step, source as nat);
        let pick = Pick { source, index: given as int };
        lemma_drawn_push(lists, earlier, pick);
        if upto <= at {
            let wider_earlier = step_picks(wider_lens, step, source as nat);
            lemma_drawn_push(wider, wider_earlier, pick);
        } else {
            let wider_earlier = step_picks(wider_lens, step, (source + 1) as nat);
            let wider_pick = Pick { source: source + 1, index: given as int };
            lemma_drawn_push(wider, wider_earlier, wider_pick);
        }
    }
    if upto == at {
        lemma_quota_of_empty(step, total);
        lemma_quota_of_empty((step - 1) as nat, total);
        assert(step_picks(wider_lens, step, (at + 1) as nat) == step_picks(
            wider_lens,
            step,
            at as nat,
        ));
    }
}

proof fn lemma_picks_with_empty<T>(lists: Seq<Seq<T>>, at: int, steps: nat)
    requires
        0 <= at <= lists.len(),
        steps <= total_len(lengths(lists)),
    ensures
        drawn(
            lists.insert(at, Seq::empty()),
            picks_after(lengths(lists.insert(at, Seq::empty())), steps),
        ) == drawn(lists, picks_after(lengths(lists), steps)),
    decreases steps,
{
    let wider = lists.insert(at, Seq::empty());
    let lens = lengths(lists);
    let wider_lens = lengths(wider);
    if steps == 0 {
        assert(drawn(wider, Seq::<Pick>::empty()) =~= drawn(lists, Seq::<Pick>::empty()));
    } else {
        lemma_picks_with_empty(lists, at, (steps - 1) as nat);
        lemma_step_with_empty(lists, at, steps, lists.len());
        lemma_drawn_add(
            lists,
            picks_after(lens, (steps - 1) as nat),
            step_picks(lens, steps, lens.len()),
        );
        lemma_drawn_add(
            wider,
            picks_after(wider_lens, (steps - 1) as nat),
            step_picks(wider_lens, steps, wider_lens.len()),
        );
    }
}

/// Empty lists are neutral: a merge is the same with an empty list put in
/// anywhere among its lists.
pub proof fn lemma_empty_list_is_neutral<T>(lists: Seq<Seq<T>>, at: int)
    requires
        0 <= at <= lists.len(),
    ensures
        interleave(lists.insert(at, Seq::empty())) == interleave(lists),
{
    let lens = lengths(lists);
    assert(lengths(lists.insert(at, Seq::empty())) =~= lens.insert(at, 0));
    lemma_total_len_with_zero(lens, at);
    lemma_picks_with_empty(lists, at, total_len(lens));
}

/// A list merged with an empty one is the list itself.
pub proof fn lemma_interleave_with_empty<T>(list: Seq<T>)
    ensures
        interleave(seq![list, Seq::empty()]) == list,
{
    assert(seq![list].insert(1, Seq::empty()) =~= seq![list, Seq::empty()]);
    lemma_empty_list_is_neutral(seq![list], 1);
    lemma_interleave_single(list);
}

} // verus!
