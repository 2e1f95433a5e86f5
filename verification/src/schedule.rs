//! The order in which a proportional merge draws from its sources.
//!
//! A merge of sources with lengths `lens` takes as many steps as there are
//! entries in total. At each step it visits the sources in the order given,
//! and draws the next entry from each source that is behind: one that has
//! given a smaller part of its entries than the part of the steps that the
//! merge has come to. So after `step` of `total` steps a source of length
//! `len` has given `len * step / total` entries, rounded up. That number is
//! `quota(len, step, total)`, and the schedule is stated by it;
//! `lemma_quota_step` shows that it grows as the rule says.

use vstd::prelude::*;
use vstd::arithmetic::div_mod::lemma_fundamental_div_mod;

verus! {

/// One draw of the merge: entry `index` of source `source`.
pub struct Pick {
    pub source: int,
    pub index: int,
}

/// The sum of `lens`.
pub open spec fn total_len(lens: Seq<nat>) -> nat
    decreases lens.len(),
{
    if lens.len() == 0 {
        0
    } else {
        total_len(lens.drop_last()) + lens.last()
    }
}

/// How many entries a source of length `len` has given after `step` of
/// `total` steps: `len * step / total`, rounded up.
pub open spec fn quota(len: nat, step: nat, total: nat) -> nat {
    if total == 0 {
        0
    } else {
        ((len * step + total - 1) / (total as int)) as nat
    }
}

/// The picks of step `step` at the first `upto` sources, in the order of the
/// sources: a source is drawn from when its quota has grown since the step
/// before, and gives the entry after those it gave already.
pub open spec fn step_picks(lens: Seq<nat>, step: nat, upto: nat) -> Seq<Pick>
    decreases upto,
{
    if upto == 0 {
        Seq::empty()
    } else {
        let source = upto - 1;
        let earlier = step_picks(lens, step, source as nat);
        let given = quota(lens[source], (step - 1) as nat, total_len(lens));
        if quota(lens[source], step, total_len(lens)) > given {
            earlier.push(Pick { source, index: given as int })
        } else {
            earlier
        }
    }
}

/// The picks of the first `steps` steps.
pub open spec fn picks_after(lens: Seq<nat>, steps: nat) -> Seq<Pick>
    decreases steps,
{
    if steps == 0 {
        Seq::empty()
    } else {
        picks_after(lens, (steps - 1) as nat) + step_picks(lens, steps, lens.len())
    }
}

/// All picks of a merge of sources with lengths `lens`, in output order.
pub open spec fn schedule(lens: Seq<nat>) -> Seq<Pick> {
    picks_after(lens, total_len(lens))
}

/// The quota is the least count `q` with `q * total >= len * step`.
pub proof fn lemma_quota_is_ceiling(len: nat, step: nat, total: nat)
    requires
        total > 0,
    ensures
        quota(len, step, total) * total >= len * step,
        quota(len, step, total) * total < len * step + total,
{
    let x = (len * step + total - 1) as int;
    let t = total as int;
    assert(len * step >= 0) by (nonlinear_arith);
    lemma_fundamental_div_mod(x, t);
    assert(0 <= x % t < t) by (nonlinear_arith)
        requires
            t > 0,
    ;
    assert(x / t >= 0) by (nonlinear_arith)
        requires
            x >= 0,
            t > 0,
    ;
    assert(t * (x / t) == (x / t) * t) by (nonlinear_arith);
}

/// A count within one `total` of `len * step` from above is the quota.
pub proof fn lemma_ceiling_is_quota(count: nat, len: nat, step: nat, total: nat)
    requires
        total > 0,
        count * total >= len * step,
        count * total < len * step + total,
    ensures
        count == quota(len, step, total),
{
    lemma_quota_is_ceiling(len, step, total);
    let q = quota(len, step, total);
    assert(count == q) by (nonlinear_arith)
        requires
            total > 0,
            count * total >= len * step,
            count * total < len * step + total,
            q * total >= len * step,
            q * total < len * step + total,
    ;
}

/// From one step to the next a source gives one more entry exactly when
/// what it has given, as a share of its length, is behind the progress of the
/// merge; and it then still has an entry to give.
pub proof fn lemma_quota_step(len: nat, step: nat, total: nat)
    requires
        len <= total,
        0 < step <= total,
    ensures
        quota(len, step, total) == quota(len, (step - 1) as nat, total) + (if quota(
            len,
            (step - 1) as nat,
            total,
        ) * total < len * step {
            1nat
        } else {
            0nat
        }),
        quota(len, step, total) <= len,
{
    let before = quota(len, (step - 1) as nat, total);
    lemma_quota_is_ceiling(len, (step - 1) as nat, total);
    assert(len * (step - 1) + len == len * step) by (nonlinear_arith);
    if before * total < len * step {
        assert((before + 1) * total == before * total + total) by (nonlinear_arith);
        lemma_ceiling_is_quota(before + 1, len, step, total);
    } else {
        lemma_ceiling_is_quota(before, len, step, total);
    }
    lemma_quota_is_ceiling(len, step, total);
    let after = quota(len, step, total);
    assert(after <= len) by (nonlinear_arith)
        requires
            after * total < len * step + total,
            0 < step <= total,
            total > 0,
    ;
}

/// Before the first step nothing has been given, after the last everything.
pub proof fn lemma_quota_ends(len: nat, total: nat)
    requires
        len <= total,
    ensures
        quota(len, 0, total) == 0,
        quota(len, total, total) == len,
{
    if total > 0 {
        assert(len * 0 == 0) by (nonlinear_arith);
        lemma_ceiling_is_quota(0, len, 0, total);
        lemma_ceiling_is_quota(len, len, total, total);
    }
}

/// An empty source never gives anything.
pub proof fn lemma_quota_of_empty(step: nat, total: nat)
    ensures
        quota(0, step, total) == 0,
{
    if total > 0 {
        assert(0 * total >= 0 * step && 0 * total < 0 * step + total) by (nonlinear_arith)
            requires
                total > 0,
        ;
        lemma_ceiling_is_quota(0, 0, step, total);
    }
}

/// No source is longer than all of them together.
pub proof fn lemma_len_within_total(lens: Seq<nat>, source: int)
    requires
        0 <= source < lens.len(),
    ensures
        lens[source] <= total_len(lens),
    decreases lens.len(),
{
    if source < lens.len() - 1 {
        lemma_len_within_total(lens.drop_last(), source);
    }
}

/// What the first `upto` sources have given together after `step` steps.
pub open spec fn given_after(lens: Seq<nat>, step: nat, upto: nat) -> nat
    decreases upto,
{
    if upto == 0 {
        0
    } else {
        given_after(lens, step, (upto - 1) as nat) + quota(
            lens[upto - 1],
            step,
            total_len(lens),
        )
    }
}

/// Every pick of a step names a source among those visited and the entry
/// that this source gives next.
pub proof fn lemma_step_picks_valid(lens: Seq<nat>, step: nat, upto: nat)
    requires
        0 < step <= total_len(lens),
        upto <= lens.len(),
    ensures
        forall|at: int|
            0 <= at < step_picks(lens, step, upto).len() ==> {
                let pick = #[trigger] step_picks(lens, step, upto)[at];
                &&& 0 <= pick.source < upto
                &&& pick.index == quota(lens[pick.source], (step - 1) as nat, total_len(lens))
                &&& pick.index < quota(lens[pick.source], step, total_len(lens))
                &&& pick.index < lens[pick.source]
            },
        step_picks(lens, step, upto).len() + given_after(lens, (step - 1) as nat, upto)
            == given_after(lens, step, upto),
    decreases upto,
{
    if upto > 0 {
        lemma_step_picks_valid(lens, step, (upto - 1) as nat);
        lemma_len_within_total(lens, upto - 1);
        lemma_quota_step(lens[upto - 1], step, total_len(lens));
    }
}

/// Every pick of a merge names an entry that exists, and the merge has taken
/// as many picks as the sources have given.
pub proof fn lemma_picks_after_valid(lens: Seq<nat>, steps: nat)
    requires
        steps <= total_len(lens),
    ensures
        forall|at: int|
            0 <= at < picks_after(lens, steps).len() ==> {
                let pick = #[trigger] picks_after(lens, steps)[at];
                &&& 0 <= pick.source < lens.len()
                &&& 0 <= pick.index < lens[pick.source]
            },
        picks_after(lens, steps).len() == given_after(lens, steps, lens.len()),
    decreases steps,
{
    if steps > 0 {
        lemma_picks_after_valid(lens, (steps - 1) as nat);
        lemma_step_picks_valid(lens, steps, lens.len());
    } else {
        lemma_nothing_given_at_start(lens, lens.len());
    }
}

proof fn lemma_nothing_given_at_start(lens: Seq<nat>, upto: nat)
    requires
        upto <= lens.len(),
    ensures
        given_after(lens, 0, upto) == 0,
    decreases upto,
{
    if upto > 0 {
        lemma_nothing_given_at_start(lens, (upto - 1) as nat);
        lemma_len_within_total(lens, upto - 1);
        lemma_quota_ends(lens[upto - 1], total_len(lens));
    }
}

proof fn lemma_all_given_at_end(lens: Seq<nat>, upto: nat)
    requires
        upto <= lens.len(),
    ensures
        given_after(lens, total_len(lens), upto) == total_len(lens.take(upto as int)),
    decreases upto,
{
    if upto > 0 {
        lemma_all_given_at_end(lens, (upto - 1) as nat);
        lemma_len_within_total(lens, upto - 1);
        lemma_quota_ends(lens[upto - 1], total_len(lens));
        assert(lens.take(upto as int).drop_last() =~= lens.take(upto - 1));
    }
}

/// A merge has as many picks as its sources have entries, and each pick names
/// an entry that exists.
pub proof fn lemma_schedule_len(lens: Seq<nat>)
    ensures
        schedule(lens).len() == total_len(lens),
        forall|at: int|
            0 <= at < schedule(lens).len() ==> {
                let pick = #[trigger] schedule(lens)[at];
                &&& 0 <= pick.source < lens.len()
                &&& 0 <= pick.index < lens[pick.source]
            },
{
    lemma_picks_after_valid(lens, total_len(lens));
    lemma_all_given_at_end(lens, lens.len());
    assert(lens.take(lens.len() as int) =~= lens);
}

/// The test that a pick draws from `source`.
pub open spec fn from_source(source: int) -> spec_fn(Pick) -> bool {
    |pick: Pick| pick.source == source
}

/// The first `count` entries of `source` as picks, in their order.
pub open spec fn run_of(source: int, count: nat) -> Seq<Pick> {
    Seq::new(count, |index: int| Pick { source, index })
}

/// A step draws from a source once, where its quota has grown, or not at all.
proof fn lemma_step_picks_of_source(lens: Seq<nat>, step: nat, upto: nat, source: int)
    requires
        0 < step <= total_len(lens),
        upto <= lens.len(),
        0 <= source < lens.len(),
    ensures
        step_picks(lens, step, upto).filter(from_source(source)) == if source < upto && quota(
            lens[source],
            step,
            total_len(lens),
        ) > quota(lens[source], (step - 1) as nat, total_len(lens)) {
            seq![
                Pick {
                    source,
                    index: quota(lens[source], (step - 1) as nat, total_len(lens)) as int,
                },
            ]
        } else {
            Seq::empty()
        },
    decreases upto,
{
    reveal(Seq::filter);
    if upto > 0 {
        lemma_step_picks_of_source(lens, step, (upto - 1) as nat, source);
        let earlier = step_picks(lens, step, (upto - 1) as nat);
        let given = quota(lens[upto - 1], (step - 1) as nat, total_len(lens));
        if quota(lens[upto - 1], step, total_len(lens)) > given {
            let pick = Pick { source: upto - 1, index: given as int };
            assert(earlier.push(pick).drop_last() =~= earlier);
            if source == upto - 1 {
                assert(earlier.filter(from_source(source)).push(pick) =~= seq![pick]);
            }
        }
    }
}

/// After any number of steps the picks drawn from one source are the entries
/// that make up its quota, in their order.
pub proof fn lemma_picks_after_of_source(lens: Seq<nat>, steps: nat, source: int)
    requires
        steps <= total_len(lens),
        0 <= source < lens.len(),
    ensures
        picks_after(lens, steps).filter(from_source(source)) == run_of(
            source,
            quota(lens[source], steps, total_len(lens)),
        ),
    decreases steps,
{
    let total = total_len(lens);
    lemma_len_within_total(lens, source);
    if steps == 0 {
        reveal(Seq::filter);
        lemma_quota_ends(lens[source], total);
        assert(run_of(source, 0) =~= Seq::empty());
    } else {
        let earlier = picks_after(lens, (steps - 1) as nat);
        let latest = step_picks(lens, steps, lens.len());
        lemma_picks_after_of_source(lens, (steps - 1) as nat, source);
        lemma_step_picks_of_source(lens, steps, lens.len(), source);
        lemma_quota_step(lens[source], steps, total);
        Seq::filter_distributes_over_add(earlier, latest, from_source(source));
        assert(earlier.filter(from_source(source)) + latest.filter(from_source(source))
            =~= run_of(source, quota(lens[source], steps, total)));
    }
}

/// The picks that a merge draws from one source are all the entries of that
/// source, in their order.
pub proof fn lemma_schedule_keeps_order(lens: Seq<nat>, source: int)
    requires
        0 <= source < lens.len(),
    ensures
        schedule(lens).filter(from_source(source)) == run_of(source, lens[source]),
{
    lemma_picks_after_of_source(lens, total_len(lens), source);
    lemma_len_within_total(lens, source);
    lemma_quota_ends(lens[source], total_len(lens));
}

} // verus!
