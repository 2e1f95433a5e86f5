//! The proportional merge of several lists into one.
//!
//! The merge holds every entry of every list. It draws from the lists as
//! `schedule` says: from each at the rate of its share of the whole, so that
//! no list comes in one run, and from each in the list's own order.

use vstd::prelude::*;
use crate::laws::lemma_interleave_len;
use crate::playlist::{join_lines, joined, slice_texts, Playlist};
use crate::schedule::{
    lemma_len_within_total, lemma_quota_ends, lemma_quota_step, lemma_schedule_len, picks_after,
    quota, schedule, step_picks, total_len, Pick,
};

verus! {

/// The lengths of `lists`, in their order.
pub open spec fn lengths<T>(lists: Seq<Seq<T>>) -> Seq<nat> {
    Seq::new(lists.len(), |source: int| lists[source].len())
}

/// The entries of `lists` that `picks` names, in the order of `picks`.
pub open spec fn drawn<T>(lists: Seq<Seq<T>>, picks: Seq<Pick>) -> Seq<T> {
    Seq::new(picks.len(), |at: int| lists[picks[at].source][picks[at].index])
}

/// The proportional merge of `lists`: every entry of every list, each list
/// drawn from at the rate of its share of the whole.
pub open spec fn interleave<T>(lists: Seq<Seq<T>>) -> Seq<T> {
    drawn(lists, schedule(lengths(lists)))
}

/// What the vectors hold.
pub open spec fn contents<T>(lists: Seq<Vec<T>>) -> Seq<Seq<T>> {
    Seq::new(lists.len(), |source: int| lists[source]@)
}

/// What the references point to.
pub open spec fn targets<T>(refs: Seq<&T>) -> Seq<T> {
    Seq::new(refs.len(), |at: int| *refs[at])
}

proof fn lemma_lengths_prefix<T>(lists: Seq<Seq<T>>, upto: int)
    requires
        0 <= upto < lists.len(),
    ensures
        total_len(lengths(lists.take(upto + 1))) == total_len(lengths(lists.take(upto)))
            + lists[upto].len(),
{
    assert(lengths(lists.take(upto + 1)).drop_last() =~= lengths(lists.take(upto)));
}

proof fn lemma_total_len_grows(lens: Seq<nat>, upto: int)
    requires
        0 <= upto <= lens.len(),
    ensures
        total_len(lens.take(upto)) <= total_len(lens),
    decreases lens.len() - upto,
{
    if upto < lens.len() {
        lemma_total_len_grows(lens, upto + 1);
        assert(lens.take(upto + 1).drop_last() =~= lens.take(upto));
    } else {
        assert(lens.take(upto) =~= lens);
    }
}

/// The number of entries in all of `lists`, or `None` where it is more than
/// a `usize` holds.
pub fn total_size<T>(lists: &[Vec<T>]) -> (total: Option<usize>)
    ensures
        total == if total_len(lengths(contents(lists@))) <= usize::MAX {
            Some(total_len(lengths(contents(lists@))) as usize)
        } else {
            None
        },
{
    let ghost sources = contents(lists@);
    let mut total: usize = 0;
    let mut source: usize = 0;
    while source < lists.len()
        invariant
            source <= lists.len(),
            sources == contents(lists@),
            total == total_len(lengths(sources.take(source as int))),
        decreases lists.len() - source,
    {
        proof {
            lemma_lengths_prefix(sources, source as int);
        }
        match total.checked_add(lists[source].len()) {
            Some(sum) => {
                total = sum;
            },
            None => {
                proof {
                    assert(lengths(sources).take(source + 1) =~= lengths(
                        sources.take(source + 1),
                    ));
                    lemma_total_len_grows(lengths(sources), source + 1);
                }
                return None;
            },
        }
        source += 1;
    }
    proof {
        assert(sources.take(source as int) =~= sources);
    }
    Some(total)
}

/// As many zeros as `count`.
fn zeros(count: usize) -> (counts: Vec<usize>)
    ensures
        counts@ == Seq::new(count as nat, |source: int| 0usize),
{
    let mut counts: Vec<usize> = Vec::with_capacity(count);
    while counts.len() < count
        invariant
            counts.len() <= count,
            forall|source: int| 0 <= source < counts.len() ==> counts[source] == 0,
        decreases count - counts.len(),
    {
        counts.push(0);
    }
    assert(counts@ =~= Seq::new(count as nat, |source: int| 0usize));
    counts
}

/// Whether a source of `len` entries that has given `given` of them is behind
/// after `step` of `total` steps: whether `given / len < step / total`.
fn is_behind(given: usize, len: usize, step: usize, total: usize) -> (behind: bool)
    ensures
        behind == (given * total < len * step),
{
    assert(usize::MAX <= u64::MAX);
    assert(given * total <= u64::MAX * u64::MAX && len * step <= u64::MAX * u64::MAX)
        by (nonlinear_arith)
        requires
            given <= u64::MAX,
            total <= u64::MAX,
            len <= u64::MAX,
            step <= u64::MAX,
    ;
    (given as u128) * (total as u128) < (len as u128) * (step as u128)
}

/// Merges `lists` into one list that draws from each at the rate of its share
/// of the whole. It takes as many steps as there are entries. At each step it
/// visits the lists in their order and takes the next entry of each list that
/// has so far given less than its share of the steps taken.
///
/// The lists together hold no more entries than a `usize` counts, which
/// `total_size` tells.
pub fn combine_lists<T>(lists: &[Vec<T>]) -> (combined: Vec<&T>)
    requires
        total_len(lengths(contents(lists@))) <= usize::MAX,
    ensures
        targets(combined@) == interleave(contents(lists@)),
        combined@.len() == total_len(lengths(contents(lists@))),
{
    let ghost sources = contents(lists@);
    let ghost lens = lengths(sources);
    let total = total_size(lists).unwrap();
    let mut given = zeros(lists.len());
    let mut combined: Vec<&T> = Vec::new();
    let mut step: usize = 0;
    proof {
        assert forall|source: int| 0 <= source < lens.len() implies given[source] == quota(
            lens[source],
            0,
            total as nat,
        ) by {
            lemma_len_within_total(lens, source);
            lemma_quota_ends(lens[source], total as nat);
        }
        assert(targets(combined@) =~= drawn(sources, picks_after(lens, 0)));
    }
    while step < total
        invariant
            sources == contents(lists@),
            lens == lengths(sources),
            total == total_len(lens),
            step <= total,
            given.len() == lists.len(),
            forall|source: int|
                0 <= source < lens.len() ==> given[source] == quota(
                    lens[source],
                    step as nat,
                    total as nat,
                ),
            targets(combined@) == drawn(sources, picks_after(lens, step as nat)),
        decreases total - step,
    {
        step += 1;
        let mut source: usize = 0;
        while source < lists.len()
            invariant
                sources == contents(lists@),
                lens == lengths(sources),
                total == total_len(lens),
                0 < step <= total,
                source <= lists.len(),
                given.len() == lists.len(),
                forall|done: int|
                    0 <= done < source ==> given[done] == quota(
                        lens[done],
                        step as nat,
                        total as nat,
                    ),
                forall|ahead: int|
                    source <= ahead < lens.len() ==> given[ahead] == quota(
                        lens[ahead],
                        (step - 1) as nat,
                        total as nat,
                    ),
                targets(combined@) == drawn(
                    sources,
                    picks_after(lens, (step - 1) as nat) + step_picks(
                        lens,
                        step as nat,
                        source as nat,
                    ),
                ),
            decreases lists.len() - source,
        {
            let list = &lists[source];
            let before = given[source];
            let ghost picks = picks_after(lens, (step - 1) as nat) + step_picks(
                lens,
                step as nat,
                source as nat,
            );
            proof {
                lemma_len_within_total(lens, source as int);
                lemma_quota_step(lens[source as int], step as nat, total as nat);
            }
            let ghost merged = targets(combined@);
            if is_behind(before, list.len(), step, total) {
                combined.push(&list[before]);
                given.set(source, before + 1);
                proof {
                    let pick = Pick { source: source as int, index: before as int };
                    assert(step_picks(lens, step as nat, (source + 1) as nat) == step_picks(
                        lens,
                        step as nat,
                        source as nat,
                    ).push(pick));
                    assert(picks_after(lens, (step - 1) as nat) + step_picks(
                        lens,
                        step as nat,
                        (source + 1) as nat,
                    ) =~= picks.push(pick));
                    assert(sources[pick.source][pick.index] == list@[before as int]);
                    assert(targets(combined@) =~= merged.push(list@[before as int]));
                    assert(drawn(sources, picks.push(pick)) =~= drawn(sources, picks).push(
                        list@[before as int],
                    ));
                }
            }
            source += 1;
        }
    }
    proof {
        lemma_interleave_len(sources);
    }
    combined
}

/// The lines of each playlist, as texts.
pub open spec fn line_texts(playlists: Seq<Vec<String>>) -> Seq<Seq<Seq<char>>> {
    Seq::new(
        playlists.len(),
        |source: int| Seq::new(playlists[source]@.len(), |index: int| playlists[source]@[index]@),
    )
}

/// Merges `playlists`, each given by its lines, into the playlist
/// `combined.m3u8`, which draws from each of them at the rate of its share of
/// all lines. Gives `None` where the playlists have more lines together than
/// a `usize` counts.
pub fn combine_playlists(playlists: &[Vec<String>]) -> (combined: Option<Playlist>)
    ensures
        match combined {
            Some(combined) => {
                &&& total_len(lengths(contents(playlists@))) <= usize::MAX
                &&& combined@.name == "combined.m3u8"@
                &&& combined@.content == joined(interleave(line_texts(playlists@)))
            },
            None => total_len(lengths(contents(playlists@))) > usize::MAX,
        },
{
    if total_size(playlists).is_none() {
        return None;
    }
    let lines = combine_lists(playlists);
    let mut slices: Vec<&str> = Vec::new();
    let mut at: usize = 0;
    while at < lines.len()
        invariant
            at <= lines.len(),
            slices@.len() == at,
            forall|done: int| 0 <= done < at ==> (#[trigger] slices@[done])@ == lines@[done]@,
        decreases lines.len() - at,
    {
        slices.push(lines[at].as_str());
        at += 1;
    }
    proof {
        lemma_schedule_len(lengths(contents(playlists@)));
        assert(lengths(line_texts(playlists@)) =~= lengths(contents(playlists@)));
        assert forall|done: int| 0 <= done < slices@.len() implies (#[trigger] slices@[done])@
            == interleave(line_texts(playlists@))[done] by {
            assert(targets(lines@)[done] == *lines@[done]);
        }
        assert(slice_texts(slices@) =~= interleave(line_texts(playlists@)));
    }
    Some(Playlist { name: "combined.m3u8".to_owned(), content: join_lines(slices.as_slice()) })
}

} // verus!
