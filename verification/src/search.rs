//! The scoring pass a search worker runs over one chunk of its shard.
//!
//! Each candidate is scored against the query; candidates that beat the
//! current lower bound survive and are handed back sorted by descending
//! score, ready to be merged into the collector.

use vstd::prelude::*;

use crate::byte_storage::FilePath;
use crate::collector::zip_entries;
use crate::fuzzy_match::score_of;
use crate::fuzzy_match::FuzzyMatcher;

verus! {

/// Scores never increase along the sequence.
pub open spec fn sorted_desc_scores(s: Seq<i32>) -> bool {
    forall|i: int, j: int| 0 <= i < j < s.len() ==> s[i] >= s[j]
}

/// The entries a chunk contributes: one per candidate whose score beats
/// `min`, in chunk order.
pub open spec fn scored_entries(q: Seq<u8>, chunk: Seq<FilePath>, min: int) -> Seq<
    (i32, Seq<u8>),
>
    decreases chunk.len(),
{
    if chunk.len() == 0 {
        Seq::empty()
    } else {
        let rest = scored_entries(q, chunk.drop_last(), min);
        let c = chunk.last();
        if score_of(q, c@) > min {
            rest.push((score_of(q, c@) as i32, c@))
        } else {
            rest
        }
    }
}

/// What a search worker does after a chunk, given what it just observed.
pub enum WorkerAction {
    /// The shutdown flag was set: leave the worker loop.
    Exit,
    /// A newer query arrived: abort this pass and start over on it.
    Rescan,
    /// Keep scanning the current pass.
    Continue,
}

/// The decision a worker takes between two chunk-scans. Shutdown always
/// wins, so a worker scans no further chunk once it has observed the flag;
/// otherwise a newer query aborts the running pass.
pub fn worker_step(should_quit: bool, has_new_input: bool) -> (r: WorkerAction)
    ensures
        should_quit ==> r == WorkerAction::Exit,
        !should_quit && has_new_input ==> r == WorkerAction::Rescan,
        !should_quit && !has_new_input ==> r == WorkerAction::Continue,
{
    if should_quit {
        WorkerAction::Exit
    } else if has_new_input {
        WorkerAction::Rescan
    } else {
        WorkerAction::Continue
    }
}

/// Score every candidate of a chunk and keep those that beat `current_min`,
/// sorted by descending score. Ties keep no particular order; the result
/// holds exactly the surviving candidates with their scores.
pub fn rank_chunk(
    matcher: &mut FuzzyMatcher,
    input: &Vec<u8>,
    chunk: &Vec<FilePath>,
    current_min: i32,
) -> (r: (Vec<i32>, Vec<FilePath>))
    requires
        30 * input@.len() <= i32::MAX as int,
        forall|k: int| 0 <= k < chunk@.len() ==> (#[trigger] chunk@[k])@.len() < usize::MAX,
    ensures
        r.0@.len() == r.1@.len(),
        sorted_desc_scores(r.0@),
        forall|k: int| 0 <= k < r.0@.len() ==> #[trigger] r.0@[k] > current_min,
        zip_entries(r.0@, r.1@).to_multiset() == scored_entries(
            input@,
            chunk@,
            current_min as int,
        ).to_multiset(),
{
    broadcast use vstd::seq_lib::group_to_multiset_ensures;

    let ghost q = input@;
    let mut points: Vec<i32> = Vec::new();
    let mut items: Vec<FilePath> = Vec::new();
    let mut i: usize = 0;
    proof {
        assert(chunk@.take(0) =~= Seq::<FilePath>::empty());
        assert(zip_entries(points@, items@) =~= Seq::<(i32, Seq<u8>)>::empty());
        assert(zip_entries(points@, items@).to_multiset() =~= scored_entries(
            q,
            chunk@.take(0),
            current_min as int,
        ).to_multiset());
    }
    while i < chunk.len()
        invariant
            0 <= i <= chunk@.len(),
            q == input@,
            30 * q.len() <= i32::MAX as int,
            forall|k: int| 0 <= k < chunk@.len() ==> (#[trigger] chunk@[k])@.len() < usize::MAX,
            points@.len() == items@.len(),
            sorted_desc_scores(points@),
            forall|k: int| 0 <= k < points@.len() ==> #[trigger] points@[k] > current_min,
            zip_entries(points@, items@).to_multiset() == scored_entries(
                q,
                chunk@.take(i as int),
                current_min as int,
            ).to_multiset(),
        decreases chunk@.len() - i,
    {
        let ghost old_zip = zip_entries(points@, items@);
        let candidate = &chunk[i];
        let s = matcher.smith_waterman(input, candidate);
        proof {
            assert(chunk@.take(i + 1).drop_last() =~= chunk@.take(i as int));
            assert(chunk@.take(i + 1).last() == chunk@[i as int]);
        }
        if s > current_min {
            let mut idx: usize = 0;
            while idx < points.len() && points[idx] >= s
                invariant
                    0 <= idx <= points@.len(),
                    forall|k: int| 0 <= k < idx ==> #[trigger] points@[k] >= s,
                decreases points@.len() - idx,
            {
                idx = idx + 1;
            }
            points.insert(idx, s);
            items.insert(idx, candidate.duplicate());
            proof {
                assert(zip_entries(points@, items@) =~= old_zip.insert(
                    idx as int,
                    (s, candidate@),
                ));
                vstd::seq_lib::to_multiset_insert(old_zip, idx as int, (s, candidate@));
                assert(scored_entries(q, chunk@.take(i + 1), current_min as int)
                    == scored_entries(q, chunk@.take(i as int), current_min as int).push(
                    (s, candidate@),
                ));
                vstd::seq_lib::to_multiset_build(
                    scored_entries(q, chunk@.take(i as int), current_min as int),
                    (s, candidate@),
                );
                assert(zip_entries(points@, items@).to_multiset() =~= scored_entries(
                    q,
                    chunk@.take(i + 1),
                    current_min as int,
                ).to_multiset());
                assert forall|x: int, y: int| 0 <= x < y < points@.len() implies points@[x]
                    >= points@[y] by {
                    if y < idx {
                    } else if x < idx && y == idx {
                    } else if x == idx && y > idx {
                    } else if x < idx && y > idx {
                    } else {
                    }
                }
            }
        } else {
            proof {
                assert(scored_entries(q, chunk@.take(i + 1), current_min as int)
                    == scored_entries(q, chunk@.take(i as int), current_min as int));
            }
        }
        i = i + 1;
    }
    proof {
        assert(chunk@.take(chunk@.len() as int) =~= chunk@);
    }
    (points, items)
}

} // verus!
