//! Temporal clustering: collapses an ordered matched-pair list into
//! contiguous runs of queried-frame indices, converts each run to a time
//! section in whole seconds, and keeps only sections longer than the
//! minimum duration.
//!
//! A run is extended while the index gap to the next pair stays below
//! `max_gap_seconds * fps`; a run over frames `a..=b` becomes the section
//! `(a / fps, (b + 1) / fps)`, and survives only if its length in seconds
//! exceeds `min_duration_seconds`.

use vstd::arithmetic::div_mod::lemma_div_is_ordered;
use vstd::arithmetic::div_mod::lemma_div_plus_one;
use vstd::prelude::*;

use crate::matcher::MatchedFrames;

verus! {

/// The pair list is ordered by queried frame index, ascending.
pub open spec fn sorted_by_queried(pairs: Seq<MatchedFrames>) -> bool {
    forall|i: int, j: int| 0 <= i < j < pairs.len() ==> pairs[i].0.idx <= pairs[j].0.idx
}

/// The queried-frame index of each pair, in order.
pub open spec fn queried_indices(pairs: Seq<MatchedFrames>) -> Seq<u64> {
    pairs.map_values(|p: MatchedFrames| p.0.idx)
}

/// Maximal contiguous runs of the remaining indices `idxs`, given an open
/// run that started at index `start` and last saw index `prev`: the next
/// index extends the open run when its gap to `prev` is below `thr`,
/// otherwise it closes the run and opens a new one.
pub open spec fn runs_rec(idxs: Seq<u64>, thr: int, start: u64, prev: u64) -> Seq<(u64, u64)>
    decreases idxs.len(),
{
    if idxs.len() == 0 {
        seq![(start, prev)]
    } else if idxs[0] - prev < thr {
        runs_rec(idxs.drop_first(), thr, start, idxs[0])
    } else {
        seq![(start, prev)] + runs_rec(idxs.drop_first(), thr, idxs[0], idxs[0])
    }
}

/// All maximal contiguous runs of `idxs` under the gap threshold `thr`,
/// each as its first and last index.
pub open spec fn runs_of(idxs: Seq<u64>, thr: int) -> Seq<(u64, u64)> {
    if idxs.len() == 0 {
        Seq::empty()
    } else {
        runs_rec(idxs.drop_first(), thr, idxs[0], idxs[0])
    }
}

/// Convert each run of frame indices to a section in whole seconds and
/// drop the ones that do not exceed the minimum duration.
pub open spec fn sections_of_runs(runs: Seq<(u64, u64)>, fps: u64, min_duration_seconds: u64) -> Seq<
    (u128, u128),
>
    decreases runs.len(),
{
    if runs.len() == 0 {
        Seq::empty()
    } else {
        let start = runs[0].0 as int / fps as int;
        let end = (runs[0].1 as int + 1) / fps as int;
        let rest = sections_of_runs(runs.drop_first(), fps, min_duration_seconds);
        if end - start > min_duration_seconds as int {
            seq![(start as u128, end as u128)] + rest
        } else {
            rest
        }
    }
}

/// The sections that clustering produces for an ordered pair list.
pub open spec fn cluster_spec(
    pairs: Seq<MatchedFrames>,
    fps: u64,
    max_gap_seconds: u64,
    min_duration_seconds: u64,
) -> Seq<(u128, u128)> {
    sections_of_runs(
        runs_of(queried_indices(pairs), max_gap_seconds as int * fps as int),
        fps,
        min_duration_seconds,
    )
}

proof fn lemma_runs_rec_props(idxs: Seq<u64>, thr: int, start: u64, prev: u64)
    requires
        start <= prev,
        forall|i: int, j: int| 0 <= i < j < idxs.len() ==> idxs[i] <= idxs[j],
        idxs.len() > 0 ==> prev <= idxs[0],
    ensures
        runs_rec(idxs, thr, start, prev).len() >= 1,
        runs_rec(idxs, thr, start, prev)[0].0 == start,
        forall|k: int|
            0 <= k < runs_rec(idxs, thr, start, prev).len() ==> (#[trigger] runs_rec(
                idxs,
                thr,
                start,
                prev,
            )[k]).0 <= runs_rec(idxs, thr, start, prev)[k].1,
        forall|k: int|
            0 <= k < runs_rec(idxs, thr, start, prev).len() - 1 ==> (#[trigger] runs_rec(
                idxs,
                thr,
                start,
                prev,
            )[k + 1]).0 - runs_rec(idxs, thr, start, prev)[k].1 >= thr,
    decreases idxs.len(),
{
    let r = runs_rec(idxs, thr, start, prev);
    if idxs.len() == 0 {
        assert(r == seq![(start, prev)]);
    } else {
        let rest_idxs = idxs.drop_first();
        assert forall|i: int, j: int|
            0 <= i < j < rest_idxs.len() implies rest_idxs[i] <= rest_idxs[j] by {
            assert(idxs[i + 1] <= idxs[j + 1]);
        }
        if idxs[0] - prev < thr {
            assert(prev <= idxs[0]);
            lemma_runs_rec_props(rest_idxs, thr, start, idxs[0]);
            assert(r == runs_rec(rest_idxs, thr, start, idxs[0]));
        } else {
            lemma_runs_rec_props(rest_idxs, thr, idxs[0], idxs[0]);
            let rest = runs_rec(rest_idxs, thr, idxs[0], idxs[0]);
            assert(r == seq![(start, prev)] + rest);
            assert(r[0] == (start, prev));
            assert forall|k: int| 0 <= k < r.len() implies (#[trigger] r[k]).0 <= r[k].1 by {
                if k > 0 {
                    assert(r[k] == rest[k - 1]);
                }
            }
            assert forall|k: int|
                0 <= k < r.len() - 1 implies (#[trigger] r[k + 1]).0 - r[k].1 >= thr by {
                if k == 0 {
                    assert(r[1] == rest[0]);
                    assert(rest[0].0 == idxs[0]);
                    assert(idxs[0] - prev >= thr);
                } else {
                    assert(r[k] == rest[k - 1]);
                    assert(r[k + 1] == rest[k]);
                    assert(rest[k - 1 + 1].0 - rest[k - 1].1 >= thr);
                }
            }
        }
    }
}

proof fn lemma_sections_of_runs_ordered(runs: Seq<(u64, u64)>, fps: u64, min_duration_seconds: u64)
    requires
        fps >= 1,
        forall|k: int| 0 <= k < runs.len() ==> (#[trigger] runs[k]).0 <= runs[k].1,
        forall|k: int|
            0 <= k < runs.len() - 1 ==> (#[trigger] runs[k + 1]).0 - runs[k].1 >= fps,
    ensures
        forall|p: int|
            0 <= p < sections_of_runs(runs, fps, min_duration_seconds).len()
                ==> (#[trigger] sections_of_runs(runs, fps, min_duration_seconds)[p]).0
                <= sections_of_runs(runs, fps, min_duration_seconds)[p].1,
        forall|p: int|
            0 <= p < sections_of_runs(runs, fps, min_duration_seconds).len() - 1
                ==> (#[trigger] sections_of_runs(runs, fps, min_duration_seconds)[p]).1
                <= sections_of_runs(runs, fps, min_duration_seconds)[p + 1].0
                && sections_of_runs(runs, fps, min_duration_seconds)[p].0 < sections_of_runs(
                runs,
                fps,
                min_duration_seconds,
            )[p + 1].0,
        sections_of_runs(runs, fps, min_duration_seconds).len() > 0 && runs.len() > 0
            ==> sections_of_runs(runs, fps, min_duration_seconds)[0].0 as int >= runs[0].0 as int
            / fps as int,
    decreases runs.len(),
{
    let secs = sections_of_runs(runs, fps, min_duration_seconds);
    if runs.len() > 0 {
        let rest_runs = runs.drop_first();
        assert forall|k: int|
            0 <= k < rest_runs.len() implies (#[trigger] rest_runs[k]).0 <= rest_runs[k].1 by {
            assert(runs[k + 1] == rest_runs[k]);
        }
        assert forall|k: int|
            0 <= k < rest_runs.len() - 1 implies (#[trigger] rest_runs[k + 1]).0
            - rest_runs[k].1 >= fps by {
            assert(runs[k + 1 + 1].0 - runs[k + 1].1 >= fps);
            assert(rest_runs[k + 1] == runs[k + 2]);
            assert(rest_runs[k] == runs[k + 1]);
        }
        lemma_sections_of_runs_ordered(rest_runs, fps, min_duration_seconds);
        let rest = sections_of_runs(rest_runs, fps, min_duration_seconds);
        let a = runs[0].0;
        let b = runs[0].1;
        let start = a as int / fps as int;
        let end = (b as int + 1) / fps as int;
        lemma_div_is_ordered(a as int, b as int + 1, fps as int);
        if rest_runs.len() > 0 {
            // the next run starts at least a full second's worth of frames later
            assert(rest_runs[0] == runs[1]);
            assert(runs[0int + 1].0 - runs[0int].1 >= fps);
            lemma_div_is_ordered(b as int + fps as int, rest_runs[0].0 as int, fps as int);
            lemma_div_plus_one(b as int, fps as int);
            lemma_div_is_ordered(b as int + 1, b as int + fps as int, fps as int);
            lemma_div_is_ordered(a as int, b as int, fps as int);
            assert(rest_runs[0].0 as int / fps as int >= end);
            assert(rest_runs[0].0 as int / fps as int > start);
        }
        if end - start > min_duration_seconds as int {
            assert(secs == seq![(start as u128, end as u128)] + rest);
            assert(secs[0] == (start as u128, end as u128));
            assert forall|p: int| 0 <= p < secs.len() implies (#[trigger] secs[p]).0
                <= secs[p].1 by {
                if p > 0 {
                    assert(secs[p] == rest[p - 1]);
                }
            }
            assert forall|p: int|
                0 <= p < secs.len() - 1 implies (#[trigger] secs[p]).1 <= secs[p + 1].0
                && secs[p].0 < secs[p + 1].0 by {
                if p == 0 {
                    if rest.len() > 0 {
                        assert(secs[1] == rest[0]);
                        assert(rest[0].0 as int >= rest_runs[0].0 as int / fps as int);
                    }
                } else {
                    assert(secs[p] == rest[p - 1]);
                    assert(secs[p + 1] == rest[p]);
                    assert(rest[p - 1 + 1].0 == rest[p].0);
                    assert(rest[p - 1].1 <= rest[p - 1 + 1].0 && rest[p - 1].0 < rest[p - 1
                        + 1].0);
                }
            }
        } else {
            assert(secs == rest);
            if secs.len() > 0 && rest_runs.len() > 0 {
                lemma_div_is_ordered(a as int, rest_runs[0].0 as int, fps as int);
            }
        }
    }
}

/// Clustering law: every section starts no later than it ends, and the
/// sections of one pair list are non-overlapping and strictly increasing
/// in their start time.
pub proof fn lemma_cluster_sections_ordered(
    pairs: Seq<MatchedFrames>,
    fps: u64,
    max_gap_seconds: u64,
    min_duration_seconds: u64,
)
    requires
        fps >= 1,
        max_gap_seconds >= 1,
        sorted_by_queried(pairs),
    ensures
        forall|p: int|
            0 <= p < cluster_spec(pairs, fps, max_gap_seconds, min_duration_seconds).len()
                ==> (#[trigger] cluster_spec(pairs, fps, max_gap_seconds, min_duration_seconds)[p]).0
                <= cluster_spec(pairs, fps, max_gap_seconds, min_duration_seconds)[p].1,
        forall|p: int|
            0 <= p < cluster_spec(pairs, fps, max_gap_seconds, min_duration_seconds).len() - 1
                ==> (#[trigger] cluster_spec(pairs, fps, max_gap_seconds, min_duration_seconds)[p]).1
                <= cluster_spec(pairs, fps, max_gap_seconds, min_duration_seconds)[p + 1].0
                && cluster_spec(pairs, fps, max_gap_seconds, min_duration_seconds)[p].0
                < cluster_spec(pairs, fps, max_gap_seconds, min_duration_seconds)[p + 1].0,
{
    let idxs = queried_indices(pairs);
    let thr = max_gap_seconds as int * fps as int;
    if pairs.len() == 0 {
        assert(idxs =~= Seq::<u64>::empty());
    } else {
        assert(thr >= fps) by (nonlinear_arith)
            requires
                max_gap_seconds >= 1 && fps >= 1 && thr == max_gap_seconds as int * fps as int,
        ;
        assert forall|i: int, j: int| 0 <= i < j < idxs.len() implies idxs[i] <= idxs[j] by {
            assert(pairs[i].0.idx <= pairs[j].0.idx);
        }
        let rest_idxs = idxs.drop_first();
        assert forall|i: int, j: int|
            0 <= i < j < rest_idxs.len() implies rest_idxs[i] <= rest_idxs[j] by {
            assert(idxs[i + 1] <= idxs[j + 1]);
        }
        lemma_runs_rec_props(rest_idxs, thr, idxs[0], idxs[0]);
        let runs = runs_rec(rest_idxs, thr, idxs[0], idxs[0]);
        assert(runs_of(idxs, thr) == runs);
        assert forall|k: int|
            0 <= k < runs.len() - 1 implies (#[trigger] runs[k + 1]).0 - runs[k].1 >= fps by {
            assert(runs[k + 1].0 - runs[k].1 >= thr);
        }
        lemma_sections_of_runs_ordered(runs, fps, min_duration_seconds);
    }
}

/// Gap law: two matched pairs land in the same run exactly when their
/// index gap is below `max_gap_seconds * fps`; a gap at or beyond the
/// threshold splits them into two runs.
pub proof fn lemma_gap_boundary(a: MatchedFrames, b: MatchedFrames, fps: u64, max_gap_seconds: u64)
    requires
        a.0.idx <= b.0.idx,
    ensures
        b.0.idx - a.0.idx < max_gap_seconds as int * fps as int ==> runs_of(
            queried_indices(seq![a, b]),
            max_gap_seconds as int * fps as int,
        ) == seq![(a.0.idx, b.0.idx)],
        b.0.idx - a.0.idx >= max_gap_seconds as int * fps as int ==> runs_of(
            queried_indices(seq![a, b]),
            max_gap_seconds as int * fps as int,
        ) == seq![(a.0.idx, a.0.idx), (b.0.idx, b.0.idx)],
{
    let thr = max_gap_seconds as int * fps as int;
    let idxs = queried_indices(seq![a, b]);
    assert(idxs =~= seq![a.0.idx, b.0.idx]);
    let rest = idxs.drop_first();
    assert(rest =~= seq![b.0.idx]);
    assert(rest[0] == b.0.idx);
    assert(rest.drop_first() =~= Seq::<u64>::empty());
    assert(runs_of(idxs, thr) == runs_rec(rest, thr, a.0.idx, a.0.idx));
    if b.0.idx - a.0.idx < thr {
        assert(runs_rec(rest, thr, a.0.idx, a.0.idx) == runs_rec(
            rest.drop_first(),
            thr,
            a.0.idx,
            b.0.idx,
        ));
        assert(runs_rec(rest.drop_first(), thr, a.0.idx, b.0.idx) == seq![(a.0.idx, b.0.idx)]);
    } else {
        assert(runs_rec(rest, thr, a.0.idx, a.0.idx) == seq![(a.0.idx, a.0.idx)] + runs_rec(
            rest.drop_first(),
            thr,
            b.0.idx,
            b.0.idx,
        ));
        assert(runs_rec(rest.drop_first(), thr, b.0.idx, b.0.idx) == seq![(b.0.idx, b.0.idx)]);
        assert(seq![(a.0.idx, a.0.idx)] + seq![(b.0.idx, b.0.idx)] =~= seq![
            (a.0.idx, a.0.idx),
            (b.0.idx, b.0.idx),
        ]);
    }
}

/// Collapse the ordered pair list into contiguous runs and emit one
/// section per run that exceeds the minimum duration, in ascending start
/// order.
#[verifier::loop_isolation(false)]
pub fn cluster(
    pairs: &Vec<MatchedFrames>,
    fps: u64,
    max_gap_seconds: u64,
    min_duration_seconds: u64,
) -> (out: Vec<(u128, u128)>)
    requires
        fps >= 1,
        max_gap_seconds * fps <= u64::MAX,
        sorted_by_queried(pairs@),
        forall|i: int| 0 <= i < pairs@.len() ==> (#[trigger] pairs@[i]).0.idx < u64::MAX,
    ensures
        out@ == cluster_spec(pairs@, fps, max_gap_seconds, min_duration_seconds),
        forall|p: int|
            0 <= p < out@.len() ==> (#[trigger] out@[p]).1 - out@[p].0
                > min_duration_seconds as int,
        forall|p: int| 0 <= p < out@.len() ==> (#[trigger] out@[p]).0 <= out@[p].1,
{
    let ghost idxs = queried_indices(pairs@);
    let ghost thr_spec = max_gap_seconds as int * fps as int;
    let thr = max_gap_seconds * fps;
    let mut out: Vec<(u128, u128)> = Vec::new();
    if pairs.len() == 0 {
        proof {
            assert(idxs =~= Seq::<u64>::empty());
        }
        return out;
    }
    let mut start: u64 = pairs[0].0.idx;
    let mut prev: u64 = start;
    let mut i: usize = 1;
    proof {
        assert(idxs[0] == start);
        assert(idxs.skip(1) =~= idxs.drop_first());
    }
    while i < pairs.len()
        invariant
            1 <= i <= pairs@.len(),
            start <= prev,
            prev == idxs[i - 1],
            forall|p: int|
                0 <= p < out@.len() ==> (#[trigger] out@[p]).1 - out@[p].0
                    > min_duration_seconds as int,
            forall|p: int| 0 <= p < out@.len() ==> (#[trigger] out@[p]).0 <= out@[p].1,
            out@ + sections_of_runs(
                runs_rec(idxs.skip(i as int), thr_spec, start, prev),
                fps,
                min_duration_seconds,
            ) == cluster_spec(pairs@, fps, max_gap_seconds, min_duration_seconds),
        decreases pairs@.len() - i,
    {
        let idx = pairs[i].0.idx;
        proof {
            assert(pairs@[i as int - 1].0.idx <= pairs@[i as int].0.idx);
            assert(prev <= idx);
            assert(idxs[i as int] == idx);
            assert(idxs.skip(i as int)[0] == idx);
            assert(idxs.skip(i as int).drop_first() =~= idxs.skip(i as int + 1));
        }
        if idx - prev < thr {
            proof {
                assert(runs_rec(idxs.skip(i as int), thr_spec, start, prev) == runs_rec(
                    idxs.skip(i as int + 1),
                    thr_spec,
                    start,
                    idx,
                ));
            }
            prev = idx;
        } else {
            let ghost rest = runs_rec(idxs.skip(i as int + 1), thr_spec, idx, idx);
            let ghost runs1 = seq![(start, prev)] + rest;
            proof {
                assert(runs_rec(idxs.skip(i as int), thr_spec, start, prev) == runs1);
                assert(runs1[0] == (start, prev));
                assert(runs1.drop_first() =~= rest);
            }
            let start_s = start / fps;
            let end_s = (prev + 1) / fps;
            proof {
                lemma_div_is_ordered(start as int, prev as int + 1, fps as int);
                assert(start_s as int == start as int / fps as int);
                assert(end_s as int == (prev as int + 1) / fps as int);
            }
            let ghost out_old = out@;
            if end_s - start_s > min_duration_seconds {
                out.push((start_s as u128, end_s as u128));
                proof {
                    assert(sections_of_runs(runs1, fps, min_duration_seconds) == seq![
                        (start_s as u128, end_s as u128),
                    ] + sections_of_runs(rest, fps, min_duration_seconds));
                    assert(out@ + sections_of_runs(rest, fps, min_duration_seconds) =~= out_old
                        + sections_of_runs(runs1, fps, min_duration_seconds));
                }
            } else {
                proof {
                    assert(sections_of_runs(runs1, fps, min_duration_seconds) == sections_of_runs(
                        rest,
                        fps,
                        min_duration_seconds,
                    ));
                }
            }
            start = idx;
            prev = idx;
        }
        i += 1;
    }
    let ghost lastrun = runs_rec(idxs.skip(pairs@.len() as int), thr_spec, start, prev);
    proof {
        assert(idxs.skip(pairs@.len() as int) =~= Seq::<u64>::empty());
        assert(lastrun == seq![(start, prev)]);
        assert(lastrun[0] == (start, prev));
        assert(lastrun.drop_first() =~= Seq::<(u64, u64)>::empty());
        assert(sections_of_runs(Seq::empty(), fps, min_duration_seconds) == Seq::<(
            u128,
            u128,
        )>::empty());
    }
    let start_s = start / fps;
    let end_s = (prev + 1) / fps;
    proof {
        lemma_div_is_ordered(start as int, prev as int + 1, fps as int);
        assert(start_s as int == start as int / fps as int);
        assert(end_s as int == (prev as int + 1) / fps as int);
    }
    let ghost out_old = out@;
    if end_s - start_s > min_duration_seconds {
        out.push((start_s as u128, end_s as u128));
        proof {
            assert(sections_of_runs(lastrun, fps, min_duration_seconds) == seq![
                (start_s as u128, end_s as u128),
            ] + sections_of_runs(Seq::empty(), fps, min_duration_seconds));
            assert(out@ =~= out_old + sections_of_runs(lastrun, fps, min_duration_seconds));
        }
    } else {
        proof {
            assert(sections_of_runs(lastrun, fps, min_duration_seconds) =~= Seq::<(
                u128,
                u128,
            )>::empty());
            assert(out@ =~= out_old + sections_of_runs(lastrun, fps, min_duration_seconds));
        }
    }
    out
}

} // verus!
