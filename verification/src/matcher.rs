//! Pairs every frame of one sequence with its nearest within-radius
//! neighbour in the other sequence's metric index.
//!
//! For every queried frame the index is searched within the fixed radius;
//! frames with no within-radius neighbour are dropped. Among the
//! candidates the nearest one is kept, with ties broken deterministically
//! (lowest frame index, then lowest hash code), so the matched pair list
//! is a function of the queried sequence and the index contents alone.

use vstd::prelude::*;

use crate::cluster::sorted_by_queried;
use crate::frame::hamming_dist;
use crate::frame::indexed;
use crate::frame::Frame;
use crate::index::MetricIndex;

verus! {

/// A cross-sequence pair: the queried frame and the frame matched to it
/// from the other sequence's index.
#[derive(Clone, Copy, Debug, PartialEq, Eq, Structural)]
pub struct MatchedFrames(pub Frame, pub Frame);

/// Candidate order used to pick one match per queried frame `q`: first by
/// distance to `q`, then by frame index, then by hash code.
pub open spec fn key_le(q: Frame, a: Frame, b: Frame) -> bool {
    let da = hamming_dist(a, q);
    let db = hamming_dist(b, q);
    ||| da < db
    ||| (da == db && a.idx < b.idx)
    ||| (da == db && a.idx == b.idx && a.hash <= b.hash)
}

/// `f` is the within-radius frame of `s` that the matcher keeps for `q`:
/// it lies within the radius and precedes every other within-radius
/// candidate in the candidate order.
pub open spec fn is_best(q: Frame, s: Set<Frame>, radius: nat, f: Frame) -> bool {
    &&& s.contains(f)
    &&& hamming_dist(f, q) <= radius
    &&& forall|e: Frame| s.contains(e) && hamming_dist(e, q) <= radius ==> key_le(q, f, e)
}

/// The match the matcher keeps for `q` against the frames `s`, if any
/// frame of `s` lies within the radius.
pub open spec fn best_match(q: Frame, s: Set<Frame>, radius: nat) -> Option<Frame> {
    if exists|f: Frame| is_best(q, s, radius, f) {
        Some(choose|f: Frame| is_best(q, s, radius, f))
    } else {
        None
    }
}

/// The pairs contributed by one queried frame: one pair, or none.
pub open spec fn one_match(q: Frame, s: Set<Frame>, radius: nat) -> Seq<MatchedFrames> {
    match best_match(q, s, radius) {
        Some(m) => seq![MatchedFrames(q, m)],
        None => Seq::empty(),
    }
}

/// The full ordered match list for the queried sequence `qs` against the
/// frames `s`: each queried frame contributes its match, in `qs` order.
pub open spec fn match_seq_spec(qs: Seq<Frame>, s: Set<Frame>, radius: nat) -> Seq<MatchedFrames>
    decreases qs.len(),
{
    if qs.len() == 0 {
        Seq::empty()
    } else {
        one_match(qs[0], s, radius) + match_seq_spec(qs.drop_first(), s, radius)
    }
}

/// At most one frame can be best for `q`: the candidate order is
/// antisymmetric, and frames agreeing on index and hash are equal.
proof fn lemma_best_unique(q: Frame, s: Set<Frame>, radius: nat, f1: Frame, f2: Frame)
    requires
        is_best(q, s, radius, f1),
        is_best(q, s, radius, f2),
    ensures
        f1 == f2,
{
    assert(key_le(q, f1, f2));
    assert(key_le(q, f2, f1));
}

proof fn lemma_match_seq_snoc(qs: Seq<Frame>, x: Frame, s: Set<Frame>, radius: nat)
    ensures
        match_seq_spec(qs.push(x), s, radius) == match_seq_spec(qs, s, radius) + one_match(
            x,
            s,
            radius,
        ),
    decreases qs.len(),
{
    if qs.len() == 0 {
        assert(qs.push(x)[0] == x);
        assert(qs.push(x).drop_first() =~= Seq::<Frame>::empty());
        assert(match_seq_spec(qs, s, radius) == Seq::<MatchedFrames>::empty());
        assert(match_seq_spec(qs.push(x), s, radius) == one_match(x, s, radius) + match_seq_spec(
            qs.push(x).drop_first(),
            s,
            radius,
        ));
        assert(match_seq_spec(qs.push(x).drop_first(), s, radius)
            == Seq::<MatchedFrames>::empty());
        assert(match_seq_spec(qs.push(x), s, radius) =~= match_seq_spec(qs, s, radius)
            + one_match(x, s, radius));
    } else {
        assert(qs.push(x).drop_first() =~= qs.drop_first().push(x));
        assert(qs.push(x)[0] == qs[0]);
        lemma_match_seq_snoc(qs.drop_first(), x, s, radius);
        assert(match_seq_spec(qs.push(x), s, radius) =~= match_seq_spec(qs, s, radius)
            + one_match(x, s, radius));
    }
}

proof fn frame_seq_witness(s: Seq<Frame>, x: Frame) -> (i: int)
    requires
        s.contains(x),
    ensures
        0 <= i < s.len() && s[i] == x,
{
    choose|i: int| 0 <= i < s.len() && s[i] == x
}

/// The match list keeps the queried sequence's order: with strictly
/// increasing queried indices the pairs come out sorted by queried index,
/// and every queried frame of a pair is one of the input frames.
pub proof fn lemma_match_seq_sorted(qs: Seq<Frame>, s: Set<Frame>, radius: nat)
    requires
        forall|i: int, j: int| 0 <= i < j < qs.len() ==> qs[i].idx < qs[j].idx,
    ensures
        sorted_by_queried(match_seq_spec(qs, s, radius)),
        forall|p: int|
            0 <= p < match_seq_spec(qs, s, radius).len() ==> qs.contains(
                (#[trigger] match_seq_spec(qs, s, radius)[p]).0,
            ),
    decreases qs.len(),
{
    let r = match_seq_spec(qs, s, radius);
    if qs.len() > 0 {
        let rest_qs = qs.drop_first();
        assert forall|i: int, j: int|
            0 <= i < j < rest_qs.len() implies rest_qs[i].idx < rest_qs[j].idx by {
            assert(qs[i + 1].idx < qs[j + 1].idx);
        }
        lemma_match_seq_sorted(rest_qs, s, radius);
        let rest = match_seq_spec(rest_qs, s, radius);
        let om = one_match(qs[0], s, radius);
        assert(r == om + rest);
        assert(om.len() <= 1);
        assert forall|p: int| 0 <= p < r.len() implies qs.contains((#[trigger] r[p]).0) by {
            if p < om.len() {
                assert(r[p] == om[p]);
                assert(om[p].0 == qs[0]);
                assert(qs[0int] == r[p].0);
            } else {
                assert(r[p] == rest[p - om.len()]);
                assert(rest_qs.contains(rest[p - om.len()].0));
                let k = frame_seq_witness(rest_qs, rest[p - om.len()].0);
                assert(qs[k + 1] == r[p].0);
            }
        }
        assert forall|i: int, j: int|
            0 <= i < j < r.len() implies r[i].0.idx <= r[j].0.idx by {
            if i >= om.len() {
                assert(r[i] == rest[i - om.len()]);
                assert(r[j] == rest[j - om.len()]);
            } else {
                assert(r[i] == om[i]);
                assert(r[i].0 == qs[0]);
                assert(r[j] == rest[j - om.len()]);
                assert(rest_qs.contains(rest[j - om.len()].0));
                let k = frame_seq_witness(rest_qs, rest[j - om.len()].0);
                assert(qs[k + 1] == r[j].0);
                assert(qs[0].idx < qs[k + 1].idx);
            }
        }
    }
}

/// What the clusterer needs of a match list built from a decode-order
/// frame sequence: the pairs are sorted by queried index, and every
/// queried index is the position of a frame of the sequence, so it stays
/// below the machine limit.
pub proof fn lemma_match_seq_for_cluster(qs: Seq<Frame>, s: Set<Frame>, radius: nat)
    requires
        indexed(qs),
        qs.len() <= u64::MAX,
    ensures
        sorted_by_queried(match_seq_spec(qs, s, radius)),
        forall|p: int|
            0 <= p < match_seq_spec(qs, s, radius).len() ==> (#[trigger] match_seq_spec(
                qs,
                s,
                radius,
            )[p]).0.idx < u64::MAX,
{
    assert forall|i: int, j: int| 0 <= i < j < qs.len() implies qs[i].idx < qs[j].idx by {
        assert(qs[i].idx == i);
        assert(qs[j].idx == j);
    }
    lemma_match_seq_sorted(qs, s, radius);
    let r = match_seq_spec(qs, s, radius);
    assert forall|p: int| 0 <= p < r.len() implies (#[trigger] r[p]).0.idx < u64::MAX by {
        assert(qs.contains(r[p].0));
        let k = frame_seq_witness(qs, r[p].0);
        assert(qs[k].idx == k);
    }
}

/// For every frame of `queried`, in order, find the best within-radius
/// match in `index`; frames with no within-radius neighbour contribute
/// nothing.
#[verifier::loop_isolation(false)]
pub fn match_sequence(queried: &Vec<Frame>, index: &MetricIndex, radius: u32) -> (out: Vec<
    MatchedFrames,
>)
    requires
        index.wf(),
    ensures
        out@ == match_seq_spec(queried@, index.elems(), radius as nat),
{
    let ghost s = index.elems();
    let mut out: Vec<MatchedFrames> = Vec::new();
    proof {
        assert(queried@.take(0) =~= Seq::<Frame>::empty());
    }
    let mut i: usize = 0;
    while i < queried.len()
        invariant
            i <= queried@.len(),
            out@ == match_seq_spec(queried@.take(i as int), s, radius as nat),
        decreases queried@.len() - i,
    {
        let q = queried[i];
        let cands = index.find_within(&q, radius);
        let mut best: Option<(u32, Frame)> = None;
        let mut p: usize = 0;
        while p < cands.len()
            invariant
                p <= cands@.len(),
                best is None ==> p == 0 || cands@.len() == 0,
                best matches Some(b) ==> {
                    &&& s.contains(b.1)
                    &&& b.0 as nat == hamming_dist(b.1, q)
                    &&& hamming_dist(b.1, q) <= radius as nat
                    &&& forall|t: int|
                        0 <= t < p ==> key_le(q, b.1, (#[trigger] cands@[t]).1)
                },
            decreases cands@.len() - p,
        {
            let c = cands[p];
            proof {
                assert(cands@[p as int] == c);
                assert(c.0 as nat == hamming_dist(c.1, q));
            }
            match best {
                None => {
                    best = Some(c);
                },
                Some(b) => {
                    if c.0 < b.0 || (c.0 == b.0 && (c.1.idx < b.1.idx || (c.1.idx == b.1.idx
                        && c.1.hash < b.1.hash))) {
                        best = Some(c);
                        proof {
                            assert forall|t: int|
                                0 <= t < p + 1 implies key_le(q, c.1, (#[trigger] cands@[t]).1) by {
                                if t < p {
                                    assert(key_le(q, b.1, cands@[t].1));
                                }
                            }
                        }
                    } else {
                        proof {
                            assert(key_le(q, b.1, c.1));
                        }
                    }
                },
            }
            p += 1;
        }
        match best {
            None => {
                proof {
                    assert(!exists|f: Frame| is_best(q, s, radius as nat, f)) by {
                        if exists|f: Frame| is_best(q, s, radius as nat, f) {
                            let f = choose|f: Frame| is_best(q, s, radius as nat, f);
                            assert(cands@.contains((hamming_dist(f, q) as u32, f)));
                            assert(cands@.len() > 0);
                        }
                    }
                    assert(one_match(q, s, radius as nat) =~= Seq::<MatchedFrames>::empty());
                    lemma_match_seq_snoc(queried@.take(i as int), q, s, radius as nat);
                    assert(queried@.take(i as int).push(q) =~= queried@.take(i as int + 1));
                    assert(out@ =~= match_seq_spec(queried@.take(i as int), s, radius as nat)
                        + one_match(q, s, radius as nat));
                }
            },
            Some(b) => {
                proof {
                    assert(is_best(q, s, radius as nat, b.1)) by {
                        assert forall|e: Frame|
                            s.contains(e) && hamming_dist(e, q) <= radius as nat implies key_le(
                            q,
                            b.1,
                            e,
                        ) by {
                            let x = (hamming_dist(e, q) as u32, e);
                            assert(cands@.contains(x));
                            let t = choose|t: int| 0 <= t < cands@.len() && cands@[t] == x;
                            assert(key_le(q, b.1, (cands@[t]).1));
                        }
                    }
                    assert(best_match(q, s, radius as nat) == Some(b.1)) by {
                        let f = choose|f: Frame| is_best(q, s, radius as nat, f);
                        lemma_best_unique(q, s, radius as nat, f, b.1);
                    }
                }
                out.push(MatchedFrames(q, b.1));
                proof {
                    lemma_match_seq_snoc(queried@.take(i as int), q, s, radius as nat);
                    assert(queried@.take(i as int).push(q) =~= queried@.take(i as int + 1));
                }
            },
        }
        i += 1;
    }
    proof {
        assert(queried@.take(queried@.len() as int) =~= queried@);
    }
    out
}

} // verus!
