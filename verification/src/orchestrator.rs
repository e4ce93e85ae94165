//! The orchestrator: builds one metric index per frame sequence, matches
//! each sequence against the other's index, and clusters both match lists
//! into per-file section lists.

use vstd::prelude::*;

use crate::cluster::cluster;
use crate::cluster::cluster_spec;
use crate::cluster::queried_indices;
use crate::cluster::runs_of;
use crate::cluster::sections_of_runs;
use crate::frame::indexed;
use crate::frame::Frame;
use crate::index::MetricIndex;
use crate::matcher::lemma_match_seq_for_cluster;
use crate::matcher::match_seq_spec;
use crate::matcher::match_sequence;
use crate::matcher::MatchedFrames;

verus! {

/// Time sections (in whole seconds, start inclusive, end exclusive)
/// extracted for one file, labelled with the file they were computed for.
pub struct Sections {
    pub target: String,
    pub sections: Vec<(u128, u128)>,
}

/// Drives one categorization: holds the tunable matching and clustering
/// parameters, which differ between deployments and so are explicit
/// configuration rather than constants.
pub struct Sectionizer {
    /// Largest Hamming distance at which two frames still match.
    pub radius: u32,
    /// Frames per second of both input sequences.
    pub fps: u64,
    /// Gaps of at least this many seconds' worth of frames split runs.
    pub max_gap_seconds: u64,
    /// Sections must be longer than this many seconds to be kept.
    pub min_duration_seconds: u64,
}

impl Sectionizer {
    /// The parameters make sense: a positive frame rate, and a gap
    /// threshold that fits the machine word.
    pub open spec fn wf(self) -> bool {
        &&& self.fps >= 1
        &&& self.max_gap_seconds * self.fps <= u64::MAX
    }

    pub fn new(radius: u32, fps: u64, max_gap_seconds: u64, min_duration_seconds: u64) -> (r:
        Self)
        requires
            fps >= 1,
            max_gap_seconds * fps <= u64::MAX,
        ensures
            r.wf(),
            r.radius == radius,
            r.fps == fps,
            r.max_gap_seconds == max_gap_seconds,
            r.min_duration_seconds == min_duration_seconds,
    {
        Sectionizer { radius, fps, max_gap_seconds, min_duration_seconds }
    }

    /// The section list for the sequence `queried` when matched against
    /// the frames of `other`: match every queried frame within the
    /// radius, then cluster the pairs.
    pub open spec fn sections_for(self, queried: Seq<Frame>, other: Seq<Frame>) -> Seq<
        (u128, u128),
    > {
        cluster_spec(
            match_seq_spec(queried, other.to_set(), self.radius as nat),
            self.fps,
            self.max_gap_seconds,
            self.min_duration_seconds,
        )
    }

    /// Match the scenes of the two already-hashed sequences against each
    /// other, returning the matching sections of `file1` first and those
    /// of `file2` second. Each direction is computed independently:
    /// sequence one against the index of sequence two, and vice versa.
    pub fn categorize(
        &self,
        file1: String,
        frames1: &Vec<Frame>,
        file2: String,
        frames2: &Vec<Frame>,
    ) -> (r: (Sections, Sections))
        requires
            self.wf(),
            indexed(frames1@),
            indexed(frames2@),
        ensures
            r.0.target == file1,
            r.1.target == file2,
            r.0.sections@ == self.sections_for(frames1@, frames2@),
            r.1.sections@ == self.sections_for(frames2@, frames1@),
    {
        let len1 = frames1.len();
        let len2 = frames2.len();
        let mut index1 = MetricIndex::new();
        index1.insert_all(frames1);
        let mut index2 = MetricIndex::new();
        index2.insert_all(frames2);
        proof {
            assert(index1.elems() =~= frames1@.to_set());
            assert(index2.elems() =~= frames2@.to_set());
        }
        let pairs1 = match_sequence(frames1, &index2, self.radius);
        let pairs2 = match_sequence(frames2, &index1, self.radius);
        proof {
            assert(frames1@.len() == len1);
            assert(frames2@.len() == len2);
            lemma_match_seq_for_cluster(frames1@, frames2@.to_set(), self.radius as nat);
            lemma_match_seq_for_cluster(frames2@, frames1@.to_set(), self.radius as nat);
        }
        let sections1 = cluster(&pairs1, self.fps, self.max_gap_seconds, self.min_duration_seconds);
        let sections2 = cluster(&pairs2, self.fps, self.max_gap_seconds, self.min_duration_seconds);
        (
            Sections { target: file1, sections: sections1 },
            Sections { target: file2, sections: sections2 },
        )
    }
}

/// Empty-input law: a file whose hash sequence is empty gets an empty
/// section list, whatever the other sequence holds.
pub proof fn lemma_empty_input(s: Sectionizer, other: Seq<Frame>)
    ensures
        s.sections_for(Seq::empty(), other) == Seq::<(u128, u128)>::empty(),
{
    let pairs = match_seq_spec(Seq::empty(), other.to_set(), s.radius as nat);
    assert(pairs == Seq::<MatchedFrames>::empty());
    assert(queried_indices(pairs) =~= Seq::<u64>::empty());
    let thr = s.max_gap_seconds as int * s.fps as int;
    assert(runs_of(queried_indices(pairs), thr) == Seq::<(u64, u64)>::empty());
    assert(sections_of_runs(Seq::empty(), s.fps, s.min_duration_seconds) == Seq::<(
        u128,
        u128,
    )>::empty());
}

/// Symmetry law: swapping the argument order of `categorize` does not
/// change the sections computed for a file, only the slot they come back
/// in. `categorize(a, b)` promises `sections_for(a, b)` in its first
/// slot and `categorize(b, a)` promises the same value in its second
/// slot, so the two section lists for `a` coincide.
pub proof fn lemma_categorize_symmetric(
    s: Sectionizer,
    frames_a: Seq<Frame>,
    frames_b: Seq<Frame>,
    first_of_ab: Seq<(u128, u128)>,
    second_of_ba: Seq<(u128, u128)>,
)
    requires
        first_of_ab == s.sections_for(frames_a, frames_b),
        second_of_ba == s.sections_for(frames_a, frames_b),
    ensures
        first_of_ab == second_of_ba,
{
}

} // verus!
