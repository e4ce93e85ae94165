//! Tests for the frame metric, the BK-tree index, the matcher, the
//! clusterer and the end-to-end categorization.

use sectionizer::cluster;
use sectionizer::frames_from_buffers;
use sectionizer::frames_from_hashes;
use sectionizer::hamming;
use sectionizer::match_sequence;
use sectionizer::Frame;
use sectionizer::MatchedFrames;
use sectionizer::MetricIndex;
use sectionizer::SectionizerError;
use sectionizer::Sectionizer;

fn frame(hash: u128, idx: u64) -> Frame {
    Frame { hash, idx }
}

fn pair(qidx: u64) -> MatchedFrames {
    MatchedFrames(frame(0, qidx), frame(0, 0))
}

#[test]
fn test_hamming_concrete() {
    let a = frame(0b1011, 0);
    let b = frame(0b0010, 1);
    assert_eq!(hamming(&a, &b), 2);
    assert_eq!(hamming(&a, &a), 0);
    assert_eq!(hamming(&b, &a), hamming(&a, &b));
    let all = frame(u128::MAX, 2);
    let none = frame(0, 3);
    assert_eq!(hamming(&all, &none), 128);
}

#[test]
fn test_hamming_triangle_concrete() {
    let a = frame(0x00ff_1234, 0);
    let b = frame(0xf0f0_4321, 1);
    let c = frame(0x1111_1111_1111, 2);
    assert!(hamming(&a, &c) <= hamming(&a, &b) + hamming(&b, &c));
    assert!(hamming(&a, &b) >= 0);
}

/// A small deterministic pseudo-random generator for hash material.
fn next_lcg(state: &mut u128) -> u128 {
    *state = state.wrapping_mul(6364136223846793005).wrapping_add(1442695040888963407);
    let lo = *state;
    *state = state.wrapping_mul(6364136223846793005).wrapping_add(1442695040888963407);
    lo ^ (*state << 64)
}

#[test]
fn test_find_within_matches_brute_force() {
    let mut state: u128 = 0x1234_5678_9abc_def0;
    let mut frames: Vec<Frame> = Vec::new();
    for i in 0..48u64 {
        frames.push(frame(next_lcg(&mut state), i));
    }
    let mut index = MetricIndex::new();
    index.insert_all(&frames);
    for radius in [0u32, 8, 48, 64, 128] {
        for t in 0..8u64 {
            let target = frame(next_lcg(&mut state), t);
            let mut got = index.find_within(&target, radius);
            let mut want: Vec<(u32, Frame)> = frames
                .iter()
                .filter(|f| hamming(*f, &target) <= radius as isize)
                .map(|f| (hamming(f, &target) as u32, *f))
                .collect();
            let key = |p: &(u32, Frame)| (p.0, p.1.idx, p.1.hash);
            got.sort_by_key(key);
            want.sort_by_key(key);
            assert_eq!(got.len(), want.len());
            for (g, w) in got.iter().zip(want.iter()) {
                assert_eq!(g.0, w.0);
                assert_eq!(g.1.hash, w.1.hash);
                assert_eq!(g.1.idx, w.1.idx);
            }
        }
    }
}

#[test]
fn test_find_within_empty_index() {
    let index = MetricIndex::new();
    let got = index.find_within(&frame(42, 0), 128);
    assert!(got.is_empty());
}

#[test]
fn test_matcher_picks_nearest() {
    let mut index = MetricIndex::new();
    index.insert_all(&vec![frame(0b1111, 0), frame(0b1110, 1), frame(0b0000, 2)]);
    let queried = vec![frame(0b1111, 0)];
    let pairs = match_sequence(&queried, &index, 2);
    assert_eq!(pairs.len(), 1);
    assert_eq!(pairs[0].0.idx, 0);
    assert_eq!(pairs[0].1.hash, 0b1111);
    assert_eq!(pairs[0].1.idx, 0);
}

#[test]
fn test_matcher_drops_unmatched() {
    let mut index = MetricIndex::new();
    index.insert_all(&vec![frame(u128::MAX, 0)]);
    let queried = vec![frame(0, 0), frame(u128::MAX, 1)];
    let pairs = match_sequence(&queried, &index, 2);
    assert_eq!(pairs.len(), 1);
    assert_eq!(pairs[0].0.idx, 1);
}

#[test]
fn test_cluster_empty() {
    let sections = cluster(&Vec::new(), 24, 5, 10);
    assert!(sections.is_empty());
}

#[test]
fn test_cluster_single_run_and_duration_filter() {
    let pairs: Vec<MatchedFrames> = (0..240).map(pair).collect();
    // 240 frames at 24 fps span seconds 0..10: kept when longer than 5
    let sections = cluster(&pairs, 24, 5, 5);
    assert_eq!(sections, vec![(0, 10)]);
    // exactly 10 seconds does not exceed 10: dropped
    let sections = cluster(&pairs, 24, 5, 10);
    assert!(sections.is_empty());
}

#[test]
fn test_gap_boundary() {
    // threshold is 5 s * 24 fps = 120 frames
    let same_run = vec![pair(0), pair(119)];
    let sections = cluster(&same_run, 24, 5, 0);
    assert_eq!(sections, vec![(0, 5)]);
    // a gap of exactly 120 splits: two one-frame runs, both too short
    let split = vec![pair(0), pair(120)];
    let sections = cluster(&split, 24, 5, 0);
    assert!(sections.is_empty());
}

#[test]
fn test_sections_ordered() {
    let idxs = [0u64, 1, 2, 10, 11, 20];
    let pairs: Vec<MatchedFrames> = idxs.iter().map(|i| pair(*i)).collect();
    let sections = cluster(&pairs, 1, 3, 0);
    assert_eq!(sections, vec![(0, 3), (10, 12), (20, 21)]);
    for w in sections.windows(2) {
        assert!(w[0].1 <= w[1].0);
        assert!(w[0].0 < w[1].0);
    }
    for s in &sections {
        assert!(s.0 <= s.1);
    }
}

#[test]
fn test_frames_from_hashes_indices() {
    let frames = frames_from_hashes(&vec![7, 9, 7]);
    assert_eq!(frames.len(), 3);
    for (i, f) in frames.iter().enumerate() {
        assert_eq!(f.idx, i as u64);
    }
    assert_eq!(frames[0].hash, 7);
    assert_eq!(frames[1].hash, 9);
    assert_eq!(frames[2].hash, 7);
}

/// Spread the low 10 bits of `tag` over 120 bits, so that any two
/// distinct tags sit at Hamming distance of at least 12.
fn spread(tag: u64) -> u128 {
    let mut h: u128 = 0;
    for b in 0..10 {
        if tag & (1 << b) != 0 {
            h |= 0xfffu128 << (12 * b);
        }
    }
    h
}

fn synthetic_sequences() -> (Vec<u128>, Vec<u128>) {
    let mut hashes_a = Vec::new();
    let mut hashes_b = Vec::new();
    for i in 0..240u64 {
        if (48..192).contains(&i) {
            hashes_a.push(spread(3 * i / 48));
            hashes_b.push(spread(3 * i / 48));
        } else {
            hashes_a.push(spread(100 + 2 * i));
            hashes_b.push(spread(101 + 2 * i));
        }
    }
    (hashes_a, hashes_b)
}

#[test]
fn test_empty_input() {
    let s = Sectionizer::new(2, 24, 5, 5);
    let (hashes_b, _) = synthetic_sequences();
    let frames_a = frames_from_hashes(&Vec::new());
    let frames_b = frames_from_hashes(&hashes_b);
    let (sec_a, sec_b) = s.categorize("a".to_string(), &frames_a, "b".to_string(), &frames_b);
    assert_eq!(sec_a.target, "a");
    assert_eq!(sec_b.target, "b");
    assert!(sec_a.sections.is_empty());
    assert!(sec_b.sections.is_empty());
}

#[test]
fn test_end_to_end_shared_window() {
    // both sequences show the same content for frames 48..=191: a
    // six-second window at 24 fps, from second 2 to second 8
    let (hashes_a, hashes_b) = synthetic_sequences();
    let frames_a = frames_from_hashes(&hashes_a);
    let frames_b = frames_from_hashes(&hashes_b);

    let s = Sectionizer::new(2, 24, 5, 5);
    let (sec_a, sec_b) = s.categorize("a".to_string(), &frames_a, "b".to_string(), &frames_b);
    assert_eq!(sec_a.sections, vec![(2, 8)]);
    assert_eq!(sec_b.sections, vec![(2, 8)]);

    // a six-second run does not exceed a six-second minimum: dropped
    let strict = Sectionizer::new(2, 24, 5, 6);
    let (sec_a, sec_b) = strict.categorize("a".to_string(), &frames_a, "b".to_string(), &frames_b);
    assert!(sec_a.sections.is_empty());
    assert!(sec_b.sections.is_empty());
}

#[test]
fn test_symmetry() {
    let (hashes_a, hashes_b) = synthetic_sequences();
    let frames_a = frames_from_hashes(&hashes_a);
    let frames_b = frames_from_hashes(&hashes_b);
    let s = Sectionizer::new(2, 24, 5, 5);
    let (a_first, b_second) = s.categorize("a".to_string(), &frames_a, "b".to_string(), &frames_b);
    let (b_first, a_second) = s.categorize("b".to_string(), &frames_b, "a".to_string(), &frames_a);
    assert_eq!(a_first.sections, a_second.sections);
    assert_eq!(b_first.sections, b_second.sections);
    assert_eq!(a_first.target, "a");
    assert_eq!(a_second.target, "a");
}

#[test]
fn test_frames_from_buffers_deterministic() {
    // two streams with identical pixel content hash identically, and the
    // frames carry their decode positions
    let dark = vec![10u8; 16 * 18 * 3];
    let mut gradient = Vec::with_capacity(16 * 18 * 3);
    for i in 0..(16 * 18 * 3) {
        gradient.push((i % 251) as u8);
    }
    let frames1 = frames_from_buffers(&vec![dark.clone(), gradient.clone()]);
    let frames2 = frames_from_buffers(&vec![dark, gradient]);
    assert_eq!(frames1.len(), 2);
    assert_eq!(frames1[0].idx, 0);
    assert_eq!(frames1[1].idx, 1);
    assert_eq!(frames1[0].hash, frames2[0].hash);
    assert_eq!(frames1[1].hash, frames2[1].hash);
}

#[test]
fn test_error_message() {
    let err = SectionizerError::ExtractionFailure("decoder missing".to_string());
    assert_eq!(err.message().as_str(), "decoder missing");
}
