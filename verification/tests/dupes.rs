use iconforge::cascade::{duplicate_cascade, CascadeCounts};
use iconforge::cluster::cluster;
use iconforge::dupes::{
    confirm, hausdorff_normalised, ink_iou, suggest_keeper, verify, DupOptions, FULL,
};
use iconforge::hashes::{
    a_hash, band_keys, candidate_pairs, d_hash, downscale_luma, HashItem, LSH_BANDS,
};

/// A 64 by 64 plane with the left half dark and the right half bright.
fn half_plane() -> Vec<u8> {
    let mut plane = vec![0u8; 64 * 64];
    for y in 0..64 {
        for x in 0..64 {
            plane[y * 64 + x] = if x >= 32 { 255 } else { 0 };
        }
    }
    plane
}

/// A score in billionths.
fn billionths(v: f64) -> i64 {
    (v * FULL as f64).round() as i64
}

fn item(id: u32, d: u64, a: u64, byte: u8) -> HashItem {
    HashItem {
        id,
        d,
        a,
        digest: [byte; 32],
    }
}

#[test]
fn downscale_averages_each_cell() {
    let plane: Vec<u8> = vec![0, 100, 200, 255];
    let small = downscale_luma(&plane, 4, 1, 2, 1).expect("fits");
    assert_eq!(small, vec![50, 228]); // (100+0)/2, (200+255)/2 rounded
    assert_eq!(downscale_luma(&plane, 3, 1, 2, 1), None, "length mismatch");
    assert_eq!(downscale_luma(&plane, 4, 1, 0, 1), None, "zero target");
}

/// A 64 by 64 plane whose rows fall off smoothly left to right: every adjacent
/// pair descends, so every dHash bit is set.
fn descending_plane() -> Vec<u8> {
    let mut plane = vec![0u8; 64 * 64];
    for y in 0..64 {
        for x in 0..64 {
            plane[y * 64 + x] = ((63 - x) * 4) as u8;
        }
    }
    plane
}

#[test]
fn dhash_reads_the_direction_of_the_gradient() {
    // Falling brightness: every bit set (left brighter than right).
    assert_eq!(d_hash(&descending_plane(), 64, 64), Some(u64::MAX));
    // Rising brightness: no bit set.
    assert_eq!(d_hash(&half_plane(), 64, 64), Some(0));
}

#[test]
fn dhash_and_ahash_are_zero_for_a_uniform_plane() {
    let flat = vec![200u8; 64 * 64];
    assert_eq!(d_hash(&flat, 64, 64), Some(0));
    assert_eq!(a_hash(&flat, 64, 64), Some(0));
}

#[test]
fn ahash_sets_the_bright_half() {
    let hash = a_hash(&half_plane(), 64, 64).expect("fits");
    // Row-major: the right half of every row is above the mean.
    for y in 0..8usize {
        for x in 0..8usize {
            let bit = (hash >> (y * 8 + x)) & 1;
            assert_eq!(bit, u64::from(x >= 4), "bit ({x},{y})");
        }
    }
}

#[test]
fn band_keys_split_and_round_trip() {
    let hash = 0x0123_4567_89ab_cdefu64;
    let keys = band_keys(hash, LSH_BANDS);
    assert_eq!(keys.len(), 4);
    assert_eq!(keys[0], (0, 0xcdef));
    assert_eq!(keys[3], (3, 0x0123));
    assert!(band_keys(hash, 3).is_empty(), "3 does not divide 64");
    assert!(band_keys(hash, 0).is_empty());
}

#[test]
fn candidates_come_from_shared_bands_only() {
    // Full-width hashes: with small values every item's high bands are zero and
    // everything meets in the zero bucket.
    let items = vec![
        item(1, 0x0123_4567_89ab_cdef, 0xfedc_ba98_7654_3210, 1),
        item(2, 0x0123_4567_89ab_cdef, 0xfedc_ba98_7654_3210, 2),
        item(3, 0x1111_2222_3333_4444, 0x5555_6666_7777_8888, 3),
    ];
    assert_eq!(candidate_pairs(&items, LSH_BANDS), vec![(0, 1)]);
}

#[test]
fn a_pair_sharing_both_hashes_is_reported_once() {
    let items = vec![item(1, 0xaaaa, 0xbbbb, 1), item(2, 0xaaaa, 0xbbbb, 2)];
    assert_eq!(candidate_pairs(&items, LSH_BANDS), vec![(0, 1)]);
}

#[test]
fn three_identical_hashes_give_three_pairs() {
    let items = vec![
        item(1, 0x1234, 0x5678, 1),
        item(2, 0x1234, 0x5678, 2),
        item(3, 0x1234, 0x5678, 3),
    ];
    assert_eq!(
        candidate_pairs(&items, LSH_BANDS),
        vec![(0, 1), (0, 2), (1, 2)]
    );
}

#[test]
fn iou_is_one_for_identical_and_zero_for_disjoint() {
    let ink = half_plane();
    let blank = vec![0u8; 64 * 64];
    let of = |a: &Vec<u8>, b: &Vec<u8>| ink_iou(a, b, 64, 64).map(|r| r.num as f32 / r.den as f32);
    assert_eq!(of(&ink, &ink), Some(1.0));
    assert_eq!(of(&ink, &blank), Some(0.0));
    assert_eq!(of(&blank, &blank), Some(1.0));
    assert!(ink_iou(&ink, &blank, 64, 63).is_none(), "length mismatch");
}

#[test]
fn hausdorff_measures_the_shift_in_pixels() {
    let mut moved = half_plane();
    // Move the boundary two pixels right: the symmetric Hausdorff distance is
    // 2 px over the 64 by 64 diagonal.
    for y in 0..64 {
        for x in 0..64 {
            moved[y * 64 + x] = if (32..34).contains(&x) {
                0
            } else {
                moved[y * 64 + x]
            };
        }
    }
    let h = hausdorff_normalised(&half_plane(), &moved, 64, 64).expect("both have ink");
    assert_eq!(h.milli, 2000);
    let d = (h.milli as f32 / 1000.0) / (h.diagonal2 as f32).sqrt();
    let expected = 2.0 / ((64f32 * 64.0 + 64.0 * 64.0).sqrt());
    assert!((d - expected).abs() < 0.01, "got {d}, expected {expected}");
    assert_eq!(
        hausdorff_normalised(&half_plane(), &half_plane(), 64, 64).map(|h| h.milli),
        Some(0)
    );
}

#[test]
fn hausdorff_refuses_a_blank_plane() {
    let blank = vec![0u8; 64 * 64];
    assert_eq!(hausdorff_normalised(&half_plane(), &blank, 64, 64), None);
}

#[test]
fn hausdorff_is_the_same_both_ways() {
    let mut moved = half_plane();
    moved[0] = 255;
    let a = hausdorff_normalised(&half_plane(), &moved, 64, 64).expect("ink");
    let b = hausdorff_normalised(&moved, &half_plane(), 64, 64).expect("ink");
    assert_eq!(a, b);
    assert_eq!(a.milli, 32_000, "the corner is 32 columns from the ink");
}

#[test]
fn verify_passes_on_either_distance() {
    let options = DupOptions::default();
    let ink = half_plane();
    let verified = verify(&ink, &ink, 64, 64, &options).expect("fits");
    assert!(verified.pass);
    assert_eq!(verified.iou.num, verified.iou.den);
    let blank = vec![0u8; 64 * 64];
    assert!(verify(&ink, &blank, 64, 64, &options).is_none());
}

#[test]
fn confirm_needs_a_digest_or_ssim_match() {
    let options = DupOptions::default();
    let a = [1u8; 32];
    let b = [2u8; 32];
    assert!(confirm(&a, &a, billionths(0.0), &options), "identical digests confirm");
    assert!(confirm(&a, &b, billionths(0.98), &options), "high SSIM confirms");
    assert!(!confirm(&a, &b, billionths(0.90), &options));
}

#[test]
fn clusters_keep_the_best_scored_member() {
    let items = vec![item(7, 1, 1, 1), item(9, 1, 1, 2), item(4, 2, 2, 3)];
    let pairs = vec![(0, 1)];
    let scores = [billionths(0.4), billionths(0.9), billionths(0.5)];
    let clusters = cluster(&items, &pairs, &scores);
    assert_eq!(clusters.len(), 1);
    assert_eq!(clusters[0].members, vec![7, 9]);
    assert_eq!(clusters[0].keeper, 9);
}

#[test]
fn clusters_are_sorted_and_singletons_dropped() {
    let items = vec![
        item(5, 1, 1, 1),
        item(6, 1, 1, 2),
        item(1, 9, 9, 3),
        item(2, 9, 9, 4),
    ];
    let pairs = vec![(0, 1), (2, 3)];
    let clusters = cluster(&items, &pairs, &[FULL, FULL, FULL, FULL]);
    assert_eq!(clusters.len(), 2);
    assert_eq!(clusters[0].keeper, 1, "sorted by keeper");
    assert_eq!(clusters[1].keeper, 5);
    let unique = cluster(&items, &[], &[0; 4]);
    assert!(unique.is_empty(), "no pairs, no clusters");
}

#[test]
fn keepers_prefer_the_best_score_then_the_smaller_id() {
    let half = billionths(0.5);
    assert_eq!(
        suggest_keeper(&[8, 3], &[half, half]),
        Some(3),
        "a tie goes to id 3"
    );
    assert_eq!(suggest_keeper(&[8, 3], &[billionths(0.6), half]), Some(8));
    assert_eq!(suggest_keeper(&[], &[]), None);
    assert_eq!(
        suggest_keeper(&[8, 3], &[half]),
        Some(8),
        "the member with a score beats the one whose score is missing"
    );
    assert_eq!(
        suggest_keeper(&[8, 3], &[]),
        Some(3),
        "with no scores at all it is purely the smaller id"
    );
}

#[test]
fn clusters_come_in_one_order() {
    let items = vec![item(9, 0, 0, 1), item(4, 0, 0, 1), item(7, 0, 0, 2), item(2, 0, 0, 2)];
    let scores = [FULL, FULL, 0, 0];
    let first = cluster(&items, &[(0, 1), (2, 3)], &scores);
    let second = cluster(&items, &[(3, 2), (1, 0)], &scores);
    assert_eq!(first, second);
    assert_eq!(first.len(), 2);
    assert_eq!(first[0].keeper, 2);
    assert_eq!(first[0].members, vec![2, 7]);
    assert_eq!(first[1].keeper, 4);
    assert_eq!(first[1].members, vec![4, 9]);
}

#[test]
fn the_cascade_repeats_itself() {
    let plane = half_plane();
    let items = vec![item(1, 5, 5, 1), item(2, 5, 5, 1)];
    let planes = vec![plane.clone(), plane];
    let options = DupOptions::default();
    let (clusters, counts) = duplicate_cascade(&items, &planes, &[0, 0], &options);
    assert_eq!(
        counts,
        CascadeCounts {
            candidates: 1,
            verified: 1,
            confirmed: 1
        }
    );
    assert_eq!(clusters.len(), 1);
    assert_eq!(clusters[0].members, vec![1, 2]);
    let again = duplicate_cascade(&items, &planes, &[0, 0], &options);
    assert_eq!(again, (clusters, counts));
}

#[test]
fn difference_hashes_ignore_brightness() {
    let plane: Vec<u8> = (0..64 * 64).map(|k| (126 - k % 64 - k / 64) as u8).collect();
    let brighter: Vec<u8> = plane.iter().map(|v| v + 100).collect();
    assert_eq!(d_hash(&plane, 64, 64), d_hash(&brighter, 64, 64));
    assert_ne!(d_hash(&plane, 64, 64), Some(0));
    for v in [0u8, 7, 255] {
        assert_eq!(d_hash(&vec![v; 64 * 64], 64, 64), Some(0));
        assert_eq!(a_hash(&vec![v; 64 * 64], 64, 64), Some(0));
    }
}
