use iconforge::background::{BackgroundKind, BackgroundModel, SegParams};
use iconforge::geometry::Bbox;
use iconforge::mask::ForegroundMask;
use iconforge::maskcache::{
    background_is_confident, cached_from_parts, mask_key, mask_key_from_hash, regroup_cached,
    sheet_hash, MaskCache, MaskView,
};
use iconforge::merge::RefineParams;
use iconforge::ratio::Ratio;

fn block_mask(x0: u32, y0: u32, n: u32) -> ForegroundMask {
    let mut m = ForegroundMask::new(64, 64);
    for y in 0..n {
        for x in 0..n {
            m.set(x0 + x, y0 + y, true);
        }
    }
    m
}

fn bg(milli: u128) -> BackgroundModel {
    BackgroundModel {
        kind: BackgroundKind::BorderConsensus,
        rgba: [255, 255, 255, 255],
        consensus: Ratio {
            num: milli,
            den: 1000,
        },
    }
}

#[test]
fn key_is_stable_and_parameter_sensitive() {
    let bytes = b"sheet-bytes";
    let a = SegParams::default();
    let mut b = SegParams::default();
    assert_eq!(mask_key(bytes, &a), mask_key(bytes, &a));
    assert_eq!(mask_key(b"sheet-bytes", &a), mask_key(bytes, &a));
    assert_ne!(mask_key(b"other-bytes", &a), mask_key(bytes, &a));
    b.delta_e_max = 20_000;
    assert_ne!(mask_key(bytes, &b), mask_key(bytes, &a), "params matter");
    b = a;
    b.close_passes = 2;
    assert_ne!(mask_key(bytes, &b), mask_key(bytes, &a), "clean matters");
}

#[test]
fn key_from_hash_agrees_with_key_from_bytes() {
    let bytes = b"abc";
    let h = sheet_hash(bytes);
    assert_eq!(
        mask_key(bytes, &SegParams::default()),
        mask_key_from_hash(&h, &SegParams::default())
    );
}

#[test]
fn put_then_get_round_trips_the_mask_exactly() {
    let mut cache = MaskCache::new(4);
    let mask = block_mask(8, 8, 12);
    let key = "k1";
    cache.put(key, &mask, &bg(900));
    let got = cache.get(key).expect("cached");
    assert_eq!(got.mask(), mask, "runs round-trip must be lossless");
    assert_eq!(got.background.kind, BackgroundKind::BorderConsensus);
    assert_eq!(cache.hits(), 1);
    assert_eq!(cache.misses(), 0);
}

#[test]
fn misses_are_counted_and_return_nothing() {
    let mut cache = MaskCache::new(2);
    assert!(cache.get("nope").is_none());
    assert_eq!(cache.misses(), 1);
    assert_eq!(cache.hits(), 0);
    assert!(cache.is_empty());
}

#[test]
fn capacity_evicts_the_least_recently_used() {
    let mut cache = MaskCache::new(2);
    let mask = block_mask(0, 0, 4);
    cache.put("a", &mask, &bg(900));
    cache.put("b", &mask, &bg(900));
    // Touch "a" so "b" becomes the LRU entry.
    assert!(cache.get("a").is_some());
    cache.put("c", &mask, &bg(900));
    assert_eq!(cache.len(), 2);
    assert!(cache.get("a").is_some(), "recently used entry survives");
    assert!(cache.get("b").is_none(), "LRU evicted");
    assert!(cache.get("c").is_some());
}

#[test]
fn zero_capacity_stores_nothing_but_still_counts() {
    let mut cache = MaskCache::new(0);
    cache.put("a", &block_mask(0, 0, 4), &bg(900));
    assert!(cache.is_empty());
    assert!(cache.get("a").is_none());
    assert_eq!(cache.misses(), 1);
    assert_eq!(cache.bytes(), 0);
}

#[test]
fn regroup_from_cache_matches_a_direct_run() {
    // Two glued blocks + one apart: CCL makes 2 groups, refine (disabled)
    // leaves them alone. The cached path must agree exactly.
    let mut mask = block_mask(4, 4, 20);
    for y in 0..20 {
        for x in 0..20 {
            mask.set(26 + x, 4 + y, true); // 2 px gap from the first block
        }
    }
    let key = "sheet";
    let mut cache = MaskCache::new(1);
    cache.put(key, &mask, &bg(950));
    let params = RefineParams {
        enabled: false,
        ..RefineParams::default()
    };
    let out = regroup_cached(key, &mut cache, &params).expect("cached");
    assert_eq!(out.groups.len(), 2, "{:?}", out.groups);
    assert!(regroup_cached("absent", &mut cache, &params).is_none());
}

#[test]
fn cached_bytes_track_the_payload() {
    let mut cache = MaskCache::new(2);
    assert_eq!(cache.bytes(), 0);
    cache.put("a", &block_mask(0, 0, 8), &bg(900));
    let one = cache.bytes();
    assert!(one > 0);
    cache.put("b", &block_mask(0, 0, 8), &bg(900));
    assert_eq!(cache.bytes(), one * 2);
    cache.clear();
    assert_eq!(cache.bytes(), 0);
}

#[test]
fn background_confidence_gate_reads_kind_and_share() {
    assert!(background_is_confident(&bg(900), 850));
    assert!(!background_is_confident(&bg(500), 850));
    let kmeans = BackgroundModel {
        kind: BackgroundKind::KMeans,
        rgba: [0, 0, 0, 0],
        consensus: Ratio { num: 99, den: 100 },
    };
    assert!(!background_is_confident(&kmeans, 850));
}

#[test]
fn cached_group_shape_is_deterministic() {
    let mask = block_mask(2, 2, 10);
    let entry = cached_from_parts(&mask, &bg(800));
    assert_eq!(entry.mask(), mask);
    assert_eq!(entry.width, 64);
    assert_eq!(entry.height, 64);
    let bbox = Bbox::new(2, 2, 10, 10).unwrap();
    assert_eq!(
        entry
            .mask()
            .runs()
            .iter()
            .map(|r| (r.y, r.x_start, r.x_end))
            .collect::<Vec<_>>()
            .len(),
        10
    );
    assert_eq!(bbox.w, 10);
}

#[test]
fn known_bytes_have_their_known_hash() {
    assert_eq!(
        sheet_hash(b""),
        "af1349b9f5f9a1a6a0404dea36dcc9499bcb25c9adc112b7cc9a93cae41f3262"
    );
}

#[test]
fn mask_view_satisfies_the_raster_contract() {
    let view = MaskView::new(7, 3);
    assert_eq!(view.width(), 7);
    assert_eq!(view.height(), 3);
    assert_eq!(view.luma_row(2).len(), 7, "luma_row must be width-long");
    assert!(view.luma_row(0).iter().all(|&v| v == 0));
}

#[test]
fn nearby_settings_have_their_own_keys() {
    let key = |share: u32, delta: u32| {
        mask_key(
            b"sheet",
            &SegParams {
                border_share_min: share,
                delta_e_max: delta,
                ..SegParams::default()
            },
        )
    };
    assert_eq!(key(850, 12_000), mask_key(b"sheet", &SegParams::default()));
    assert_ne!(key(850, 12_000), key(850, 12_040));
    assert_ne!(key(850, 12_000), key(854, 12_000));
    assert_ne!(key(850, 12_001), key(850, 12_002));
}
