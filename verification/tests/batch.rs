use iconforge::background::{BackgroundKind, BackgroundModel};
use iconforge::batch::{
    batch_groups, icon_id, item_step, made_item, reports_progress, summarise, BatchError,
    BatchOptions, ItemResult, ItemStep, SheetRef,
};
use iconforge::error::IsgError;
use iconforge::geometry::Bbox;
use iconforge::mask::ForegroundMask;
use iconforge::profiles::TracePreset;
use iconforge::ratio::Ratio;
use iconforge::score::Score;
use iconforge::trace::TraceError;
use iconforge::vectorize::{CacheLookup, ScoredIcon, VectorizeError};

const FULL: i64 = 1_000_000_000;

fn item(x: u32, ssim: i64, composite: i64, hit: bool) -> Result<ItemResult, VectorizeError> {
    Ok(ItemResult {
        bbox: Bbox::from_parts(x, 2, 3, 4),
        icon: ScoredIcon {
            svg: "<svg/>".to_string(),
            palette: Vec::new(),
            score: Score {
                mae: 1,
                ssim,
                iou: 2,
                composite,
            },
        },
        cache_key: format!("key-{x}"),
        hit,
    })
}

fn failed() -> Result<ItemResult, VectorizeError> {
    Err(VectorizeError::Trace(TraceError::EmptyBbox))
}

#[test]
fn a_run_is_summed_up() {
    let items = vec![
        item(1, 900_000_000, 800_000_001, true),
        failed(),
        item(5, 700_000_000, 900_000_000, false),
    ];
    let sheet = SheetRef {
        id: [7; 16],
        content_hash: "abcd".to_string(),
    };
    let (s, rows) = summarise(&items, false, Some(&sheet), TracePreset::Draft, 42).unwrap();
    assert_eq!((s.icons, s.ok, s.failed, s.cache_hits), (3, 2, 1, 1));
    assert_eq!((s.min_ssim, s.min_composite), (700_000_000, 800_000_001));
    assert_eq!(s.mean_composite, 850_000_000, "rounded down");
    assert_eq!(s.peak_rss_bytes, 42);
    assert_eq!(rows.len(), 2);
    assert_eq!(rows[1].svg_key, "key-5");
    assert_eq!(rows[1].preset, "mono-fast");
    assert_eq!(rows[1].bbox, Bbox::from_parts(5, 2, 3, 4));
    assert_eq!(rows[1].id, icon_id("abcd", rows[1].bbox));
    assert_eq!((rows[1].mae, rows[1].ssim, rows[1].iou), (1, 700_000_000, 2));
    let (again, none) = summarise(&items, false, None, TracePreset::Draft, 42).unwrap();
    assert_eq!(again, s, "a summary holds nothing that differs between runs");
    assert!(none.is_empty());
}

#[test]
fn a_run_without_icons_is_perfect() {
    let (s, rows) = summarise(&Vec::new(), false, None, TracePreset::Balanced, 1).unwrap();
    assert_eq!((s.icons, s.ok, s.failed, s.cache_hits), (0, 0, 0, 0));
    assert_eq!((s.min_ssim, s.min_composite, s.mean_composite), (FULL, FULL, FULL));
    assert!(rows.is_empty());
}

#[test]
fn a_mean_below_zero_is_rounded_down() {
    let items = vec![item(0, 0, -1, false), item(1, 0, 0, false)];
    let (s, _) = summarise(&items, false, None, TracePreset::Draft, 0).unwrap();
    assert_eq!(s.mean_composite, -1);
    assert_eq!(s.min_composite, -1);
}

#[test]
fn a_cancellation_wins() {
    let items = vec![item(1, FULL, FULL, false)];
    assert_eq!(
        summarise(&items, true, None, TracePreset::Draft, 0),
        Err(BatchError::Cancelled)
    );
    let seen = vec![
        item(1, FULL, FULL, false),
        Err(VectorizeError::Cache(IsgError::Cancelled)),
    ];
    assert_eq!(
        summarise(&seen, false, None, TracePreset::Draft, 0),
        Err(BatchError::Cancelled)
    );
}

#[test]
fn icon_ids_depend_on_the_sheet_and_the_box() {
    let b = Bbox::from_parts(1, 2, 3, 4);
    let id = icon_id("abcd", b);
    let mut bytes = b"abcd".to_vec();
    for n in [1u32, 2, 3, 4] {
        bytes.extend_from_slice(&n.to_le_bytes());
    }
    assert_eq!(&id[..], &blake3::hash(&bytes).as_bytes()[..16]);
    assert_ne!(icon_id("abce", b), id);
    assert_ne!(icon_id("abcd", Bbox::from_parts(2, 1, 3, 4)), id);
}

#[test]
fn progress_comes_in_steps_and_at_the_end() {
    let told: Vec<u64> = (1..=40).filter(|d| reports_progress(*d, 40)).collect();
    assert_eq!(told, vec![16, 32, 40]);
}

#[test]
fn a_batch_groups_without_refinement_by_default() {
    let mut mask = ForegroundMask::new(96, 48);
    for (x0, y0, n) in [(8u32, 8u32, 16u32), (56, 24, 15)] {
        for y in 0..n {
            for x in 0..n {
                mask.set(x0 + x, y0 + y, true);
            }
        }
    }
    mask.set(90, 2, true);
    let bg = BackgroundModel {
        kind: BackgroundKind::BorderConsensus,
        rgba: [255; 4],
        consensus: Ratio { num: 1, den: 1 },
    };
    let opts = BatchOptions::default();
    assert_eq!((opts.preset, opts.max_dim, opts.min_area), (TracePreset::Balanced, 4096, 16));
    let (groups, stats) = batch_groups(&mask, &bg, &opts).expect("a small sheet");
    assert_eq!(groups.len(), 2);
    assert_eq!(stats.input, 2);
    let mut fine = opts;
    fine.min_area = 1;
    assert_eq!(batch_groups(&mask, &bg, &fine).expect("a small sheet").0.len(), 3);
}

#[test]
fn batch_errors_say_what_is_wrong() {
    assert_eq!(BatchError::Cancelled.message(), "cancelled");
    assert_eq!(BatchError::NoProject.message(), "no project is open");
    assert_eq!(
        BatchError::Library("x".to_string()).message(),
        "library unavailable: x"
    );
    assert_eq!(
        BatchError::Segment(IsgError::TooLarge).message(),
        "segmentation failed: sheet too large"
    );
}

#[test]
fn a_second_run_is_served_from_the_cache() {
    let score = Score {
        mae: 1,
        ssim: 900_000_000,
        iou: 2,
        composite: 800_000_000,
    };
    let icon = ScoredIcon {
        svg: "<svg/>".to_string(),
        palette: Vec::new(),
        score,
    };
    let bbox = Bbox::from_parts(1, 2, 3, 4);
    assert_eq!(item_step(bbox, "k", CacheLookup::Missing), ItemStep::Make);
    assert_eq!(item_step(bbox, "k", CacheLookup::Corrupt), ItemStep::Make);
    let first = made_item(bbox, "k", Ok(icon.clone()));
    let second = match item_step(bbox, "k", CacheLookup::Found(icon.clone())) {
        ItemStep::Done(d) => d,
        ItemStep::Make => panic!("the icon is there"),
    };
    assert_eq!(second.cache_key, "k");
    assert_eq!(second.icon, icon);
    assert!(made_item(bbox, "k", Err(VectorizeError::Trace(TraceError::EmptyBbox))).is_err());
    let (a, _) = summarise(&vec![first], false, None, TracePreset::Draft, 5).unwrap();
    let (b, _) = summarise(&vec![Ok(second)], false, None, TracePreset::Draft, 5).unwrap();
    assert_eq!((a.icons, a.ok, a.cache_hits), (1, 1, 0));
    assert_eq!((b.icons, b.ok, b.cache_hits), (1, 1, 1));
    assert_eq!((a.min_ssim, a.mean_composite), (b.min_ssim, b.mean_composite));
}
