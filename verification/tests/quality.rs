use iconforge::quality::{flags, node_budget, QualityFlag, QualityInput};

fn input(composite: i64, node_count: u32, ink_area: u64, closed: bool) -> QualityInput {
    QualityInput {
        id: 1,
        composite,
        node_count,
        ink_area,
        closed,
    }
}

#[test]
fn the_composite_threshold_is_exclusive() {
    assert_eq!(
        flags(&input(799_000_000, 4, 1600, true)),
        vec![QualityFlag::LowQuality]
    );
    assert!(flags(&input(800_000_000, 4, 1600, true)).is_empty());
    assert!(flags(&input(950_000_000, 4, 1600, true)).is_empty());
}

#[test]
fn the_node_budget_is_four_sqrt_area() {
    // A 1600 px square: 4 times 40 nodes.
    assert_eq!(node_budget(1600), 160);
    assert!(flags(&input(900_000_000, 160, 1600, true)).is_empty());
    assert_eq!(
        flags(&input(900_000_000, 161, 1600, true)),
        vec![QualityFlag::OverComplex]
    );
}

#[test]
fn the_node_budget_is_rounded_down() {
    // 4 * sqrt(2) = 5.65...
    assert_eq!(node_budget(2), 5);
    assert!(flags(&input(900_000_000, 5, 2, true)).is_empty());
    assert_eq!(
        flags(&input(900_000_000, 6, 2, true)),
        vec![QualityFlag::OverComplex]
    );
}

#[test]
fn an_empty_icon_is_never_over_complex() {
    assert!(flags(&input(900_000_000, 3, 0, true)).is_empty());
}

#[test]
fn an_open_contour_always_flags() {
    assert_eq!(
        flags(&input(990_000_000, 4, 1600, false)),
        vec![QualityFlag::OpenContour]
    );
}

#[test]
fn every_flag_combines_in_a_fixed_order() {
    assert_eq!(
        flags(&input(500_000_000, 500, 100, false)),
        vec![
            QualityFlag::LowQuality,
            QualityFlag::OverComplex,
            QualityFlag::OpenContour
        ]
    );
}

#[test]
fn quality_names_round_trip() {
    for flag in [
        QualityFlag::LowQuality,
        QualityFlag::OverComplex,
        QualityFlag::OpenContour,
    ] {
        assert_eq!(QualityFlag::parse(flag.as_str()), Some(flag));
    }
    assert_eq!(QualityFlag::parse("nonsense"), None);
}
