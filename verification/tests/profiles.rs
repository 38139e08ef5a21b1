use iconforge::profiles::{profile, Clustering, FitMode, Hierarchical, TracePreset};

#[test]
fn table_is_complete_and_distinct() {
    let mut names: Vec<&str> = TracePreset::all().iter().map(|&p| profile(p).doc_name).collect();
    names.sort_unstable();
    names.dedup();
    assert_eq!(names.len(), 7, "each preset maps to its own doc name");
    for &p in &TracePreset::all() {
        let prof = profile(p);
        assert!(
            (1..=5).contains(&prof.slider),
            "{} slider {}",
            prof.doc_name,
            prof.slider
        );
        assert_eq!(prof.colour, prof.k.is_some(), "{}", prof.doc_name);
    }
}

#[test]
fn wireframe_is_the_only_stroke_only_profile() {
    for &p in &TracePreset::all() {
        assert_eq!(profile(p).stroke_only, p == TracePreset::Wireframe);
    }
}

#[test]
fn bw_presets_use_binary_clustering() {
    let cfg = profile(TracePreset::Draft).vtracer_config();
    assert_eq!(cfg.clustering, Clustering::Binary);
    assert_eq!(cfg.mode, FitMode::Polygon);
    assert!(!cfg.binary_adaptive);

    let cfg = profile(TracePreset::Wireframe).vtracer_config();
    assert!(cfg.binary_adaptive, "mono-clean = BW + adaptive");

    let cfg = profile(TracePreset::Lineart).vtracer_config();
    assert!(cfg.binary_adaptive);
}

#[test]
fn colour_presets_use_expected_hierarchies() {
    let cfg = profile(TracePreset::Balanced).vtracer_config();
    assert_eq!(cfg.clustering, Clustering::ColorCluster);
    assert_eq!(cfg.hierarchical, Hierarchical::Stacked);

    let cfg = profile(TracePreset::Detailed).vtracer_config();
    assert_eq!(cfg.hierarchical, Hierarchical::Cutout);

    let cfg = profile(TracePreset::Pixel).vtracer_config();
    assert_eq!(cfg.mode, FitMode::Pixel);
}
