//! The table of trace presets.
//!
//! | preset | name | slider | mode |
//! |---|---|---|---|
//! | `Draft` | `mono-fast` | 1 | two tones, polygons, heavy speckle filter |
//! | `Wireframe` | `mono-clean` | 2 | two tones, adaptive threshold, outlines |
//! | `Lineart` | `scan` | 3 | two tones, adaptive threshold, thin features |
//! | `Balanced` | `flat-8` | 3 | about eight colours, stacked |
//! | `Detailed` | `flat-cutout` | 4 | colours cut out of each other |
//! | `HighFidelity` | `detailed` | 5 | near-lossless splines |
//! | `Pixel` | `pixel-art` | 5 | the exact pixel lattice |
use vstd::prelude::*;
use crate::split::Milli;

verus! {

/// The presets.
#[derive(Clone, Copy, Debug, PartialEq, Eq, Structural)]
pub enum TracePreset {
    /// Fast, two tones.
    Draft,
    /// Clean outlines.
    Wireframe,
    /// Scanned line art.
    Lineart,
    /// About eight flat colours.
    Balanced,
    /// Flat colours cut out of each other.
    Detailed,
    /// Near lossless.
    HighFidelity,
    /// Pixel art.
    Pixel,
}

/// How outlines are fitted.
#[derive(Clone, Copy, Debug, PartialEq, Eq, Structural)]
pub enum FitMode {
    /// Straight segments.
    Polygon,
    /// Curves.
    Spline,
    /// The pixel lattice.
    Pixel,
}

/// How regions of several colours relate.
#[derive(Clone, Copy, Debug, PartialEq, Eq, Structural)]
pub enum Hierarchical {
    /// Painted over each other.
    Stacked,
    /// Cut out of each other.
    Cutout,
}

/// What the regions are made of.
#[derive(Clone, Copy, Debug, PartialEq, Eq, Structural)]
pub enum Clustering {
    /// Dark pixels.
    Binary,
    /// Pixels of one colour.
    ColorCluster,
}

/// Tunables of the outline simplifier; lengths in thousandths of a pixel, areas
/// in thousandths of a square pixel, angles in thousandths of a degree. Zero
/// turns a pass off.
#[derive(Clone, Copy, Debug, PartialEq, Eq, Structural)]
pub struct SimplifyParams {
    /// Anchors that deviate less from straight are merged.
    pub collinear_deg: Milli,
    /// Anchors that turn at least this much stay.
    pub corner_turn_deg: Milli,
    /// Distance below which an anchor is dropped.
    pub rdp_px: Milli,
    /// Area below which an anchor is dropped.
    pub vis_area_px2: Milli,
    /// Coordinates this close to an integer are snapped.
    pub snap_px: Milli,
}

/// Half a degree, sixty degrees, 0.35 pixels, 0.4 square pixels, 0.15 pixels.
pub open spec fn default_simplify_params() -> SimplifyParams {
    SimplifyParams {
        collinear_deg: 500,
        corner_turn_deg: 60_000,
        rdp_px: 350,
        vis_area_px2: 400,
        snap_px: 150,
    }
}

impl Default for SimplifyParams {
    fn default() -> (r: Self)
        ensures
            r == default_simplify_params(),
    {
        SimplifyParams {
            collinear_deg: 500,
            corner_turn_deg: 60_000,
            rdp_px: 350,
            vis_area_px2: 400,
            snap_px: 150,
        }
    }
}

/// How the tracer is set up.
#[derive(Clone, Copy, Debug, PartialEq, Eq, Structural)]
pub struct TraceConfig {
    /// What the regions are made of.
    pub clustering: Clustering,
    /// How they relate.
    pub hierarchical: Hierarchical,
    /// How outlines are fitted.
    pub mode: FitMode,
    /// Regions with a side below this are dropped.
    pub filter_speckle: u32,
    /// Significant bits of a colour channel.
    pub color_precision: i32,
    /// Turns above this many degrees are corners.
    pub corner_threshold: i32,
    /// Least length of a segment, in pixels.
    pub length_threshold: u32,
    /// Most rounds of subdivision.
    pub max_iterations: u32,
    /// The two tones are told apart locally.
    pub binary_adaptive: bool,
}

/// Everything that tracing an icon with a preset needs.
#[derive(Clone, Copy, Debug, PartialEq, Eq)]
pub struct TraceProfile {
    /// The preset.
    pub preset: TracePreset,
    /// Its name.
    pub doc_name: &'static str,
    /// Its place on the quality slider, from one to five.
    pub slider: u8,
    /// Several colours, not two tones.
    pub colour: bool,
    /// Outlines only.
    pub stroke_only: bool,
    /// Most colours of the palette.
    pub k: Option<u32>,
    /// The simplifier.
    pub simplify: SimplifyParams,
}

/// The name of a preset.
pub open spec fn name_of(p: TracePreset) -> Seq<char> {
    match p {
        TracePreset::Draft => "mono-fast"@,
        TracePreset::Wireframe => "mono-clean"@,
        TracePreset::Lineart => "scan"@,
        TracePreset::Balanced => "flat-8"@,
        TracePreset::Detailed => "flat-cutout"@,
        TracePreset::HighFidelity => "detailed"@,
        TracePreset::Pixel => "pixel-art"@,
    }
}

/// The slider level of a preset.
pub open spec fn slider_of(p: TracePreset) -> u8 {
    match p {
        TracePreset::Draft => 1,
        TracePreset::Wireframe => 2,
        TracePreset::Lineart => 3,
        TracePreset::Balanced => 3,
        TracePreset::Detailed => 4,
        TracePreset::HighFidelity => 5,
        TracePreset::Pixel => 5,
    }
}

/// The palette bound of a preset; two-tone presets have none.
pub open spec fn palette_of(p: TracePreset) -> Option<u32> {
    match p {
        TracePreset::Draft => None,
        TracePreset::Wireframe => None,
        TracePreset::Lineart => None,
        TracePreset::Balanced => Some(8),
        TracePreset::Detailed => Some(12),
        TracePreset::HighFidelity => Some(24),
        TracePreset::Pixel => Some(32),
    }
}

/// The simplifier of a preset. The pixel lattice stays exact.
pub open spec fn simplify_of(p: TracePreset) -> SimplifyParams {
    let d = default_simplify_params();
    match p {
        TracePreset::Draft => SimplifyParams { rdp_px: 600, vis_area_px2: 800, ..d },
        TracePreset::Wireframe => d,
        TracePreset::Lineart => SimplifyParams { rdp_px: 250, vis_area_px2: 300, ..d },
        TracePreset::Balanced => d,
        TracePreset::Detailed => SimplifyParams { rdp_px: 300, vis_area_px2: 350, ..d },
        TracePreset::HighFidelity => SimplifyParams { rdp_px: 150, vis_area_px2: 150, ..d },
        TracePreset::Pixel => SimplifyParams {
            collinear_deg: 0,
            corner_turn_deg: 90_000,
            rdp_px: 0,
            vis_area_px2: 0,
            snap_px: 0,
        },
    }
}

/// The profile of a preset.
pub open spec fn is_profile(p: TracePreset, r: TraceProfile) -> bool {
    &&& r.preset == p
    &&& r.doc_name@ == name_of(p)
    &&& r.slider == slider_of(p)
    &&& r.colour == palette_of(p) is Some
    &&& r.stroke_only == (p == TracePreset::Wireframe)
    &&& r.k == palette_of(p)
    &&& r.simplify == simplify_of(p)
}

/// The tracer's setup before a preset changes it.
pub open spec fn base_config(colour: bool) -> TraceConfig {
    TraceConfig {
        clustering: if colour {
            Clustering::ColorCluster
        } else {
            Clustering::Binary
        },
        hierarchical: Hierarchical::Stacked,
        mode: FitMode::Spline,
        filter_speckle: 4,
        color_precision: if colour {
            8
        } else {
            6
        },
        corner_threshold: 60,
        length_threshold: 4,
        max_iterations: 10,
        binary_adaptive: false,
    }
}

/// The tracer's setup for a preset.
pub open spec fn config_of(p: TracePreset, colour: bool) -> TraceConfig {
    let b = base_config(colour);
    match p {
        TracePreset::Draft => TraceConfig {
            mode: FitMode::Polygon,
            filter_speckle: 8,
            corner_threshold: 90,
            length_threshold: 8,
            ..b
        },
        TracePreset::Wireframe => TraceConfig { binary_adaptive: true, ..b },
        TracePreset::Lineart => TraceConfig {
            filter_speckle: 2,
            corner_threshold: 45,
            length_threshold: 2,
            binary_adaptive: true,
            ..b
        },
        TracePreset::Balanced => b,
        TracePreset::Detailed => TraceConfig {
            hierarchical: Hierarchical::Cutout,
            filter_speckle: 2,
            length_threshold: 3,
            ..b
        },
        TracePreset::HighFidelity => TraceConfig {
            hierarchical: Hierarchical::Cutout,
            filter_speckle: 1,
            corner_threshold: 45,
            length_threshold: 2,
            ..b
        },
        TracePreset::Pixel => TraceConfig { mode: FitMode::Pixel, filter_speckle: 1, ..b },
    }
}

impl TracePreset {
    /// All presets.
    pub fn all() -> (r: [TracePreset; 7])
        ensures
            forall|p: TracePreset| #[trigger] r@.contains(p),
            r@.no_duplicates(),
    {
        let r = [
            TracePreset::Draft,
            TracePreset::Wireframe,
            TracePreset::Lineart,
            TracePreset::Balanced,
            TracePreset::Detailed,
            TracePreset::HighFidelity,
            TracePreset::Pixel,
        ];
        proof {
            assert forall|p: TracePreset| #[trigger] r@.contains(p) by {
                let i: int = match p {
                    TracePreset::Draft => 0,
                    TracePreset::Wireframe => 1,
                    TracePreset::Lineart => 2,
                    TracePreset::Balanced => 3,
                    TracePreset::Detailed => 4,
                    TracePreset::HighFidelity => 5,
                    TracePreset::Pixel => 6,
                };
                assert(r@[i] == p);
            }
        }
        r
    }
}

impl TraceProfile {
    /// The tracer's setup.
    pub fn vtracer_config(&self) -> (r: TraceConfig)
        ensures
            r == config_of(self.preset, self.colour),
    {
        let mut cfg = TraceConfig {
            clustering: if self.colour {
                Clustering::ColorCluster
            } else {
                Clustering::Binary
            },
            hierarchical: Hierarchical::Stacked,
            mode: FitMode::Spline,
            filter_speckle: 4,
            color_precision: if self.colour {
                8
            } else {
                6
            },
            corner_threshold: 60,
            length_threshold: 4,
            max_iterations: 10,
            binary_adaptive: false,
        };
        match self.preset {
            TracePreset::Draft => {
                cfg.mode = FitMode::Polygon;
                cfg.filter_speckle = 8;
                cfg.corner_threshold = 90;
                cfg.length_threshold = 8;
            },
            TracePreset::Wireframe => {
                cfg.binary_adaptive = true;
            },
            TracePreset::Lineart => {
                cfg.filter_speckle = 2;
                cfg.corner_threshold = 45;
                cfg.length_threshold = 2;
                cfg.binary_adaptive = true;
            },
            TracePreset::Balanced => {},
            TracePreset::Detailed => {
                cfg.hierarchical = Hierarchical::Cutout;
                cfg.filter_speckle = 2;
                cfg.length_threshold = 3;
            },
            TracePreset::HighFidelity => {
                cfg.hierarchical = Hierarchical::Cutout;
                cfg.filter_speckle = 1;
                cfg.corner_threshold = 45;
                cfg.length_threshold = 2;
            },
            TracePreset::Pixel => {
                cfg.mode = FitMode::Pixel;
                cfg.filter_speckle = 1;
            },
        }
        cfg
    }
}

/// The profile of a preset.
pub fn profile(preset: TracePreset) -> (r: TraceProfile)
    ensures
        is_profile(preset, r),
{
    let mut simplify = SimplifyParams::default();
    match preset {
        TracePreset::Draft => {
            simplify.rdp_px = 600;
            simplify.vis_area_px2 = 800;
            TraceProfile {
                preset,
                doc_name: "mono-fast",
                slider: 1,
                colour: false,
                stroke_only: false,
                k: None,
                simplify,
            }
        },
        TracePreset::Wireframe => TraceProfile {
            preset,
            doc_name: "mono-clean",
            slider: 2,
            colour: false,
            stroke_only: true,
            k: None,
            simplify,
        },
        TracePreset::Lineart => {
            simplify.rdp_px = 250;
            simplify.vis_area_px2 = 300;
            TraceProfile {
                preset,
                doc_name: "scan",
                slider: 3,
                colour: false,
                stroke_only: false,
                k: None,
                simplify,
            }
        },
        TracePreset::Balanced => TraceProfile {
            preset,
            doc_name: "flat-8",
            slider: 3,
            colour: true,
            stroke_only: false,
            k: Some(8),
            simplify,
        },
        TracePreset::Detailed => {
            simplify.rdp_px = 300;
            simplify.vis_area_px2 = 350;
            TraceProfile {
                preset,
                doc_name: "flat-cutout",
                slider: 4,
                colour: true,
                stroke_only: false,
                k: Some(12),
                simplify,
            }
        },
        TracePreset::HighFidelity => {
            simplify.rdp_px = 150;
            simplify.vis_area_px2 = 150;
            TraceProfile {
                preset,
                doc_name: "detailed",
                slider: 5,
                colour: true,
                stroke_only: false,
                k: Some(24),
                simplify,
            }
        },
        TracePreset::Pixel => TraceProfile {
            preset,
            doc_name: "pixel-art",
            slider: 5,
            colour: true,
            stroke_only: false,
            k: Some(32),
            simplify: SimplifyParams {
                collinear_deg: 0,
                corner_turn_deg: 90_000,
                rdp_px: 0,
                vis_area_px2: 0,
                snap_px: 0,
            },
        },
    }
}

/// Every preset has a name of its own, and a place on the slider.
pub proof fn names_are_distinct(p: TracePreset, q: TracePreset)
    requires
        p != q,
    ensures
        name_of(p) != name_of(q),
        1 <= slider_of(p) <= 5,
{
    reveal_strlit("mono-fast");
    reveal_strlit("mono-clean");
    reveal_strlit("scan");
    reveal_strlit("flat-8");
    reveal_strlit("flat-cutout");
    reveal_strlit("detailed");
    reveal_strlit("pixel-art");
    let a = name_of(p);
    let b = name_of(q);
    assert(a.len() != b.len() || a[0] != b[0]);
}

/// Presets with a palette trace colour clusters and the others two tones; a preset
/// farther along the slider never has fewer colours, and never drops larger specks.
pub proof fn finer_presets_keep_more(p: TracePreset, q: TracePreset)
    ensures
        (config_of(p, palette_of(p) is Some).clustering == Clustering::ColorCluster) == (palette_of(p) is Some),
        1 <= slider_of(p) <= 5,
        slider_of(p) < slider_of(q) && palette_of(p) is Some ==> palette_of(q) is Some && palette_of(p)->0
            < palette_of(q)->0,
        slider_of(p) < slider_of(q) ==> config_of(p, palette_of(p) is Some).filter_speckle >= config_of(
            q,
            palette_of(q) is Some,
        ).filter_speckle,
        palette_of(p) is Some ==> 8 <= palette_of(p)->0 <= 32,
{
}

} // verus!
