//! Icon-sheet segmentation, grouping, vectorisation support and review, verified.

pub mod background;
pub mod batch;
pub mod cascade;
pub mod chamfer;
pub mod clean;
pub mod cluster;
pub mod confidence;
pub mod connect;
pub mod containment;
pub mod counting;
pub mod csv;
pub mod digest;
pub mod dupes;
pub mod emit;
pub mod error;
pub mod flood;
pub mod fuse;
pub mod geometry;
pub mod grid;
pub mod group;
pub mod grouping;
pub mod hashes;
pub mod host;
pub mod lattice;
pub mod likeness;
pub mod maskcache;
pub mod median;
pub mod merge;
pub mod mask;
pub mod nearby;
pub mod normalize;
pub mod outliers;
pub mod profiles;
pub mod project;
pub mod quality;
pub mod quantize;
pub mod raster;
pub mod ratio;
pub mod refine;
pub mod regions;
pub mod review;
pub mod rss;
pub mod score;
pub mod segment;
pub mod sensitivity;
pub mod sorting;
pub mod simplify;
pub mod split;
pub mod text;
pub mod trace;
pub mod triage;
pub mod union_find;
pub mod vectorize;
pub mod watershed;
pub mod wide;
