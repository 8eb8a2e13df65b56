//! Focus stacking: registration, focus measurement, weight estimation and fusion.

pub mod between;
pub mod budget;
pub mod cli;
pub mod columns;
pub mod correlate;
pub mod covering;
pub mod deciding;
pub mod defaults;
pub mod discovery;
pub mod drive;
pub mod error;
pub mod filter;
pub mod focus;
pub mod frame;
pub mod fusion;
pub mod grid;
pub mod gridding;
pub mod guided;
pub mod guiding;
pub mod halving;
pub mod icc;
pub mod ideal;
pub mod image;
pub mod labels;
pub mod layering;
pub mod layout;
pub mod locating;
pub mod luma;
pub mod natural;
pub mod near;
pub mod peaking;
pub mod pipeline;
pub mod placing;
pub mod plane;
pub mod pyramid;
pub mod reading;
pub mod reap;
pub mod registration;
pub mod rounding;
pub mod run;
pub mod sample;
pub mod scaling;
pub mod scratch;
pub mod sensing;
pub mod session;
pub mod showing;
pub mod shrinking;
pub mod solo;
pub mod splitting;
pub mod stacking;
pub mod standing;
pub mod text;
pub mod thumbnail;
pub mod tiff_io;
pub mod view;
pub mod warp;
pub mod wavelet;
pub mod wavelet_run;
pub mod weights;
pub mod windows;
