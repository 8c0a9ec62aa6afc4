//! The inference engine.
//!
//! Supported architectures: `WaveNet` (with modulation, projections, gating,
//! nested condition networks and selectable channels), `LSTM`, and
//! `SlimmableContainer`. Models with selectable sizes default to full size; use
//! [`PureNamModel::set_slimmable_size`] to select a reduced size.

pub use crate::pure::model::PureNamModel;

pub mod activations;
pub mod array_config;
pub mod array_setup;
pub mod assemble;
pub mod checks;
pub mod config;
pub mod conv1d;
pub mod dsp;
pub mod dsp_config;
pub mod film;
pub mod layer;
pub mod layer_array;
pub mod layer_setup;
pub mod lstm;
pub mod mat;
pub mod model;
pub mod net;
pub mod net_build;
pub mod net_config;
pub mod nn;
pub mod plan;
pub mod post_head;
pub mod slim;
pub mod slim_config;
pub mod slim_extract;
pub mod slim_weights;
pub mod wavenet;
