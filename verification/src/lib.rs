//! Dithering of raster images: reducing a continuous-tone pixel grid to a
//! small palette (typically pure black and white) while preserving the
//! impression of intermediate tones.
//!
//! The library offers five independent passes over a shared grid model:
//! three error-diffusion algorithms (Floyd–Steinberg, Atkinson, Sierra-Lite),
//! one ordered dither (Bayer), and one stochastic threshold dither. Each
//! pass mutates the grid in place and its contract pins the result down as
//! a mathematical function of the input (for the stochastic pass, of the
//! input and the bytes that were drawn).

mod color_map;
mod diffusion;
mod grid;
mod ordered;
mod random;

pub use color_map::BiLevel;
pub use color_map::ColorMap;
pub use color_map::InvertedBiLevel;
pub use diffusion::apply_tap;
pub use diffusion::apply_taps;
pub use diffusion::atkinson_kernel;
pub use diffusion::atkinson_taps;
pub use diffusion::causal_taps;
pub use diffusion::clamp_byte;
pub use diffusion::diffuse_channels;
pub use diffusion::diffuse_pixel;
pub use diffusion::dither_atkinson;
pub use diffusion::dither_floyd_steinberg;
pub use diffusion::dither_pass_spec;
pub use diffusion::dither_pixel_spec;
pub use diffusion::dither_prefix_spec;
pub use diffusion::dither_sierra_lite;
pub use diffusion::err_ints;
pub use diffusion::floyd_steinberg_kernel;
pub use diffusion::floyd_steinberg_taps;
pub use diffusion::lemma_bilevel_closure;
pub use diffusion::lemma_diffusion_deterministic;
pub use diffusion::lemma_error_mass;
pub use diffusion::pixel_error;
pub use diffusion::sierra_lite_kernel;
pub use diffusion::sierra_lite_taps;
pub use diffusion::tap_in_bounds;
pub use diffusion::taps_ok;
pub use diffusion::taps_weight_sum;
pub use diffusion::tdiv;
pub use diffusion::write_channels;
pub use diffusion::Tap;
pub use grid::all_bilevel;
pub use grid::pixel_at;
pub use grid::pixel_base;
pub use grid::DitherError;
pub use grid::PixelGrid;
pub use ordered::bayer_chan;
pub use ordered::bayer_matrix;
pub use ordered::bayer_spec;
pub use ordered::bayer_value_at;
pub use ordered::dither_bayer;
pub use ordered::lemma_bayer_deterministic;
pub use ordered::lemma_bayer_periodic;
pub use random::dither_random_threshold;
pub use random::random_threshold_chan;
pub use random::random_threshold_pixel;
pub use random::random_threshold_spec;
