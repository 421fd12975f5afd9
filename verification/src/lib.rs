//! Renders a grayscale bitmap inside a text terminal.
//!
//! The pipeline decodes a portable grayscale bitmap into a pixel grid,
//! resamples it onto the terminal's character cells by nearest neighbor,
//! and maps each cell's luminance to a palette index of the terminal's
//! 24-step grayscale ramp.
//!
//! Luminance is kept exact: a pixel is a raw sample together with the
//! bitmap's declared maximum value, and the normalized value is the
//! rational `sample / max_value` in `[0, 1]`.  A raw sample above the
//! declared maximum (which the format leaves unspecified) is clamped to
//! the maximum, so normalized values never leave `[0, 1]`.

mod image;
mod laws;
mod parser;
mod pgm;
mod pipeline;
mod render;
mod resample;

pub use image::Image;
pub use laws::lemma_parse_encode_round_trip;
pub use parser::encode;
pub use parser::parse;
pub use parser::parse_binary_pgm;
pub use pgm::FormatError;
pub use pgm::PgmModel;
pub use pgm::spec_parse;
pub use pgm::spec_encode;
pub use pipeline::cell_shade;
pub use pipeline::render_image;
pub use pipeline::Directive;
pub use render::render;
pub use resample::resample;
pub use resample::src_index;
pub use resample::lemma_resample_identity;
pub use resample::TerminalGrid;
pub use render::spec_render;
pub use render::lemma_render_monotone;
