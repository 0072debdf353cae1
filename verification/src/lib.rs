//! Text-layout engine for a caption renderer: measures the horizontal pixel
//! extent of a glyph layout, greedily wraps caption text into lines that fit
//! a maximum pixel width, and computes where each wrapped line is centered
//! and stacked on a canvas.

pub mod glyph;
pub mod measure;
pub mod place;
pub mod wrap;
