//! palettefit: audit character art and brand assets for color drift.

pub mod check;
pub mod color;
pub mod diff;
pub mod input;
pub mod json;
pub mod order;
pub mod palette;
pub mod quantize;
pub mod report;
pub mod sort;
pub mod sums;
pub mod text;
