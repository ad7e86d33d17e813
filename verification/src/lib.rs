//! Synthesizes an image by visiting a pixel grid in randomized flood-fill
//! order and assigning each pixel a color drawn from a shrinking palette:
//! forest roots draw a random color, every other pixel draws the palette
//! color nearest to its parent's color.

pub mod color_selection;
pub mod create_image;
pub mod generate_ordering;
pub mod rng;
pub mod spatial;
