//! Verified core of a pixel-rearranging image morph: the cost that decides
//! where each source pixel goes, the swap search of the drawing canvas, the
//! grid bookkeeping of the particle simulation, and the plain-value image and
//! settings helpers around them.

pub mod cost;
pub mod drawing;
pub mod rng;
pub mod search;
pub mod progress;
pub mod rgb;
pub mod naming;
pub mod grid;
pub mod preset;
