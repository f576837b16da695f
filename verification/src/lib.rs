//! Verified text and index logic for building multi-order coverage maps
//! from textual inputs.

pub mod text;
pub mod uint;
pub mod cells;
pub mod lines;
pub mod time;
