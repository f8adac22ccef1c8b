//! Decoded still images brought to a canonical pixel layout.
pub mod adapter;
pub mod color;
pub mod format;
pub mod gateway;
pub mod shade;
pub mod single;
