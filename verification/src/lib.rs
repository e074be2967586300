//! The eyedropper's logic: picking a colour from the screen, the magnifier lens,
//! the texts of a colour, and the applet's state.
//!
//! Coordinates, zoom and colour arithmetic are done in floating-point numbers
//! computed with integers ([`float`]), so that every result is specified bit by
//! bit. The laws that relate several functions are the proof functions named
//! `law_`.

pub mod activation;
pub mod app;
pub mod arithmetic;
pub mod cli;
pub mod config;
pub mod float;
pub mod ids;
pub mod machine;
pub mod near;
pub mod order;
pub mod picker;
pub mod rounding;
pub mod text;
pub mod widget;
