//! Picking a colour from the screen.

pub mod capture;
pub mod color;
pub mod controller;
pub mod cropping;
pub mod output;
pub mod rgba;
pub mod sampling;
pub mod screen;
pub mod wayland;
