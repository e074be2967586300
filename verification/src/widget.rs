//! Parts of the picker's interface.

pub mod lens;
pub mod magnifier;
pub mod placement;
pub mod zoom;
