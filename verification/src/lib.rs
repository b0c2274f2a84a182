//! Colors as named presets or packed 32-bit ARGB values, with verified
//! arithmetic for blending, lightening, darkening and changing opacity.

pub mod blend;
pub mod channel;
pub mod color;
pub mod extent;
pub mod rounding;

pub use channel::{to_argb, to_argb_components, to_rgb_components};
pub use color::Color;
pub use extent::Extent;
