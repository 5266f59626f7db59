//! Verified logic of the Renzora editor plugins: the Poly Haven asset
//! browser, the terminal panel, the Tracy bridge's settings, the water
//! surface's integer decisions and the wind's scripting surface.

pub mod text;
pub mod polyhaven;
pub mod terminal;
pub mod tracy;
pub mod water;
pub mod wind;
