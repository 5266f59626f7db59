//! The Poly Haven asset browser: the API model and the panel's state.

pub mod api;
pub mod hub;
