//! A verified input system for key combinations.
pub mod combo;
pub mod config;
pub mod derive;
pub mod mapping_laws;
pub mod types;
pub mod validation;
pub mod validation_laws;
