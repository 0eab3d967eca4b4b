//! A generative art engine: builds a collection of unique composite images
//! ("tokens") from layered traits, together with structured metadata for
//! each token.
//!
//! The engine itself is pure: it samples trait combinations, enforces
//! uniqueness of the resulting fingerprints, composites pixel data and
//! synthesizes metadata records. Reading asset files and writing the
//! generated images and metadata documents is left to the surrounding
//! application.

pub mod generator;
pub mod images;
pub mod metadata;
pub mod utils;

pub use generator::Collection;
