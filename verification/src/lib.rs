//! File carving library: signature search, header/footer pairing and format validation.

pub mod args;
pub mod classifiers;
pub mod classify;
pub mod error;
pub mod io;
pub mod search;
pub mod searchlight;
pub mod utils;
pub mod validation;
