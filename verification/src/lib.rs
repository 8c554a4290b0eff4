use vstd::prelude::*;

pub mod annotation;

pub mod capture;
pub mod clipboard;
pub mod history;
pub mod ocr;
pub mod pin;
pub mod raster;
pub mod scroll;
pub mod text;
pub mod translation;

verus! {
} // verus!
