//! A small widget toolkit for a raw pixel surface: widgets record drawing
//! commands into a `Graphics` buffer and react to key events.
use vstd::prelude::*;

pub mod application;
pub mod bmp;
pub mod button;
pub mod event;
pub mod graphics;
pub mod text_area;
pub mod widget;
pub mod wrap;

verus! {

} // verus!
