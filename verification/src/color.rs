//! Declaration of the terminal color type that palettes are made of.
//!
//! The transcoder never inspects a color: palette entries are carried through
//! from the raw definition to the renderable artifact unchanged, so the type
//! is declared opaquely and no operation on it is assumed.

use vstd::prelude::*;

verus! {

/// Relies on `crossterm::style::Color` being an ordinary plain-data enum
/// (named terminal colors, an RGB triple, or an ANSI value); the crate only
/// stores and moves values of it, never reads them.
#[verifier::external_type_specification]
#[verifier::external_body]
pub struct ExColor(crossterm::style::Color);

} // verus!
