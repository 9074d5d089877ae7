//! Named colors.
//!
//! The palette of colors that scenes refer to by name. The numeric
//! red/green/blue representation belongs to the caller's color algebra;
//! shading only ever picks these by name.

use vstd::prelude::*;

verus! {

/// A color picked by name.
#[derive(Debug, Clone, Copy, PartialEq, Eq, Structural)]
pub enum Colors {
    Red,
    White,
    Black,
    Blue,
}

} // verus!
