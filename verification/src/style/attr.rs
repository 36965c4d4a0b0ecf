//! Attribute bit flags of a [`super::Style`].

use vstd::prelude::*;

verus! {

pub const BOLD: u16 = 1;

pub const DIM: u16 = 2;

pub const ITALIC: u16 = 4;

pub const UNDERLINE: u16 = 8;

pub const BLINK: u16 = 16;

pub const REVERSE: u16 = 32;

pub const HIDDEN: u16 = 64;

pub const STRIKE: u16 = 128;

} // verus!
