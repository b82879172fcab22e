//! Color formatting.

use vstd::prelude::*;
use crate::text::{hex_byte, push_char, push_hex_byte};

verus! {

/// `format!("#{:02x}{:02x}{:02x}", r, g, b)`.
pub open spec fn hex_color(r: u8, g: u8, b: u8) -> Seq<char> {
    seq!['#'] + hex_byte(r) + hex_byte(g) + hex_byte(b)
}

/// `#rrggbb` in lower-case hex.
pub fn fmt_hex(r: u8, g: u8, b: u8) -> (s: String)
    ensures
        s@ == hex_color(r, g, b),
{
    let mut s = String::new();
    push_char(&mut s, '#');
    push_hex_byte(&mut s, r);
    push_hex_byte(&mut s, g);
    push_hex_byte(&mut s, b);
    s
}

} // verus!
