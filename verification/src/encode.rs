//! The UTF-8 form of a Unicode scalar value.

use vstd::prelude::*;
use vstd::utf8::{
    encode_scalar, has_width_1_encoding, has_width_2_encoding, has_width_3_encoding, is_scalar,
};

verus! {

/// The number of bytes in the UTF-8 form of a scalar value.
pub open spec fn width(scalar: u32) -> nat {
    if has_width_1_encoding(scalar) {
        1
    } else if has_width_2_encoding(scalar) {
        2
    } else if has_width_3_encoding(scalar) {
        3
    } else {
        4
    }
}

/// Encodes a Unicode scalar value in UTF-8.
pub fn encode(scalar: u32) -> (r: Vec<u8>)
    requires
        is_scalar(scalar),
    ensures
        r@ == encode_scalar(scalar),
{
    let mut out: Vec<u8> = Vec::new();
    if scalar <= 0x7F {
        let b0: u8 = (scalar & 0x7F) as u8;
        out.push(b0);
    } else if scalar <= 0x7FF {
        let b0: u8 = 0xC0 | ((scalar >> 6) & 0x1F) as u8;
        let b1: u8 = 0x80 | (scalar & 0x3F) as u8;
        out.push(b0);
        out.push(b1);
    } else if scalar <= 0xFFFF {
        let b0: u8 = 0xE0 | ((scalar >> 12) & 0x0F) as u8;
        let b1: u8 = 0x80 | ((scalar >> 6) & 0x3F) as u8;
        let b2: u8 = 0x80 | (scalar & 0x3F) as u8;
        out.push(b0);
        out.push(b1);
        out.push(b2);
    } else {
        let b0: u8 = 0xF0 | ((scalar >> 18) & 0x7) as u8;
        let b1: u8 = 0x80 | ((scalar >> 12) & 0x3F) as u8;
        let b2: u8 = 0x80 | ((scalar >> 6) & 0x3F) as u8;
        let b3: u8 = 0x80 | (scalar & 0x3F) as u8;
        out.push(b0);
        out.push(b1);
        out.push(b2);
        out.push(b3);
    }
    assert(out@ =~= encode_scalar(scalar));
    out
}

} // verus!
