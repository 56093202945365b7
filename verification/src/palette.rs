//! The palette remap: grayscale pixel values become the words of a C array
//! literal, with the known palette levels mapped to fixed RGB565 colors and
//! every other level written out in decimal.

use crate::text::append_dec;
use crate::text::dec_rep;
use vstd::prelude::*;

verus! {

/// The array entry one pixel value produces, with its trailing separator.
pub open spec fn pixel_entry(x: u8) -> Seq<char> {
    if x == 251 {
        "0x0000, "@
    } else if x == 221 || x == 81 {
        "0x2945, "@
    } else if x == 44 {
        "0xFFFF, "@
    } else if x == 154 {
        "0x528A, "@
    } else {
        dec_rep(x as int) + ", "@
    }
}

/// The entries of all pixels, in order.
pub open spec fn pixel_entries(ps: Seq<u8>) -> Seq<char>
    decreases ps.len(),
{
    if ps.len() == 0 {
        Seq::empty()
    } else {
        pixel_entries(ps.drop_last()) + pixel_entry(ps.last())
    }
}

/// Renders a grayscale pixel buffer as the body of a C array literal.
pub fn render_luma_pixels(pixels: &Vec<u8>) -> (r: String)
    ensures
        r@ == pixel_entries(pixels@),
{
    let mut out = String::new();
    proof {
        assert(pixels@.subrange(0, 0) =~= Seq::<u8>::empty());
        assert(out@ =~= pixel_entries(pixels@.subrange(0, 0)));
    }
    let n = pixels.len();
    let mut i: usize = 0;
    while i < n
        invariant
            0 <= i <= n == pixels@.len(),
            out@ == pixel_entries(pixels@.subrange(0, i as int)),
        decreases n - i,
    {
        let x = pixels[i];
        proof {
            assert(pixels@.subrange(0, i + 1).drop_last() =~= pixels@.subrange(0, i as int));
            assert(pixels@.subrange(0, i + 1).last() == pixels@[i as int]);
        }
        if x == 251 {
            out.append("0x0000, ");
        } else if x == 221 || x == 81 {
            out.append("0x2945, ");
        } else if x == 44 {
            out.append("0xFFFF, ");
        } else if x == 154 {
            out.append("0x528A, ");
        } else {
            append_dec(&mut out, x as u64);
            out.append(", ");
        }
        proof {
            assert(out@ =~= pixel_entries(pixels@.subrange(0, i + 1)));
        }
        i = i + 1;
    }
    proof {
        assert(pixels@.subrange(0, n as int) =~= pixels@);
    }
    out
}

} // verus!
