//! The pixel layout the Windows clipboard expects.
use vstd::prelude::*;

use crate::raster::swap_red_blue_opaque;
use crate::raster::swapped_red_blue_opaque;

verus! {

/// Turns RGBA pixels into the opaque BGRA pixels of a Windows bitmap: red
/// and blue change places and alpha becomes 255. Bytes after the last
/// complete pixel are left alone.
pub fn rgba_to_bgra(pixels: &mut Vec<u8>)
    ensures
        final(pixels)@ == swapped_red_blue_opaque(old(pixels)@),
{
    swap_red_blue_opaque(pixels);
}

/// Converting to the Windows layout and back again gives the same
/// pixels, made opaque: the conversion loses nothing but alpha.
pub proof fn lemma_layout_round_trip(pixels: Seq<u8>)
    ensures
        swapped_red_blue_opaque(swapped_red_blue_opaque(pixels)) == Seq::new(
            pixels.len(),
            |i: int|
                if i < pixels.len() - pixels.len() % 4 && i % 4 == 3 {
                    255u8
                } else {
                    pixels[i]
                },
        ),
{
    let once = swapped_red_blue_opaque(pixels);
    let twice = swapped_red_blue_opaque(once);
    let expected = Seq::new(
        pixels.len(),
        |i: int|
            if i < pixels.len() - pixels.len() % 4 && i % 4 == 3 {
                255u8
            } else {
                pixels[i]
            },
    );
    assert forall|i: int| 0 <= i < pixels.len() implies twice[i] == expected[i] by {
        let complete = pixels.len() - pixels.len() % 4;
        if i < complete {
            if i % 4 == 0 {
                assert(twice[i] == once[i + 2]);
                assert(once[i + 2] == pixels[i]);
            } else if i % 4 == 2 {
                assert(twice[i] == once[i - 2]);
                assert(once[i - 2] == pixels[i]);
            }
        }
    }
    assert(twice =~= expected);
}

} // verus!
