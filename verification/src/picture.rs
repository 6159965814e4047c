//! Pictures of pages, as the rows of their pixels: four bytes to a pixel.
use crate::numerals::{decimal, decimal_text};
use image::RgbaImage;
use vstd::prelude::*;

verus! {

/// Whether so many bytes make a picture of a size: the bytes of a row are a
/// number that the machine can hold, and those of all rows are there.
pub open spec fn picture_fits(width: u32, height: u32, len: nat) -> bool {
    4 * width <= usize::MAX && 4 * width * height <= len
}

/// Calls [`RgbaImage::from_raw`], and takes the bytes out again: there is such
/// a picture where the bytes of a row can be counted and the bytes are enough
/// for so many rows, and it holds the very bytes.
#[verifier::external_body]
fn raw_picture(width: u32, height: u32, bytes: Vec<u8>) -> (r: Option<Vec<u8>>)
    ensures
        r is Some <==> picture_fits(width, height, bytes@.len()),
        r matches Some(raw) ==> raw@ == bytes@,
{
    RgbaImage::from_raw(width, height, bytes).map(RgbaImage::into_raw)
}

/// The bytes of a picture that can be shown: they are in the order of the
/// screen already, so none is moved.
pub fn to_texture(width: u32, height: u32, pixels: Vec<u8>) -> (r: Option<Vec<u8>>)
    ensures
        r is Some <==> picture_fits(width, height, pixels@.len()),
        r matches Some(raw) ==> raw@ == pixels@,
{
    raw_picture(width, height, pixels)
}

/// The place of the byte that comes to a place when red and blue are swapped.
/// What is left over after the last whole pixel stays.
pub open spec fn swapped_from(len: int, i: int) -> int {
    if i / 4 * 4 + 4 > len {
        i
    } else if i % 4 == 0 {
        i + 2
    } else if i % 4 == 2 {
        i - 2
    } else {
        i
    }
}

/// Pixels with red and blue swapped.
pub open spec fn swapped(bytes: Seq<u8>) -> Seq<u8> {
    Seq::new(bytes.len(), |i: int| bytes[swapped_from(bytes.len() as int, i)])
}

/// Swaps red and blue in every pixel.
pub fn swap_channels(pixels: &Vec<u8>) -> (r: Vec<u8>)
    ensures
        r@ == swapped(pixels@),
{
    let mut out: Vec<u8> = Vec::new();
    let mut i: usize = 0;
    while i < pixels.len()
        invariant
            i <= pixels@.len(),
            out@.len() == i,
            forall|k: int|
                0 <= k < i ==> #[trigger] out@[k] == pixels@[swapped_from(
                    pixels@.len() as int,
                    k,
                )],
        decreases pixels@.len() - i,
    {
        let whole = pixels.len() - i > 3 - i % 4;
        let from: usize = if !whole {
            i
        } else if i % 4 == 0 {
            i + 2
        } else if i % 4 == 2 {
            i - 2
        } else {
            i
        };
        assert(from == swapped_from(pixels@.len() as int, i as int));
        out.push(pixels[from]);
        i = i + 1;
    }
    out
}

/// Swapping red and blue twice gives the pixels back.
pub proof fn swapping_twice_gives_the_pixels_back(bytes: Seq<u8>)
    ensures
        swapped(swapped(bytes)) == bytes,
{
    let n = bytes.len() as int;
    assert forall|i: int| 0 <= i < n implies swapped(swapped(bytes))[i] == bytes[i] by {
        let j = swapped_from(n, i);
        assert(0 <= j < n);
        assert(swapped_from(n, j) == i);
        assert(swapped(bytes)[j] == bytes[i]);
    }
}

/// What is said of bytes that do not make a picture of a size.
pub open spec fn misfit_text(width: u32, height: u32) -> Seq<char> {
    "буфер не соответствует размеру "@ + decimal_text(width as nat) + "x"@ + decimal_text(
        height as nat,
    )
}

/// The bytes of a thumbnail that can be saved: a file holds red first, and the
/// screen blue.
pub fn thumbnail_pixels(width: u32, height: u32, pixels: &Vec<u8>) -> (r: Result<Vec<u8>, String>)
    ensures
        r is Ok <==> picture_fits(width, height, pixels@.len()),
        r matches Ok(raw) ==> raw@ == swapped(pixels@),
        r matches Err(message) ==> message@ == misfit_text(width, height),
{
    let rgba = swap_channels(pixels);
    match raw_picture(width, height, rgba) {
        Some(raw) => Ok(raw),
        None => Err(
            "буфер не соответствует размеру ".to_owned().concat(
                decimal(width as u64).as_str(),
            ).concat("x").concat(decimal(height as u64).as_str()),
        ),
    }
}

/// In every whole pixel the first and the third byte change places, and the
/// second and the fourth stay; what is left over after the last pixel stays.
pub proof fn red_and_blue_change_places(bytes: Seq<u8>, p: int, i: int)
    requires
        0 <= p,
        0 <= i < bytes.len(),
    ensures
        swapped(bytes).len() == bytes.len(),
        4 * p + 3 < bytes.len() ==> {
            &&& swapped(bytes)[4 * p] == bytes[4 * p + 2]
            &&& swapped(bytes)[4 * p + 1] == bytes[4 * p + 1]
            &&& swapped(bytes)[4 * p + 2] == bytes[4 * p]
            &&& swapped(bytes)[4 * p + 3] == bytes[4 * p + 3]
        },
        i >= bytes.len() / 4 * 4 ==> swapped(bytes)[i] == bytes[i],
{
    if 4 * p + 3 < bytes.len() {
        let n = bytes.len() as int;
        assert((4 * p) / 4 == p && (4 * p) % 4 == 0);
        assert((4 * p + 1) / 4 == p && (4 * p + 1) % 4 == 1);
        assert((4 * p + 2) / 4 == p && (4 * p + 2) % 4 == 2);
        assert((4 * p + 3) / 4 == p && (4 * p + 3) % 4 == 3);
    }
}

} // verus!
