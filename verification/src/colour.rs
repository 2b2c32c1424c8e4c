//! Colour tests on single pixels.
use vstd::prelude::*;

verus! {

/// Brightness in thousandths: `0.299 R + 0.587 G + 0.114 B`.
pub open spec fn spec_luma(p: [u8; 3]) -> int {
    299 * p@[0] + 587 * p@[1] + 114 * p@[2]
}

/// Brightness above 20, the floor just above black.
pub open spec fn is_bright(p: [u8; 3]) -> bool {
    spec_luma(p) > 20_000
}

/// The strong blue of the brand overlays: much blue, little red and green.
pub open spec fn is_brand_blue(p: [u8; 3]) -> bool {
    p@[2] > 120 && p@[2] > p@[0] + 40 && p@[2] > p@[1] + 20
}

/// Cool and bright: a light-blue rim or neutral white, not a warm room.
pub open spec fn is_cool_bright(p: [u8; 3]) -> bool {
    p@[2] > 190 && p@[1] > 190 && p@[2] >= p@[0] - 8
}

/// A pixel of a participant's feed: brighter than the background and not an overlay.
pub open spec fn is_content(p: [u8; 3]) -> bool {
    is_bright(p) && !is_brand_blue(p)
}

/// Brightness in thousandths.
pub fn luma(p: &[u8; 3]) -> (r: u32)
    ensures
        r == spec_luma(*p),
{
    299 * p[0] as u32 + 587 * p[1] as u32 + 114 * p[2] as u32
}

pub fn brand_blue(p: &[u8; 3]) -> (r: bool)
    ensures
        r == is_brand_blue(*p),
{
    let (red, green, blue) = (p[0] as i32, p[1] as i32, p[2] as i32);
    blue > 120 && blue > red + 40 && blue > green + 20
}

pub fn cool_bright(p: &[u8; 3]) -> (r: bool)
    ensures
        r == is_cool_bright(*p),
{
    let (red, green, blue) = (p[0] as i32, p[1] as i32, p[2] as i32);
    blue > 190 && green > 190 && blue >= red - 8
}

pub fn content(p: &[u8; 3]) -> (r: bool)
    ensures
        r == is_content(*p),
{
    luma(p) > 20_000 && !brand_blue(p)
}

/// Brightness weighs red, green and blue by 299, 587 and 114 thousandths: a change of a
/// colour counts by that much, and grey is as bright as its three colours.
pub proof fn law_brightness(p: [u8; 3], q: [u8; 3])
    ensures
        spec_luma(p) - spec_luma(q) == 299 * (p@[0] - q@[0]) + 587 * (p@[1] - q@[1]) + 114 * (p@[2]
            - q@[2]),
        p@[0] == p@[1] && p@[1] == p@[2] ==> spec_luma(p) == 1000 * p@[0],
{
}

/// A pixel is the brand's blue if its blue is 121 or more, and above its red by 41 and above
/// its green by 21 at least. With more blue, or less of the others, it stays so.
pub proof fn law_brand_blue(p: [u8; 3], q: [u8; 3])
    ensures
        is_brand_blue(p) <==> 121 <= p@[2] && 41 <= p@[2] - p@[0] && 21 <= p@[2] - p@[1],
        is_brand_blue(p) && p@[2] <= q@[2] && q@[0] <= p@[0] && q@[1] <= p@[1] ==> is_brand_blue(q),
{
}

/// A pixel is cool and bright if its green and its blue are 191 or more and its red is not
/// above its blue by more than 8.
pub proof fn law_cool_bright(p: [u8; 3])
    ensures
        is_cool_bright(p) <==> 191 <= p@[1] && 191 <= p@[2] && p@[0] - p@[2] <= 8,
{
}

/// A pixel shows a feed if it is brighter than 20 and not the brand's blue.
pub proof fn law_content(p: [u8; 3])
    ensures
        is_content(p) <==> 299 * p@[0] + 587 * p@[1] + 114 * p@[2] > 20 * 1000 && !(p@[2] > 120
            && p@[2] - p@[0] > 40 && p@[2] - p@[1] > 20),
{
}

} // verus!
