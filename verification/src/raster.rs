//! The raster model: a grid of RGB pixels with black as the reserved
//! background, and the color scraper that lists the distinct real colors a
//! raster uses.

use vstd::prelude::*;
use crate::color::contains_color;
use crate::color::distinct_colors;
use crate::color::insert_color;
use crate::color::Rgb;

verus! {

/// A 2D grid of RGB pixels, stored row-major.
pub struct Raster {
    pub width: usize,
    pub height: usize,
    pub pixels: Vec<Rgb>,
}

impl Raster {
    /// The pixel vector covers the grid exactly.
    pub open spec fn wf(self) -> bool {
        self.pixels@.len() == self.width * self.height
    }

    pub fn from_pixels(width: usize, height: usize, pixels: Vec<Rgb>) -> (img: Raster)
        requires
            pixels@.len() == width * height,
        ensures
            img.wf(),
            img.width == width,
            img.height == height,
            img.pixels@ == pixels@,
    {
        Raster { width, height, pixels }
    }
}

/// The distinct colors of the raster, background black and blank white left
/// out, in order of first occurrence.
pub fn extract_colors(img: &Raster) -> (out: Vec<Rgb>)
    ensures
        distinct_colors(out@),
        forall|c: Rgb| out@.contains(c)
            <==> (img.pixels@.contains(c) && c != Rgb::black_spec() && c != Rgb::white_spec()),
{
    let mut out: Vec<Rgb> = Vec::new();
    let mut i: usize = 0;
    while i < img.pixels.len()
        invariant
            i <= img.pixels@.len(),
            distinct_colors(out@),
            forall|c: Rgb| out@.contains(c)
                <==> (img.pixels@.take(i as int).contains(c)
                    && c != Rgb::black_spec() && c != Rgb::white_spec()),
        decreases img.pixels.len() - i,
    {
        let c = img.pixels[i];
        let is_black = c == Rgb::black();
        let is_white = c == Rgb::white();
        let ghost before = out@;
        if !is_black && !is_white {
            insert_color(&mut out, c);
        }
        proof {
            let pre = img.pixels@.take(i as int);
            let cur = img.pixels@.take(i + 1);
            assert(cur.drop_last() =~= pre);
            assert(cur[i as int] == c);
            assert forall|x: Rgb| out@.contains(x)
                implies (cur.contains(x) && x != Rgb::black_spec()
                    && x != Rgb::white_spec()) by {
                if before.contains(x) {
                    let k = choose|k: int| 0 <= k < pre.len() && #[trigger] pre[k] == x;
                    assert(cur[k] == x);
                } else {
                    assert(x == c);
                    assert(cur[i as int] == x);
                }
            }
            assert forall|x: Rgb| (cur.contains(x) && x != Rgb::black_spec()
                    && x != Rgb::white_spec()) implies out@.contains(x) by {
                let k = choose|k: int| 0 <= k < cur.len() && #[trigger] cur[k] == x;
                if k < i {
                    assert(pre[k] == x);
                    assert(pre.contains(x));
                    assert(before.contains(x));
                } else {
                    assert(x == c);
                }
            }
        }
        i = i + 1;
    }
    proof {
        assert(img.pixels@.take(img.pixels@.len() as int) =~= img.pixels@);
    }
    out
}

} // verus!
