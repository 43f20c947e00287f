//! The letterbox of the pipeline's frame: very short or very wide strips get
//! padding above and below so the detector has something to bite on.

use vstd::prelude::*;

verus! {

/// The padding above (and below) a `w` x `h` frame: when the frame is at
/// most `min_height` tall, or wider than `ratio` times its height, it is
/// padded towards twice the larger of `w / ratio` and `min_height`, half
/// the difference on each side.
pub open spec fn letterbox_pad(w: int, h: int, ratio: int, min_height: int) -> int {
    if h <= min_height || w > ratio * h {
        let target = if w / ratio > min_height {
            w / ratio
        } else {
            min_height
        };
        let diff = 2 * target - h;
        if diff < 0 {
            (-diff) / 2
        } else {
            diff / 2
        }
    } else {
        0
    }
}

/// The rows of padding added above (and as many below) a frame of `w` x `h`
/// pixels, for a letterbox ratio `ratio` and a minimum height `min_height`.
pub fn letterbox_padding(w: u32, h: u32, ratio: u32, min_height: u32) -> (pad: u64)
    requires
        ratio > 0,
    ensures
        pad == letterbox_pad(w as int, h as int, ratio as int, min_height as int),
{
    assert((ratio as u64) * (h as u64) <= 0xffff_ffff * 0xffff_ffff) by (nonlinear_arith)
        requires
            ratio <= 0xffff_ffff,
            h <= 0xffff_ffff,
    ;
    let wide = (w as u64) > (ratio as u64) * (h as u64);
    if (h as u64) <= (min_height as u64) || wide {
        let q = (w / ratio) as u64;
        let target: u64 = if q > min_height as u64 {
            q
        } else {
            min_height as u64
        };
        let new_h = 2 * target;
        let hh = h as u64;
        if new_h < hh {
            (hh - new_h) / 2
        } else {
            (new_h - hh) / 2
        }
    } else {
        0
    }
}


/// A frame is padded exactly when it is at most `min_height` tall or wider
/// than `ratio` times its height; then, short or wide alike, the padded
/// height `2 * pad + h` reaches twice the larger of `w / ratio` and
/// `min_height`, short of it by at most the one row an odd difference
/// loses, and goes no further unless the frame was already taller (then the
/// padding is half the excess).
pub proof fn lemma_letterbox_reaches_target(w: int, h: int, ratio: int, min_height: int)
    requires
        ratio > 0,
        w >= 0,
        h >= 0,
        min_height >= 0,
    ensures
        !(h <= min_height || w > ratio * h) ==> letterbox_pad(w, h, ratio, min_height) == 0,
        (h <= min_height || w > ratio * h) ==> {
            let pad = letterbox_pad(w, h, ratio, min_height);
            &&& pad >= 0
            &&& 2 * pad + h + 1 >= 2 * (w / ratio)
            &&& 2 * pad + h + 1 >= 2 * min_height
            &&& (2 * pad + h <= 2 * (w / ratio) || 2 * pad + h <= 2 * min_height || (2 * pad <= h
                && (2 * pad + 1 >= h - 2 * (w / ratio) || 2 * pad + 1 >= h - 2 * min_height)))
        },
{
    if h <= min_height || w > ratio * h {
        let q = w / ratio;
        let target = if q > min_height {
            q
        } else {
            min_height
        };
        let diff = 2 * target - h;
        let pad = letterbox_pad(w, h, ratio, min_height);
        if diff < 0 {
            assert(pad == (-diff) / 2);
            assert(2 * pad <= -diff && 2 * pad + 1 >= -diff);
        } else {
            assert(pad == diff / 2);
            assert(2 * pad <= diff && 2 * pad + 1 >= diff);
        }
    }
}

} // verus!
