//! Binary masks over a `w` x `h` raster stored row-major, and the
//! morphology the detector applies to them.

use vstd::prelude::*;

verus! {

/// Row-major index of pixel `(x, y)`.
pub open spec fn at(w: int, x: int, y: int) -> int {
    y * w + x
}

/// Whether the mask holds a foreground pixel at `(x, y)`; outside the raster
/// there is none.
pub open spec fn fg_at(mask: Seq<bool>, w: int, h: int, x: int, y: int) -> bool {
    0 <= x < w && 0 <= y < h && mask[at(w, x, y)]
}

/// The 2x2 dilation anchored at the top-left: a pixel is set when it, its
/// right, bottom or bottom-right neighbour is set in the source mask.
pub open spec fn dilated_at(mask: Seq<bool>, w: int, h: int, x: int, y: int) -> bool {
    fg_at(mask, w, h, x, y) || fg_at(mask, w, h, x + 1, y) || fg_at(mask, w, h, x, y + 1)
        || fg_at(mask, w, h, x + 1, y + 1)
}

/// `0 <= y < h` and `0 <= x < w` put `(x, y)` strictly inside the first
/// `w * h` cells.
pub proof fn lemma_at_in_range(w: int, h: int, x: int, y: int)
    requires
        0 <= x < w,
        0 <= y < h,
    ensures
        0 <= at(w, x, y) < w * h,
        at(w, x, y) + 1 <= (y + 1) * w,
        (y + 1) * w <= w * h,
{
    assert(0 <= y * w) by (nonlinear_arith)
        requires
            0 <= y,
            0 <= w,
    ;
    assert((y + 1) * w <= h * w) by (nonlinear_arith)
        requires
            y + 1 <= h,
            0 <= w,
    ;
    assert((y + 1) * w == y * w + w) by (nonlinear_arith);
    assert(h * w == w * h) by (nonlinear_arith);
}

/// A pixel of an earlier row comes before every pixel of a later one.
pub proof fn lemma_row_before(w: int, x: int, y: int, y2: int)
    requires
        0 <= x < w,
        0 <= y < y2,
    ensures
        at(w, x, y) < y2 * w,
        at(w, x, y) < at(w, 0, y2),
{
    assert(y * w + w <= y2 * w) by (nonlinear_arith)
        requires
            y + 1 <= y2,
            0 <= w,
    ;
}

/// Two in-raster pixels with the same row-major index are the same pixel.
pub proof fn lemma_at_injective(w: int, x1: int, y1: int, x2: int, y2: int)
    requires
        0 <= x1 < w,
        0 <= x2 < w,
        0 <= y1,
        0 <= y2,
        at(w, x1, y1) == at(w, x2, y2),
    ensures
        x1 == x2,
        y1 == y2,
{
    if y1 < y2 {
        assert(y1 * w + w <= y2 * w) by (nonlinear_arith)
            requires
                y1 + 1 <= y2,
                0 <= w,
        ;
    } else if y2 < y1 {
        assert(y2 * w + w <= y1 * w) by (nonlinear_arith)
            requires
                y2 + 1 <= y1,
                0 <= w,
        ;
    }
}

/// The 2x2 max filter of a `w` x `h` mask (cv2.dilate with a 2x2 kernel
/// anchored at the origin).
pub fn dilate2x2(mask: &[bool], w: usize, h: usize) -> (out: Vec<bool>)
    requires
        w * h <= mask@.len(),
    ensures
        out@.len() == w * h,
        forall|x: int, y: int|
            0 <= x < w && 0 <= y < h ==> #[trigger] out@[at(w as int, x, y)] == dilated_at(
                mask@,
                w as int,
                h as int,
                x,
                y,
            ),
{
    let cells = mask.len();
    proof {
        assert(w * h == h * w) by (nonlinear_arith);
    }
    let mut out: Vec<bool> = Vec::new();
    let mut y: usize = 0;
    while y < h
        invariant
            y <= h,
            w * h <= mask@.len(),
            mask@.len() == cells,
            out@.len() == y * w,
            forall|xx: int, yy: int|
                0 <= xx < w && 0 <= yy < y ==> #[trigger] out@[at(w as int, xx, yy)]
                    == dilated_at(mask@, w as int, h as int, xx, yy),
        decreases h - y,
    {
        let mut x: usize = 0;
        while x < w
            invariant
                y < h,
                x <= w,
                w * h <= mask@.len(),
                mask@.len() == cells,
                out@.len() == y * w + x,
                forall|xx: int, yy: int|
                    (0 <= xx < w && 0 <= yy < y) || (0 <= xx < x && yy == y) ==> #[trigger] out@[at(
                        w as int,
                        xx,
                        yy,
                    )] == dilated_at(mask@, w as int, h as int, xx, yy),
            decreases w - x,
        {
            proof {
                lemma_at_in_range(w as int, h as int, x as int, y as int);
            }
            let i = y * w + x;
            let mut v = mask[i];
            if x + 1 < w {
                proof {
                    lemma_at_in_range(w as int, h as int, x + 1, y as int);
                }
                v = v || mask[i + 1];
            }
            if y + 1 < h {
                proof {
                    lemma_at_in_range(w as int, h as int, x as int, y + 1);
                    assert(at(w as int, x as int, y + 1) == i + w) by (nonlinear_arith)
                        requires
                            i == y * w + x,
                    ;
                }
                v = v || mask[i + w];
                if x + 1 < w {
                    proof {
                        lemma_at_in_range(w as int, h as int, x + 1, y + 1);
                    }
                    v = v || mask[i + w + 1];
                }
            }
            proof {
                assert(at(w as int, x as int, y + 1) == i + w) by (nonlinear_arith)
                    requires
                        i == y * w + x,
                ;
            }
            let ghost before = out@;
            out.push(v);
            proof {
                assert forall|xx: int, yy: int|
                    (0 <= xx < w && 0 <= yy < y) || (0 <= xx <= x && yy == y) implies #[trigger] out@[at(
                        w as int,
                        xx,
                        yy,
                    )] == dilated_at(mask@, w as int, h as int, xx, yy) by {
                    if yy < y {
                        lemma_row_before(w as int, xx, yy, y as int);
                        assert(out@[at(w as int, xx, yy)] == before[at(w as int, xx, yy)]);
                    }
                }
            }
            x = x + 1;
        }
        proof {
            assert((y + 1) * w == y * w + w) by (nonlinear_arith);
        }
        y = y + 1;
    }
    proof {
        assert(h * w == w * h) by (nonlinear_arith);
    }
    out
}

/// Dilation only adds foreground: every set pixel stays set.
pub proof fn lemma_dilation_extensive(mask: Seq<bool>, w: int, h: int, x: int, y: int)
    requires
        fg_at(mask, w, h, x, y),
    ensures
        dilated_at(mask, w, h, x, y),
{
}

/// Dilation is monotone: a mask contained in another dilates into the
/// other's dilation.
pub proof fn lemma_dilation_monotone(a: Seq<bool>, b: Seq<bool>, w: int, h: int, x: int, y: int)
    requires
        forall|xx: int, yy: int| #[trigger] fg_at(a, w, h, xx, yy) ==> fg_at(b, w, h, xx, yy),
        dilated_at(a, w, h, x, y),
    ensures
        dilated_at(b, w, h, x, y),
{
    assert(fg_at(a, w, h, x, y) ==> fg_at(b, w, h, x, y));
    assert(fg_at(a, w, h, x + 1, y) ==> fg_at(b, w, h, x + 1, y));
    assert(fg_at(a, w, h, x, y + 1) ==> fg_at(b, w, h, x, y + 1));
    assert(fg_at(a, w, h, x + 1, y + 1) ==> fg_at(b, w, h, x + 1, y + 1));
}


/// A pixel of the dilation is set exactly when one of the pixels of the 2x2
/// block whose top-left corner it is (the pixel, its right, bottom and
/// bottom-right neighbours that lie inside the raster) is set in the
/// source mask: the dilation reaches nothing beyond that block.
pub proof fn lemma_dilation_is_block_max(mask: Seq<bool>, w: int, h: int, x: int, y: int)
    requires
        0 <= x < w,
        0 <= y < h,
        w * h <= mask.len(),
    ensures
        dilated_at(mask, w, h, x, y) <==> (mask[y * w + x] || (x + 1 < w && mask[y * w + (x + 1)]) || (
        y + 1 < h && mask[(y + 1) * w + x]) || (x + 1 < w && y + 1 < h && mask[(y + 1) * w + (x
            + 1)])),
{
}

} // verus!
