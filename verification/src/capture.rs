//! Recognising the game's window among the desktop's windows, and turning captured frames
//! into packed pixels.

use vstd::prelude::*;
use crate::bmp::{lemma_rgb_index_bound, lemma_rgb_index_rows_apart, rgb_index};

verus! {

/// Whether two texts are the same sequence of characters.
pub(crate) fn same_text(a: &str, b: &str) -> (res: bool)
    ensures
        res == (a@ == b@),
{
    let n = a.unicode_len();
    if n != b.unicode_len() {
        return false;
    }
    let mut i: usize = 0;
    while i < n
        invariant
            n == a@.len(),
            n == b@.len(),
            i <= n,
            forall|j: int| 0 <= j < i ==> a@[j] == b@[j],
        decreases n - i,
    {
        if a.get_char(i) != b.get_char(i) {
            return false;
        }
        i += 1;
    }
    assert(a@ =~= b@);
    true
}

/// Whether a window with this title and class name is the game's main window: titled
/// "Project Gorgon", of class "UnityWndClass".
pub fn is_game_window(title: &str, class_name: &str) -> (res: bool)
    ensures
        res == (title@ == "Project Gorgon"@ && class_name@ == "UnityWndClass"@),
{
    same_text(title, "Project Gorgon") && same_text(class_name, "UnityWndClass")
}

/// Whether a window of `ww` by `hh` pixels is small enough for the screenshot fallback:
/// its four-byte pixels take at most one mebibyte.
pub fn fits_screenshot_buffer(ww: i32, hh: i32) -> (res: bool)
    requires
        i32::MIN <= ww * hh <= i32::MAX,
        i32::MIN <= ww * hh * 4 <= i32::MAX,
    ensures
        res == (ww * hh * 4 <= 1024 * 1024),
{
    ww * hh * 4 <= 1024 * 1024
}

/// Whether a window whose client area starts at screen column `left` is on the screen;
/// minimised windows are parked far to the left.
pub fn is_on_screen(left: i32) -> (res: bool)
    ensures
        res == (left >= -10000),
{
    left >= -10000
}

/// Index of channel `c` of pixel `x` of row `y` in a frame of four-byte pixels whose rows
/// are `pitch` bytes apart.
pub open spec fn pitched_index(pitch: int, x: int, y: int, c: int) -> int {
    y * pitch + 4 * x + c
}

/// Packs a captured frame as red, green, blue bytes: `data` holds rows `row_pitch` bytes
/// apart (as many as fit whole), each starting with `width` pixels of four bytes (blue,
/// green, red, alpha); the result holds each pixel's third, second and first byte, rows top
/// to bottom, with no padding.
pub fn strip_alpha_rows(data: &[u8], row_pitch: usize, width: usize) -> (out: Vec<u8>)
    requires
        row_pitch > 0,
        4 * width <= row_pitch,
    ensures
        out@.len() == 3 * width * (data@.len() as int / row_pitch as int),
        forall|x: int, y: int, c: int|
            0 <= x < width && 0 <= y < data@.len() as int / row_pitch as int && 0 <= c < 3
                ==> #[trigger] out@[rgb_index(width as int, x, y, c)] == data@[pitched_index(
                row_pitch as int,
                x,
                y,
                2 - c,
            )],
{
    let rows = data.len() / row_pitch;
    let ghost w = width as int;
    let ghost p = row_pitch as int;
    proof {
        assert(rows * p <= data@.len()) by (nonlinear_arith)
            requires
                rows as int == data@.len() as int / p,
                p > 0,
        ;
    }
    let mut out: Vec<u8> = Vec::new();
    let mut y: usize = 0;
    while y < rows
        invariant
            rows as int == data@.len() as int / p,
            rows * p <= data@.len(),
            data@.len() <= usize::MAX,
            p == row_pitch,
            w == width,
            p > 0,
            4 * w <= p,
            y <= rows,
            out@.len() == 3 * w * y,
            forall|xx: int, yy: int, c: int|
                0 <= xx < w && 0 <= yy < y && 0 <= c < 3 ==> #[trigger] out@[rgb_index(w, xx, yy, c)]
                    == data@[pitched_index(p, xx, yy, 2 - c)],
        decreases rows - y,
    {
        proof {
            assert((y + 1) * p <= rows * p) by (nonlinear_arith)
                requires
                    y < rows,
                    p > 0,
            ;
        }
        let mut x: usize = 0;
        while x < width
            invariant
                rows as int == data@.len() as int / p,
                rows * p <= data@.len(),
                data@.len() <= usize::MAX,
                (y + 1) * p <= rows * p,
                p == row_pitch,
                w == width,
                p > 0,
                4 * w <= p,
                y < rows,
                x <= w,
                out@.len() == 3 * w * y + 3 * x,
                forall|xx: int, yy: int, c: int|
                    0 <= xx < w && 0 <= yy < y && 0 <= c < 3 ==> #[trigger] out@[rgb_index(w, xx, yy, c)]
                        == data@[pitched_index(p, xx, yy, 2 - c)],
                forall|xx: int, c: int|
                    0 <= xx < x && 0 <= c < 3 ==> #[trigger] out@[rgb_index(w, xx, y as int, c)]
                        == data@[pitched_index(p, xx, y as int, 2 - c)],
            decreases w - x,
        {
            proof {
                assert(y * p + 4 * x + 3 <= (y + 1) * p) by (nonlinear_arith)
                    requires
                        x < w,
                        4 * w <= p,
                ;
                assert(y * p >= 0) by (nonlinear_arith)
                    requires
                        y >= 0,
                        p > 0,
                ;
            }
            let base = y * row_pitch + 4 * x;
            let ghost before = out@;
            out.push(data[base + 2]);
            out.push(data[base + 1]);
            out.push(data[base]);
            proof {
                assert forall|xx: int, yy: int, c: int|
                    0 <= xx < w && 0 <= yy < y && 0 <= c < 3 implies #[trigger] out@[rgb_index(w, xx, yy, c)]
                        == data@[pitched_index(p, xx, yy, 2 - c)] by {
                    lemma_rgb_index_rows_apart(w, xx, yy, c, 0, y as int, 0);
                    lemma_rgb_index_bound(w, y as int, xx, yy, c);
                    assert(out@[rgb_index(w, xx, yy, c)] == before[rgb_index(w, xx, yy, c)]);
                }
                assert forall|xx: int, c: int|
                    0 <= xx < x + 1 && 0 <= c < 3 implies #[trigger] out@[rgb_index(w, xx, y as int, c)]
                        == data@[pitched_index(p, xx, y as int, 2 - c)] by {
                    if xx < x {
                        assert(out@[rgb_index(w, xx, y as int, c)] == before[rgb_index(w, xx, y as int, c)]);
                    }
                }
            }
            x += 1;
        }
        proof {
            assert(3 * w * y + 3 * w == 3 * w * (y + 1)) by (nonlinear_arith);
        }
        y += 1;
    }
    out
}

} // verus!
