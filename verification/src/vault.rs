//! Reading the state of a minotaur vault puzzle window out of a screenshot: the results
//! type, and the pixel searches that locate the window and cut out the parts that are
//! matched against symbol images or read as text.

use vstd::prelude::*;
use vstd::seq_lib::to_multiset_insert;
use crate::solver::ANSWER_SIZE;
use crate::bmp::{lemma_rgb_index_bound, lemma_rgb_index_rows_apart, rgb_index};

verus! {

/// Colours of the vault window's border, packed as `0xRRGGBB`.
pub open spec fn border_color(k: int) -> int {
    seq![
        0x191011int, 0x1A1112int, 0x240F14int, 0x19110Fint, 0x1B1311int, 0x4A3A3Aint,
        0x594747int, 0x262221int, 0x312726int, 0x252115int, 0x41322Dint, 0x3F3131int,
        0x433032int, 0x403136int, 0x3B342Cint, 0x472C31int, 0x393333int, 0x403635int,
        0x382D2Bint, 0x413232int, 0x231D1Dint, 0x2F2523int, 0x2F2725int, 0x312525int,
        0x17141Dint,
    ][k]
}

/// Number of border colours.
pub const BORDER_COLOR_COUNT: usize = 25;

/// Per-channel difference below which two colours count as the same border colour.
pub const BORDER_THRESHOLD: usize = 0xB;

/// Absolute difference of two integers.
pub open spec fn abs_diff(a: int, b: int) -> int {
    if a >= b {
        a - b
    } else {
        b - a
    }
}

/// The colour `(r, g, b)` is within the threshold of the packed colour `packed` on every
/// channel.
pub open spec fn near_color(packed: int, r: int, g: int, b: int) -> bool {
    &&& abs_diff((packed / 65536) % 256, r) < BORDER_THRESHOLD
    &&& abs_diff((packed / 256) % 256, g) < BORDER_THRESHOLD
    &&& abs_diff(packed % 256, b) < BORDER_THRESHOLD
}

/// The colour `(r, g, b)` is near one of the border colours.
pub open spec fn is_border_color(r: int, g: int, b: int) -> bool {
    exists|k: int| 0 <= k < BORDER_COLOR_COUNT && near_color(border_color(k), r, g, b)
}

/// Red, green and blue of border colour `k`.
pub open spec fn border_channels(k: int) -> (int, int, int) {
    ((border_color(k) / 65536) % 256, (border_color(k) / 256) % 256, border_color(k) % 256)
}

/// A colour counts as a window border exactly when one border colour is close to it on all
/// three channels at once (each closer than `BORDER_THRESHOLD`); one channel that is
/// `BORDER_THRESHOLD` or more away from that channel of every border colour rules it out.
/// No border colour has a red above 0x59, so nothing with a red of 100 or more is border.
pub proof fn lemma_border_needs_every_channel_near(r: int, g: int, b: int)
    ensures
        is_border_color(r, g, b) <==> exists|k: int|
            0 <= k < BORDER_COLOR_COUNT && {
                let (cr, cg, cb) = #[trigger] border_channels(k);
                &&& -11 < cr - r < 11
                &&& -11 < cg - g < 11
                &&& -11 < cb - b < 11
            },
        (forall|k: int| 0 <= k < BORDER_COLOR_COUNT ==> !(-11 < (#[trigger] border_channels(k)).0 - r < 11))
            ==> !is_border_color(r, g, b),
        r >= 100 ==> !is_border_color(r, g, b),
{
    assert forall|k: int| 0 <= k < BORDER_COLOR_COUNT implies (#[trigger] border_channels(k)).0 <= 0x59 by {
        let c = border_color(k);
        assert(0 <= c < 0x5A0000);
        assert(c / 65536 < 0x5A) by (nonlinear_arith)
            requires
                0 <= c < 0x5A0000,
        ;
        assert(c / 65536 >= 0) by (nonlinear_arith)
            requires
                0 <= c,
        ;
    }
    if is_border_color(r, g, b) {
        let k = choose|k: int| 0 <= k < BORDER_COLOR_COUNT && near_color(border_color(k), r, g, b);
        assert(near_color(border_color(k), r, g, b));
        let _ = border_channels(k);
    }
    if exists|k: int|
        0 <= k < BORDER_COLOR_COUNT && {
            let (cr, cg, cb) = #[trigger] border_channels(k);
            &&& -11 < cr - r < 11
            &&& -11 < cg - g < 11
            &&& -11 < cb - b < 11
        } {
        let k = choose|k: int|
            0 <= k < BORDER_COLOR_COUNT && {
                let (cr, cg, cb) = #[trigger] border_channels(k);
                &&& -11 < cr - r < 11
                &&& -11 < cg - g < 11
                &&& -11 < cb - b < 11
            };
        assert(near_color(border_color(k), r, g, b));
    }
}

/// Sum of the channel differences between the packed colour `packed` and `(r, g, b)`.
pub open spec fn color_dist(packed: int, r: int, g: int, b: int) -> int {
    abs_diff((packed / 65536) % 256, r) + abs_diff((packed / 256) % 256, g) + abs_diff(
        packed % 256,
        b,
    )
}

/// Index of the first byte of pixel `(x, y)` in a packed RGB screenshot `sw` pixels wide.
pub open spec fn pixel_index(sw: int, x: int, y: int) -> int {
    x * 3 + y * sw * 3
}

/// Colour channel `c` of pixel `(x, y)`.
pub open spec fn channel(ss: Seq<u8>, sw: int, x: int, y: int, c: int) -> int {
    ss[pixel_index(sw, x, y) + c] as int
}

/// Distance of pixel `(x, y)` from the colour of the window's top border.
pub open spec fn top_border_dist(ss: Seq<u8>, sw: int, x: int, y: int) -> int {
    color_dist(0x191011, channel(ss, sw, x, y, 0), channel(ss, sw, x, y, 1), channel(ss, sw, x, y, 2))
}

/// The search upwards from `(px, py)` over the offsets below `n` (at most 30, and never
/// above the top of the screenshot): the row of the pixel closest to the top border colour,
/// the first one on ties, and its distance; `(py, 999)` before any pixel is seen.
pub open spec fn top_scan(ss: Seq<u8>, sw: int, px: int, py: int, n: int) -> (int, int)
    decreases n,
{
    if n <= 0 {
        (py, 999)
    } else {
        let prev = top_scan(ss, sw, px, py, n - 1);
        let i = n - 1;
        if py < i {
            prev
        } else {
            let d = top_border_dist(ss, sw, px, py - i);
            if prev.1 > d {
                (py - i, d)
            } else {
                prev
            }
        }
    }
}

/// Walking left from `(cx - off, cy)`: the column of the first pixel that is not a border
/// colour, `None` when the walk passes the left edge.
pub open spec fn walk_left(ss: Seq<u8>, sw: int, cx: int, cy: int, off: int) -> Option<int>
    decreases cx + 1 - off,
{
    if off < 0 || cx < off {
        None
    } else if !is_border_color(
        channel(ss, sw, cx - off, cy, 0),
        channel(ss, sw, cx - off, cy, 1),
        channel(ss, sw, cx - off, cy, 2),
    ) {
        Some(cx - off)
    } else {
        walk_left(ss, sw, cx, cy, off + 1)
    }
}


proof fn lemma_top_scan_stable(ss: Seq<u8>, sw: int, px: int, py: int, i: int, n: int)
    requires
        0 <= py < i <= n,
    ensures
        top_scan(ss, sw, px, py, n) == top_scan(ss, sw, px, py, i),
    decreases n - i,
{
    if n > i {
        lemma_top_scan_stable(ss, sw, px, py, i, n - 1);
    }
}

/// The row of the window's top right corner found above the close button at `(px, py)`.
pub open spec fn corner_row(ss: Seq<u8>, sw: int, px: int, py: int) -> int {
    top_scan(ss, sw, px, py, 30).0
}

/// The column where the window's title bar border ends to the left of the corner.
pub open spec fn left_edge(ss: Seq<u8>, sw: int, px: int, py: int) -> Option<int> {
    walk_left(ss, sw, px, corner_row(ss, sw, px, py), 0)
}

/// The title area found from `(px, py)`: (left, right, top) of the text to read, `None`
/// when the border walk passes the left edge or leaves no room for text.
pub open spec fn title_area_bounds(ss: Seq<u8>, sw: int, px: int, py: int) -> Option<(int, int, int)> {
    match left_edge(ss, sw, px, py) {
        Some(l) => if px - 16 <= l + 8 {
            None
        } else {
            Some((l + 8, px - 16, corner_row(ss, sw, px, py) + 3))
        },
        None => None,
    }
}

/// Rows of the title area.
pub const TITLE_AREA_HEIGHT: usize = 31;

/// Every pixel that `window_title_area` reads from `(px, py)` lies in the screenshot, and
/// its arithmetic stays within `usize`.
pub open spec fn title_area_in_bounds(ss: Seq<u8>, sw: int, px: int, py: int) -> bool {
    &&& ss.len() <= usize::MAX
    &&& pixel_index(sw, px, py) + 2 < ss.len()
    &&& match left_edge(ss, sw, px, py) {
        Some(l) => {
            &&& px >= 16
            &&& corner_row(ss, sw, px, py) + 34 <= usize::MAX
            &&& (px - 16 > l + 8 ==> {
                &&& pixel_index(sw, px - 17, corner_row(ss, sw, px, py) + 33) + 2 < ss.len()
                &&& 3 * (px - 16 - (l + 8)) * TITLE_AREA_HEIGHT <= usize::MAX
            })
        },
        None => true,
    }
}

/// The part of a screenshot that holds a window's title, colours inverted, ready to be
/// read as text.
pub struct TitleArea {
    /// Packed RGB pixels of the area, rows top to bottom.
    pub fragment: Vec<u8>,
    /// Width of the area in pixels.
    pub width: usize,
    /// Height of the area in pixels.
    pub height: usize,
    /// Screenshot column of the area's left edge.
    pub left: usize,
    /// Screenshot column of the area's right edge (exclusive).
    pub right: usize,
    /// Screenshot row of the area's top edge.
    pub top: usize,
}

/// One channel of a packed colour: the byte selected by dividing by `shift_div`.
fn packed_part(packed: usize, shift_div: usize) -> (p: usize)
    requires
        shift_div == 1 || shift_div == 256 || shift_div == 65536,
    ensures
        p == (packed / shift_div) % 256,
{
    (packed / shift_div) % 256
}

/// Absolute difference of two bytes.
fn byte_diff(a: usize, b: usize) -> (d: usize)
    ensures
        d == abs_diff(a as int, b as int),
{
    if a >= b {
        a - b
    } else {
        b - a
    }
}

/// Sum of the channel differences between a packed colour and `(r, g, b)`.
fn color_distance(packed: usize, r: u8, g: u8, b: u8) -> (d: usize)
    ensures
        d == color_dist(packed as int, r as int, g as int, b as int),
{
    byte_diff(packed_part(packed, 65536), r as usize) + byte_diff(packed_part(packed, 256), g as usize)
        + byte_diff(packed_part(packed, 1), b as usize)
}

/// The colour `(r, g, b)` is near one of the window border colours.
fn is_border(r: u8, g: u8, b: u8) -> (res: bool)
    ensures
        res == is_border_color(r as int, g as int, b as int),
{
    let border_colors: [usize; BORDER_COLOR_COUNT] = [
        0x191011, 0x1A1112, 0x240F14, 0x19110F, 0x1B1311, 0x4A3A3A, 0x594747, 0x262221, 0x312726,
        0x252115, 0x41322D, 0x3F3131, 0x433032, 0x403136, 0x3B342C, 0x472C31, 0x393333, 0x403635,
        0x382D2B, 0x413232, 0x231D1D, 0x2F2523, 0x2F2725, 0x312525, 0x17141D,
    ];
    assert(forall|k: int| 0 <= k < BORDER_COLOR_COUNT ==> border_colors[k] == border_color(k));
    let mut k: usize = 0;
    while k < BORDER_COLOR_COUNT
        invariant
            k <= BORDER_COLOR_COUNT,
            forall|j: int| 0 <= j < BORDER_COLOR_COUNT ==> border_colors[j] == border_color(j),
            forall|j: int| 0 <= j < k ==> !near_color(border_color(j), r as int, g as int, b as int),
        decreases BORDER_COLOR_COUNT - k,
    {
        let c = border_colors[k];
        if byte_diff(packed_part(c, 65536), r as usize) < BORDER_THRESHOLD && byte_diff(
            packed_part(c, 256),
            g as usize,
        ) < BORDER_THRESHOLD && byte_diff(packed_part(c, 1), b as usize) < BORDER_THRESHOLD {
            assert(near_color(border_color(k as int), r as int, g as int, b as int));
            return true;
        }
        k += 1;
    }
    false
}


/// The row of the window's top right corner: from the close button at `pos`, the pixel
/// among the 30 above it (down to the top of the screenshot) closest to the top border
/// colour.
fn find_corner_row(pos: (usize, usize), screenshot: &[u8], screenshot_w: usize) -> (cy: usize)
    requires
        pixel_index(screenshot_w as int, pos.0 as int, pos.1 as int) + 2 < screenshot@.len(),
        screenshot@.len() <= usize::MAX,
    ensures
        cy == corner_row(screenshot@, screenshot_w as int, pos.0 as int, pos.1 as int),
        cy <= pos.1,
{
    let ghost ss = screenshot@;
    let ghost sw = screenshot_w as int;
    let (px, py) = pos;
    proof {
        assert(py * sw * 3 >= 0 && px * 3 >= 0) by (nonlinear_arith)
            requires
                py >= 0,
                sw >= 0,
                px >= 0,
        ;
    }
    let mut corner_y = py;
    let mut min_dist: usize = 999;
    let mut i: usize = 0;
    while i < 30
        invariant_except_break
            i <= 30,
        invariant
            ss == screenshot@,
            sw == screenshot_w,
            pixel_index(sw, px as int, py as int) + 2 < ss.len(),
            ss.len() <= usize::MAX,
            (corner_y as int, min_dist as int) == top_scan(ss, sw, px as int, py as int, i as int),
        ensures
            (corner_y as int, min_dist as int) == top_scan(ss, sw, px as int, py as int, 30),
        decreases 30 - i,
    {
        if py < i {
            proof {
                lemma_top_scan_stable(ss, sw, px as int, py as int, i as int, 30);
            }
            break;
        }
        let new_y = py - i;
        proof {
            assert(pixel_index(sw, px as int, new_y as int) <= pixel_index(sw, px as int, py as int))
                by (nonlinear_arith)
                requires
                    new_y <= py,
                    sw >= 0,
                    new_y >= 0,
            ;
            assert(new_y * sw * 3 >= 0) by (nonlinear_arith)
                requires
                    new_y >= 0,
                    sw >= 0,
            ;
        }
        let pos_search = px * 3 + new_y * screenshot_w * 3;
        let d = color_distance(
            0x191011,
            screenshot[pos_search],
            screenshot[pos_search + 1],
            screenshot[pos_search + 2],
        );
        if min_dist > d {
            corner_y = new_y;
            min_dist = d;
        }
        i += 1;
    }
    proof {
        lemma_top_scan_rows(ss, sw, px as int, py as int, 30);
    }
    corner_y
}

/// Walking left from `(px, cy)` while the pixels are border colours: the column of the
/// first pixel that is not one, `None` when the walk passes the left edge.
fn find_left_edge(px: usize, cy: usize, screenshot: &[u8], screenshot_w: usize) -> (edge: Option<usize>)
    requires
        pixel_index(screenshot_w as int, px as int, cy as int) + 2 < screenshot@.len(),
        screenshot@.len() <= usize::MAX,
    ensures
        edge is None <==> walk_left(screenshot@, screenshot_w as int, px as int, cy as int, 0) is None,
        edge matches Some(e) ==> e <= px && walk_left(screenshot@, screenshot_w as int, px as int, cy as int, 0)
            == Some(e as int),
{
    let ghost ss = screenshot@;
    let ghost sw = screenshot_w as int;
    let mut x_off: usize = 0;
    loop
        invariant
            ss == screenshot@,
            sw == screenshot_w,
            pixel_index(sw, px as int, cy as int) + 2 < ss.len(),
            ss.len() <= usize::MAX,
            x_off <= px + 1,
            walk_left(ss, sw, px as int, cy as int, 0) == walk_left(ss, sw, px as int, cy as int, x_off as int),
        decreases px + 1 - x_off,
    {
        if px < x_off {
            return None;
        }
        proof {
            assert(pixel_index(sw, (px - x_off) as int, cy as int) <= pixel_index(sw, px as int, cy as int))
                by (nonlinear_arith)
                requires
                    sw >= 0,
                    cy >= 0,
                    x_off <= px,
            ;
            assert(cy * sw * 3 >= 0) by (nonlinear_arith)
                requires
                    cy >= 0,
                    sw >= 0,
            ;
        }
        let pos_search = (px - x_off) * 3 + cy * screenshot_w * 3;
        if !is_border(screenshot[pos_search], screenshot[pos_search + 1], screenshot[pos_search + 2]) {
            return Some(px - x_off);
        }
        x_off += 1;
    }
}

/// Whether `window_title_area` can read every pixel it needs from `pos` (see
/// `title_area_in_bounds`); the caller tests this before asking for the title area.
pub fn title_area_in_reach(pos: (usize, usize), screenshot: &[u8], screenshot_w: usize) -> (ok: bool)
    ensures
        ok == title_area_in_bounds(screenshot@, screenshot_w as int, pos.0 as int, pos.1 as int),
{
    let ghost ss = screenshot@;
    let ghost sw = screenshot_w as int;
    let (px, py) = pos;
    let len = screenshot.len();
    let start = match pixel_offset(px, py, screenshot_w) {
        Some(i) => i,
        None => {
            return false;
        },
    };
    if start >= screenshot.len() || screenshot.len() - start <= 2 {
        return false;
    }
    let cy = find_corner_row(pos, screenshot, screenshot_w);
    proof {
        lemma_pixel_index_above(sw, px as int, cy as int, py as int);
    }
    let edge = match find_left_edge(px, cy, screenshot, screenshot_w) {
        Some(e) => e,
        None => {
            return true;
        },
    };
    if px < 16 || cy > usize::MAX - 34 {
        return false;
    }
    if px - 16 <= edge + 8 {
        return true;
    }
    let last = match pixel_offset(px - 17, cy + 33, screenshot_w) {
        Some(i) => i,
        None => {
            return false;
        },
    };
    if last >= screenshot.len() || screenshot.len() - last <= 2 {
        return false;
    }
    let w = px - 16 - (edge + 8);
    proof {
        assert(3 * w * TITLE_AREA_HEIGHT == w * 3 * TITLE_AREA_HEIGHT) by (nonlinear_arith);
    }
    match w.checked_mul(3) {
        Some(w3) => w3.checked_mul(TITLE_AREA_HEIGHT).is_some(),
        None => false,
    }
}

/// A pixel above another in the same column comes earlier in the screenshot.
proof fn lemma_pixel_index_above(sw: int, x: int, y0: int, y1: int)
    requires
        sw >= 0,
        x >= 0,
        0 <= y0 <= y1,
    ensures
        pixel_index(sw, x, y0) <= pixel_index(sw, x, y1),
{
    assert(y0 * sw * 3 <= y1 * sw * 3) by (nonlinear_arith)
        requires
            sw >= 0,
            0 <= y0 <= y1,
    ;
}

/// `pixel_index(sw, x, y)` when it fits in a `usize`.
fn pixel_offset(x: usize, y: usize, sw: usize) -> (i: Option<usize>)
    ensures
        match i {
            Some(i) => i == pixel_index(sw as int, x as int, y as int),
            None => pixel_index(sw as int, x as int, y as int) > usize::MAX,
        },
{
    proof {
        assert(y * sw * 3 >= 0 && x * 3 >= 0) by (nonlinear_arith)
            requires
                y >= 0,
                sw >= 0,
                x >= 0,
        ;
    }
    let x3 = match x.checked_mul(3) {
        Some(v) => v,
        None => {
            return None;
        },
    };
    let ys = match y.checked_mul(sw) {
        Some(v) => v,
        None => {
            proof {
                assert(y * sw * 3 >= y * sw) by (nonlinear_arith)
                    requires
                        y * sw >= 0,
                ;
            }
            return None;
        },
    };
    let ys3 = match ys.checked_mul(3) {
        Some(v) => v,
        None => {
            return None;
        },
    };
    x3.checked_add(ys3)
}


/// From the position `pos` of a window's close button in a packed RGB screenshot
/// `screenshot_w` pixels wide, finds the window's title bar and cuts out its text area
/// with inverted colours (which reads better as text). Returns `None` when no title area
/// is found.
pub fn window_title_area(pos: (usize, usize), screenshot: &[u8], screenshot_w: usize) -> (res:
    Option<TitleArea>)
    requires
        title_area_in_bounds(screenshot@, screenshot_w as int, pos.0 as int, pos.1 as int),
    ensures
        match title_area_bounds(screenshot@, screenshot_w as int, pos.0 as int, pos.1 as int) {
            None => res is None,
            Some((left, right, top)) => res matches Some(a) && {
                &&& a.left == left
                &&& a.right == right
                &&& a.top == top
                &&& a.width == right - left
                &&& a.height == TITLE_AREA_HEIGHT
                &&& a.fragment@.len() == 3 * a.width * a.height
                &&& forall|x: int, y: int, c: int|
                    0 <= x < a.width && 0 <= y < a.height && 0 <= c < 3 ==> #[trigger] a.fragment@[rgb_index(
                        a.width as int,
                        x,
                        y,
                        c,
                    )] == 255 - screenshot@[pixel_index(screenshot_w as int, left + x, top + y) + c]
            },
        },
{
    let ghost ss = screenshot@;
    let ghost sw = screenshot_w as int;
    let (px, py) = pos;
    let corner_y = find_corner_row(pos, screenshot, screenshot_w);
    let ghost cy = corner_y as int;
    proof {
        lemma_pixel_index_above(sw, px as int, cy, py as int);
    }
    let edge = match find_left_edge(px, corner_y, screenshot, screenshot_w) {
        Some(e) => e,
        None => {
            return None;
        },
    };

    // The text sits below the top border, between the left end of the bar and the button.
    let right = px - 16;
    let bottom = corner_y + 31 + 3;
    let left = edge + 8;
    let top = corner_y + 3;
    if right <= left {
        return None;
    }
    let w = right - left;
    let h = bottom - top;
    proof {
        assert(3 * w * 31 == w * 31 * 3) by (nonlinear_arith);
    }
    let mut fragment = vec![0u8; w * h * 3];
    let mut y: usize = 0;
    while y < h
        invariant
            ss == screenshot@,
            sw == screenshot_w,
            ss.len() <= usize::MAX,
            h == TITLE_AREA_HEIGHT,
            w == right - left,
            left < right,
            right + 17 == px + 1,
            top == cy + 3,
            cy + 34 <= usize::MAX,
            pixel_index(sw, px - 17, cy + 33) + 2 < ss.len(),
            fragment@.len() == 3 * w * h,
            3 * w * h <= usize::MAX,
            y <= h,
            forall|xx: int, yy: int, c: int|
                0 <= xx < w && 0 <= yy < y && 0 <= c < 3 ==> #[trigger] fragment@[rgb_index(
                    w as int,
                    xx,
                    yy,
                    c,
                )] == 255 - ss[pixel_index(sw, left + xx, top + yy) + c],
        decreases h - y,
    {
        let mut x: usize = 0;
        while x < w
            invariant
                ss == screenshot@,
                sw == screenshot_w,
                ss.len() <= usize::MAX,
                h == TITLE_AREA_HEIGHT,
                w == right - left,
                left < right,
                right + 17 == px + 1,
                top == cy + 3,
                cy + 34 <= usize::MAX,
                pixel_index(sw, px - 17, cy + 33) + 2 < ss.len(),
                fragment@.len() == 3 * w * h,
                3 * w * h <= usize::MAX,
                y < h,
                x <= w,
                forall|xx: int, yy: int, c: int|
                    0 <= xx < w && 0 <= yy < y && 0 <= c < 3 ==> #[trigger] fragment@[rgb_index(
                        w as int,
                        xx,
                        yy,
                        c,
                    )] == 255 - ss[pixel_index(sw, left + xx, top + yy) + c],
                forall|xx: int, c: int|
                    0 <= xx < x && 0 <= c < 3 ==> #[trigger] fragment@[rgb_index(w as int, xx, y as int, c)]
                        == 255 - ss[pixel_index(sw, left + xx, top + y) + c],
            decreases w - x,
        {
            proof {
                lemma_rgb_index_bound(w as int, h as int, x as int, y as int, 0);
                lemma_rgb_index_bound(w as int, h as int, x as int, y as int, 2);
                assert(pixel_index(sw, left + x, top + y) <= pixel_index(sw, px - 17, cy + 33))
                    by (nonlinear_arith)
                    requires
                        left + x <= px - 17,
                        top + y <= cy + 33,
                        sw >= 0,
                        left + x >= 0,
                        top + y >= 0,
                ;
                assert((top + y) * sw * 3 >= (top + y) * sw && (top + y) * sw >= 0) by (nonlinear_arith)
                    requires
                        top + y >= 0,
                        sw >= 0,
                ;
                assert((left + x) * 3 >= 0);
                assert((top + y) * sw <= pixel_index(sw, left + x, top + y));
                assert(((top + y) * screenshot_w) as int == (top + y) * sw);
                assert(y * w <= y * w * 3 && y * w >= 0) by (nonlinear_arith)
                    requires
                        y >= 0,
                        w >= 0,
                ;
                assert(x * 3 + y * w * 3 == rgb_index(w as int, x as int, y as int, 0)) by (nonlinear_arith);
            }
            let new_idx = x * 3 + y * w * 3;
            let orig_idx = (left + x) * 3 + (top + y) * screenshot_w * 3;
            let ghost before = fragment@;
            fragment.set(new_idx + 0, 255 - screenshot[orig_idx + 0]);
            fragment.set(new_idx + 1, 255 - screenshot[orig_idx + 1]);
            fragment.set(new_idx + 2, 255 - screenshot[orig_idx + 2]);
            proof {
                assert forall|xx: int, yy: int, c: int|
                    0 <= xx < w && 0 <= yy < y && 0 <= c < 3 implies #[trigger] fragment@[rgb_index(
                        w as int,
                        xx,
                        yy,
                        c,
                    )] == 255 - ss[pixel_index(sw, left + xx, top + yy) + c] by {
                    lemma_rgb_index_rows_apart(w as int, xx, yy, c, x as int, y as int, 0);
                    lemma_rgb_index_bound(w as int, h as int, xx, yy, c);
                    assert(fragment@[rgb_index(w as int, xx, yy, c)] == before[rgb_index(
                        w as int,
                        xx,
                        yy,
                        c,
                    )]);
                }
                assert forall|xx: int, c: int|
                    0 <= xx < x + 1 && 0 <= c < 3 implies #[trigger] fragment@[rgb_index(
                        w as int,
                        xx,
                        y as int,
                        c,
                    )] == 255 - ss[pixel_index(sw, left + xx, top + y) + c] by {
                    if xx < x {
                        assert(fragment@[rgb_index(w as int, xx, y as int, c)] == before[rgb_index(
                            w as int,
                            xx,
                            y as int,
                            c,
                        )]);
                    }
                }
            }
            x += 1;
        }
        y += 1;
    }
    Some(TitleArea { fragment, width: w, height: h, left, right, top })
}

proof fn lemma_top_scan_rows(ss: Seq<u8>, sw: int, px: int, py: int, n: int)
    requires
        py >= 0,
    ensures
        0 <= top_scan(ss, sw, px, py, n).0 <= py,
    decreases n,
{
    if n > 0 {
        lemma_top_scan_rows(ss, sw, px, py, n - 1);
    }
}


/// Grey level of the white panel below the past guesses.
pub const WHITE_COL: u8 = 0x90;

/// Difference from `WHITE_COL` below which a grey level counts as the white panel.
pub const WHITE_COL_THRESHOLD: u8 = 0x05;

/// Rows between the window's content origin and the top of the past-guesses area.
pub const SELECTOR_AREA_HEIGHT: usize = 250;

/// Rows of the selection strip that shows the symbols picked for the next guess.
pub const SELECTOR_AREA_HEIGHT_ONLY_SELECTION: usize = 110;

/// Rows below `SELECTOR_AREA_HEIGHT` where the search for the white panel starts.
pub const SELECTOR_AREA_HEIGHT_W_PAD: usize = 320;

/// The grey level `col` is that of the white panel.
pub open spec fn is_white(col: u8) -> bool {
    abs_diff(col as int, WHITE_COL as int) < WHITE_COL_THRESHOLD
}

/// The downward scan of a grey screenshot `sw` pixels wide, now at row offset `off`
/// (pixel index `idx`), `found` telling whether the white panel has been entered: the
/// offset just below the white panel plus 15, `SELECTOR_AREA_HEIGHT_W_PAD + 15` when no
/// white shows within 30 rows of the start, 0 when the scan leaves the screenshot.
pub open spec fn line_scan(gray: Seq<u8>, sw: int, idx: int, off: int, found: bool) -> int
    decreases gray.len() + sw - idx, if found {
        0int
    } else {
        1int
    },
{
    if sw <= 0 || idx < 0 || idx >= gray.len() {
        0
    } else if !found {
        if is_white(gray[idx]) {
            line_scan(gray, sw, idx, off, true)
        } else if off > SELECTOR_AREA_HEIGHT_W_PAD + 30 {
            SELECTOR_AREA_HEIGHT_W_PAD + 15
        } else {
            line_scan(gray, sw, idx + sw, off + 1, false)
        }
    } else if !is_white(gray[idx]) {
        off + 15
    } else {
        line_scan(gray, sw, idx + sw, off + 1, true)
    }
}

/// The grey levels of the white panel are those within `WHITE_COL_THRESHOLD` of
/// `WHITE_COL` on either side, 0x8C to 0x94; and a downward scan that starts on such a
/// level, with the next row below it outside that range, reports the panel's bottom one
/// row down: the starting offset plus one, plus 15.
pub proof fn lemma_white_panel_levels(gray: Seq<u8>, sw: int, idx: int, c: u8)
    ensures
        is_white(c) <==> 0x8C <= c <= 0x94,
        (sw > 0 && 0 <= idx && idx + sw < gray.len() && 0x8C <= gray[idx] <= 0x94 && !(0x8C
            <= gray[idx + sw] <= 0x94)) ==> line_scan(gray, sw, idx, SELECTOR_AREA_HEIGHT_W_PAD as int, false)
            == SELECTOR_AREA_HEIGHT_W_PAD + 16,
{
    if sw > 0 && 0 <= idx && idx + sw < gray.len() {
        let p = SELECTOR_AREA_HEIGHT_W_PAD as int;
        assert(is_white(gray[idx]) <==> 0x8C <= gray[idx] <= 0x94);
        assert(is_white(gray[idx + sw]) <==> 0x8C <= gray[idx + sw] <= 0x94);
        if is_white(gray[idx]) && !is_white(gray[idx + sw]) {
            assert(line_scan(gray, sw, idx + sw, p + 1, true) == p + 16);
            assert(line_scan(gray, sw, idx, p, true) == p + 16);
        }
    }
}

/// Pixel index where the downward scan at column `window_x + x_offset` starts.
pub open spec fn scan_start(sw: int, window_x: int, window_y: int, x_offset: int) -> int {
    window_x + x_offset + (window_y + SELECTOR_AREA_HEIGHT_W_PAD) * sw
}

/// The scan from `(window_x + x_offset, window_y)` stays within `usize` arithmetic.
pub open spec fn scan_in_range(gray: Seq<u8>, sw: int, window_x: int, window_y: int, x_offset: int) -> bool {
    &&& sw > 0
    &&& window_x + x_offset >= 0
    &&& window_x <= isize::MAX
    &&& window_x + x_offset <= isize::MAX
    &&& scan_start(sw, window_x, window_y, x_offset) <= usize::MAX
    &&& gray.len() + sw + 15 <= usize::MAX
}

/// Scans down the column `window_x + x_offset` of a grey screenshot `ss_w` pixels wide,
/// from `SELECTOR_AREA_HEIGHT_W_PAD` rows below `window_y`, for the white panel under the
/// past guesses; returns the row offset just below the panel plus 15 (see `line_scan`).
pub fn cast_line_downwards(
    ss_grayscale: &[u8],
    ss_w: usize,
    window_x: usize,
    window_y: usize,
    x_offset: isize,
) -> (off_y: usize)
    requires
        scan_in_range(ss_grayscale@, ss_w as int, window_x as int, window_y as int, x_offset as int),
    ensures
        off_y == line_scan(
            ss_grayscale@,
            ss_w as int,
            scan_start(ss_w as int, window_x as int, window_y as int, x_offset as int),
            SELECTOR_AREA_HEIGHT_W_PAD as int,
            false,
        ),
{
    let ghost g = ss_grayscale@;
    let ghost sw = ss_w as int;
    let ghost target = line_scan(
        g,
        sw,
        scan_start(sw, window_x as int, window_y as int, x_offset as int),
        SELECTOR_AREA_HEIGHT_W_PAD as int,
        false,
    );
    let mut off_y = SELECTOR_AREA_HEIGHT_W_PAD;
    let mut found_white = false;
    let column = (window_x as isize + x_offset) as usize;
    proof {
        assert(scan_start(sw, window_x as int, window_y as int, x_offset as int) == column + (window_y
            + SELECTOR_AREA_HEIGHT_W_PAD) * sw);
        assert(window_y * sw + SELECTOR_AREA_HEIGHT_W_PAD * sw == (window_y
            + SELECTOR_AREA_HEIGHT_W_PAD) * sw) by (nonlinear_arith);
        assert(window_y * sw >= 0) by (nonlinear_arith)
            requires
                window_y >= 0,
                sw >= 0,
        ;
    }
    let starting_idx = column + window_y * ss_w;
    loop
        invariant_except_break
            starting_idx + off_y * sw <= usize::MAX,
            line_scan(g, sw, starting_idx + off_y * sw, off_y as int, found_white) == target,
        invariant
            g == ss_grayscale@,
            sw == ss_w,
            sw > 0,
            g.len() + sw + 15 <= usize::MAX,
            off_y >= SELECTOR_AREA_HEIGHT_W_PAD,
            target == line_scan(
                g,
                sw,
                scan_start(sw, window_x as int, window_y as int, x_offset as int),
                SELECTOR_AREA_HEIGHT_W_PAD as int,
                false,
            ),
        ensures
            off_y + 15 == target,
            off_y + 15 <= usize::MAX,
        decreases g.len() + sw - (starting_idx + off_y * sw), if found_white {
            0int
        } else {
            1int
        },
    {
        let idx = starting_idx + off_y * ss_w;
        if idx >= ss_grayscale.len() {
            return 0;
        }
        let col = ss_grayscale[idx];
        let white = if col >= WHITE_COL {
            col - WHITE_COL < WHITE_COL_THRESHOLD
        } else {
            WHITE_COL - col < WHITE_COL_THRESHOLD
        };
        if !found_white {
            if white {
                found_white = true;
                continue;
            }
            // Without white within 30 rows, fall back to the default height.
            if off_y > SELECTOR_AREA_HEIGHT_W_PAD + 30 {
                off_y = SELECTOR_AREA_HEIGHT_W_PAD;
                break;
            }
        } else if !white {
            proof {
                assert(off_y <= off_y * sw) by (nonlinear_arith)
                    requires
                        sw >= 1,
                        off_y >= 0,
                ;
                assert(off_y < g.len());
            }
            break;
        }
        proof {
            assert(starting_idx + (off_y + 1) * sw == starting_idx + off_y * sw + sw) by (nonlinear_arith);
            assert(off_y + 1 <= (off_y + 1) * sw) by (nonlinear_arith)
                requires
                    sw >= 1,
                    off_y >= 0,
            ;
        }
        off_y += 1;
    }
    off_y + 15
}


/// The larger of two integers.
pub open spec fn max_int(a: int, b: int) -> int {
    if a >= b {
        a
    } else {
        b
    }
}

/// The downward scan from column offset `x_offset` of the window (see `cast_line_downwards`).
pub open spec fn scan_at(gray: Seq<u8>, sw: int, window_x: int, window_y: int, x_offset: int) -> int {
    line_scan(
        gray,
        sw,
        scan_start(sw, window_x, window_y, x_offset),
        SELECTOR_AREA_HEIGHT_W_PAD as int,
        false,
    )
}

/// Row offset (from the window's content origin) of the bottom of the past-guesses area:
/// the largest result of the downward scans at column offsets 20, 5, 0 and -10, which
/// start at different distances from the window edge because the padding varies.
pub fn results_area_bottom(
    ss_grayscale: &[u8],
    ss_w: usize,
    window_x: usize,
    window_y: usize,
) -> (off_y: usize)
    requires
        scan_in_range(ss_grayscale@, ss_w as int, window_x as int, window_y as int, 20),
        scan_in_range(ss_grayscale@, ss_w as int, window_x as int, window_y as int, -10),
    ensures
        off_y == max_int(
            max_int(
                max_int(
                    scan_at(ss_grayscale@, ss_w as int, window_x as int, window_y as int, 20),
                    scan_at(ss_grayscale@, ss_w as int, window_x as int, window_y as int, 5),
                ),
                scan_at(ss_grayscale@, ss_w as int, window_x as int, window_y as int, 0),
            ),
            scan_at(ss_grayscale@, ss_w as int, window_x as int, window_y as int, -10),
        ),
{
    let a = cast_line_downwards(ss_grayscale, ss_w, window_x, window_y, 20);
    let b = cast_line_downwards(ss_grayscale, ss_w, window_x, window_y, 5);
    let c = cast_line_downwards(ss_grayscale, ss_w, window_x, window_y, 0);
    let d = cast_line_downwards(ss_grayscale, ss_w, window_x, window_y, -10);
    let ab = if a >= b {
        a
    } else {
        b
    };
    let abc = if ab >= c {
        ab
    } else {
        c
    };
    if abc >= d {
        abc
    } else {
        d
    }
}

/// Index of pixel `(x, y)` in a grey image `w` pixels wide.
pub open spec fn gray_index(w: int, x: int, y: int) -> int {
    x + y * w
}

/// Every pixel of the `w` by `h` rectangle at `(x0, y0)` lies in the grey screenshot.
pub open spec fn fragment_in_bounds(gray: Seq<u8>, ss_w: int, x0: int, y0: int, w: int, h: int) -> bool {
    &&& gray.len() <= usize::MAX
    &&& w * h <= usize::MAX
    &&& y0 + h <= usize::MAX
    &&& (w > 0 && h > 0 ==> x0 + w - 1 + (y0 + h - 1) * ss_w < gray.len())
}

/// Copies the `w` by `h` rectangle at `(x0, y0)` out of a grey screenshot `ss_w` pixels wide.
pub fn extract_gray_fragment(
    ss_grayscale: &[u8],
    ss_w: usize,
    x0: usize,
    y0: usize,
    w: usize,
    h: usize,
) -> (fragment: Vec<u8>)
    requires
        fragment_in_bounds(ss_grayscale@, ss_w as int, x0 as int, y0 as int, w as int, h as int),
    ensures
        fragment@.len() == w * h,
        forall|x: int, y: int|
            0 <= x < w && 0 <= y < h ==> #[trigger] fragment@[gray_index(w as int, x, y)]
                == ss_grayscale@[gray_index(ss_w as int, x0 + x, y0 + y)],
{
    let ghost g = ss_grayscale@;
    let mut fragment = vec![0u8; w * h];
    let mut y: usize = 0;
    while y < h
        invariant
            g == ss_grayscale@,
            fragment_in_bounds(g, ss_w as int, x0 as int, y0 as int, w as int, h as int),
            fragment@.len() == w * h,
            y <= h,
            forall|xx: int, yy: int|
                0 <= xx < w && 0 <= yy < y ==> #[trigger] fragment@[gray_index(w as int, xx, yy)]
                    == g[gray_index(ss_w as int, x0 + xx, y0 + yy)],
        decreases h - y,
    {
        let mut x: usize = 0;
        while x < w
            invariant
                g == ss_grayscale@,
                fragment_in_bounds(g, ss_w as int, x0 as int, y0 as int, w as int, h as int),
                fragment@.len() == w * h,
                y < h,
                x <= w,
                forall|xx: int, yy: int|
                    0 <= xx < w && 0 <= yy < y ==> #[trigger] fragment@[gray_index(w as int, xx, yy)]
                        == g[gray_index(ss_w as int, x0 + xx, y0 + yy)],
                forall|xx: int|
                    0 <= xx < x ==> #[trigger] fragment@[gray_index(w as int, xx, y as int)]
                        == g[gray_index(ss_w as int, x0 + xx, y0 + y)],
            decreases w - x,
        {
            proof {
                assert(x + y * w < w * h) by (nonlinear_arith)
                    requires
                        x < w,
                        y < h,
                ;
                assert(0 <= y * w) by (nonlinear_arith)
                    requires
                        y >= 0,
                        w >= 0,
                ;
                assert(x0 + x + (y0 + y) * ss_w <= x0 + w - 1 + (y0 + h - 1) * ss_w) by (nonlinear_arith)
                    requires
                        x < w,
                        y < h,
                        ss_w >= 0,
                ;
                assert(0 <= (y0 + y) * ss_w) by (nonlinear_arith)
                    requires
                        y0 + y >= 0,
                        ss_w >= 0,
                ;
            }
            let idx_out = x + y * w;
            let idx_in = x0 + x + (y0 + y) * ss_w;
            let ghost before = fragment@;
            fragment.set(idx_out, ss_grayscale[idx_in]);
            proof {
                assert forall|xx: int, yy: int|
                    0 <= xx < w && 0 <= yy < y implies #[trigger] fragment@[gray_index(w as int, xx, yy)]
                        == g[gray_index(ss_w as int, x0 + xx, y0 + yy)] by {
                    assert(gray_index(w as int, xx, yy) < gray_index(w as int, x as int, y as int)) by (nonlinear_arith)
                        requires
                            0 <= xx < w,
                            0 <= yy < y,
                            0 <= x,
                    ;
                    assert(0 <= gray_index(w as int, xx, yy)) by (nonlinear_arith)
                        requires
                            0 <= xx,
                            0 <= yy,
                            0 <= w,
                    ;
                }
                assert forall|xx: int|
                    0 <= xx < x + 1 implies #[trigger] fragment@[gray_index(w as int, xx, y as int)]
                        == g[gray_index(ss_w as int, x0 + xx, y0 + y)] by {
                    if xx < x {
                        assert(0 <= gray_index(w as int, xx, y as int)) by (nonlinear_arith)
                            requires
                                0 <= xx,
                                0 <= y,
                                0 <= w,
                        ;
                        assert(fragment@[gray_index(w as int, xx, y as int)] == before[gray_index(w as int, xx, y as int)]);
                    }
                }
            }
            x += 1;
        }
        y += 1;
    }
    fragment
}


/// `a` comes no later than `b` when positions are ordered by row, then by column.
pub open spec fn row_major_le(a: (usize, usize), b: (usize, usize)) -> bool {
    a.1 < b.1 || (a.1 == b.1 && a.0 <= b.0)
}

/// Executable form of `row_major_le`.
fn row_major_before(a: (usize, usize), b: (usize, usize)) -> (res: bool)
    ensures
        res == row_major_le(a, b),
{
    a.1 < b.1 || (a.1 == b.1 && a.0 <= b.0)
}

/// Orders positions `(x, y)` by row, then by column.
pub fn sort_positions_by_row(positions: Vec<(usize, usize)>) -> (sorted: Vec<(usize, usize)>)
    ensures
        sorted@.to_multiset() == positions@.to_multiset(),
        forall|i: int, j: int|
            0 <= i < j < sorted@.len() ==> row_major_le(#[trigger] sorted@[i], #[trigger] sorted@[j]),
{
    let mut sorted: Vec<(usize, usize)> = Vec::new();
    let mut n: usize = 0;
    assert(positions@.take(0) =~= sorted@);
    while n < positions.len()
        invariant
            n <= positions@.len(),
            sorted@.to_multiset() == positions@.take(n as int).to_multiset(),
            forall|i: int, j: int|
                0 <= i < j < sorted@.len() ==> row_major_le(#[trigger] sorted@[i], #[trigger] sorted@[j]),
        decreases positions@.len() - n,
    {
        let e = positions[n];
        let mut k: usize = 0;
        while k < sorted.len() && row_major_before(sorted[k], e)
            invariant
                k <= sorted@.len(),
                forall|i: int| 0 <= i < k ==> row_major_le(#[trigger] sorted@[i], e),
            decreases sorted@.len() - k,
        {
            k += 1;
        }
        let ghost before = sorted@;
        sorted.insert(k, e);
        proof {
            to_multiset_insert(before, k as int, e);
            assert(positions@.take(n + 1) =~= positions@.take(n as int).push(e));
            vstd::seq_lib::to_multiset_build(positions@.take(n as int), e);
            assert forall|i: int, j: int|
                0 <= i < j < sorted@.len() implies row_major_le(#[trigger] sorted@[i], #[trigger] sorted@[j]) by {
                if j < k {
                } else if j == k {
                    assert(sorted@[i] == before[i]);
                } else if i < k {
                    assert(sorted@[j] == before[j - 1]);
                    if k < before.len() {
                        assert(!row_major_le(before[k as int], e));
                        assert(row_major_le(before[k as int], before[j - 1]) || k == j - 1);
                    }
                } else if i == k {
                    assert(sorted@[j] == before[j - 1]);
                    assert(!row_major_le(before[k as int], e));
                    assert(row_major_le(before[k as int], before[j - 1]) || k == j - 1);
                } else {
                    assert(sorted@[i] == before[i - 1]);
                    assert(sorted@[j] == before[j - 1]);
                }
            }
        }
        n += 1;
    }
    assert(positions@.take(positions@.len() as int) =~= positions@);
    sorted
}


/// The value of a decimal digit character, `None` for any other character.
pub open spec fn digit_value(c: char) -> Option<int> {
    if '0' <= c && c <= '9' {
        Some(c as int - '0' as int)
    } else {
        None
    }
}

/// The result of a past guess read from its text "a,b": the first character must be a
/// digit; the second is taken as the other digit unless it is not a digit (often the
/// comma), in which case the third is. `None` when a needed character is missing or not
/// a digit, or when a digit is 5 or more.
pub open spec fn guess_result_of(t: Seq<char>) -> Option<(u8, u8)> {
    if t.len() < 2 {
        None
    } else {
        match digit_value(t[0]) {
            None => None,
            Some(a) => {
                let b_idx = if digit_value(t[1]) is Some {
                    1int
                } else {
                    2int
                };
                if b_idx >= t.len() {
                    None
                } else {
                    match digit_value(t[b_idx]) {
                        None => None,
                        Some(b) => if a < 5 && b < 5 {
                            Some((a as u8, b as u8))
                        } else {
                            None
                        },
                    }
                }
            },
        }
    }
}

/// The character of the decimal digit `d`.
pub open spec fn digit_char(d: u8) -> char {
    if d == 0 {
        '0'
    } else if d == 1 {
        '1'
    } else if d == 2 {
        '2'
    } else if d == 3 {
        '3'
    } else {
        '4'
    }
}

/// Every result a past guess can show is read back: for digits `a` and `b` up to four,
/// the texts "a,b" and "ab", followed by anything, read as `(a, b)`; and whatever is read
/// is a pair of numbers up to four whose first is the text's first character.
pub proof fn lemma_guess_results_read_back(a: u8, b: u8, rest: Seq<char>, t: Seq<char>)
    requires
        a <= 4,
        b <= 4,
    ensures
        guess_result_of(seq![digit_char(a), ',', digit_char(b)] + rest) == Some((a, b)),
        guess_result_of(seq![digit_char(a), digit_char(b)] + rest) == Some((a, b)),
        guess_result_of(t) matches Some((x, y)) ==> x <= 4 && y <= 4 && t[0] == digit_char(x),
{
    let t1 = seq![digit_char(a), ',', digit_char(b)] + rest;
    let t2 = seq![digit_char(a), digit_char(b)] + rest;
    assert(t1[0] == digit_char(a) && t1[1] == ',' && t1[2] == digit_char(b));
    assert(t2[0] == digit_char(a) && t2[1] == digit_char(b));
    assert(digit_value(digit_char(a)) == Some(a as int));
    assert(digit_value(digit_char(b)) == Some(b as int));
    if let Some((x, y)) = guess_result_of(t) {
        let x0 = digit_value(t[0]);
        assert(x0 is Some);
        assert(x0->0 == x);
        assert(t[0] == digit_char(x));
    }
}

/// Executable form of `digit_value`.
fn char_digit(c: char) -> (d: Option<u32>)
    ensures
        match digit_value(c) {
            Some(v) => d == Some(v as u32),
            None => d is None,
        },
{
    if c >= '0' && c <= '9' {
        Some(c as u32 - '0' as u32)
    } else {
        None
    }
}

/// Whether the (trimmed) title read above a close button is the vault's, "Minotaur Lock".
pub fn is_vault_title(title: &str) -> (res: bool)
    ensures
        res == (title@ == "Minotaur Lock"@),
{
    crate::capture::same_text(title, "Minotaur Lock")
}

/// Reads the result of a past guess from the (trimmed) text found next to it.
pub fn parse_guess(s: &str) -> (res: Option<(u8, u8)>)
    ensures
        res == guess_result_of(s@),
{
    let len = s.unicode_len();
    if len < 1 {
        return None;
    }
    let a = match char_digit(s.get_char(0)) {
        Some(a) => a,
        None => return None,
    };
    if len < 2 {
        return None;
    }
    let mut b = s.get_char(1);
    if char_digit(b).is_none() {
        if len < 3 {
            return None;
        }
        b = s.get_char(2);
    }
    let b = match char_digit(b) {
        Some(b) => b,
        None => return None,
    };
    if a < 5 && b < 5 {
        Some((a as u8, b as u8))
    } else {
        None
    }
}


/// Matches closer than this many pixels apart (but not at the same column) stand for the
/// same symbol slot.
pub const WIDTH_THRESHOLD: usize = 15;

/// Two match columns are either the same or far enough apart to be different slots.
pub open spec fn apart(a: usize, b: usize) -> bool {
    abs_diff(a as int, b as int) == 0 || abs_diff(a as int, b as int) > WIDTH_THRESHOLD
}

/// The test, on a match, that its column is apart from `x`.
pub open spec fn apart_from(x: usize) -> spec_fn((usize, u8)) -> bool {
    |b: (usize, u8)| apart(x, b.0)
}

/// The matches of `v` that are apart from column `x`.
pub open spec fn keep_apart(v: Seq<(usize, u8)>, x: usize) -> Seq<(usize, u8)> {
    v.filter(apart_from(x))
}

/// Pruning from position `i` on: each match in turn removes the later and earlier matches
/// that are too close to it, so the best (earliest) match of each slot survives.
pub open spec fn prune_from(v: Seq<(usize, u8)>, i: int) -> Seq<(usize, u8)>
    decreases (if 0 <= i < v.len() {
        v.len() - i
    } else {
        0
    }),
{
    if i < 0 || i >= v.len() {
        v
    } else {
        let next = keep_apart(v, v[i].0);
        proof {
            v.lemma_filter_len(apart_from(v[i].0));
        }
        prune_from(next, i + 1)
    }
}

/// The matches (column, symbol) that survive pruning, in the order they came in.
pub open spec fn pruned(v: Seq<(usize, u8)>) -> Seq<(usize, u8)> {
    prune_from(v, 0)
}

/// Executable form of `apart`.
fn columns_apart(a: usize, b: usize) -> (res: bool)
    ensures
        res == apart(a, b),
{
    let dist = if a >= b {
        a - b
    } else {
        b - a
    };
    dist == 0 || dist > WIDTH_THRESHOLD
}

/// Keeps the matches of `v` whose column is apart from `x`, in order.
fn retain_apart(v: &Vec<(usize, u8)>, x: usize) -> (out: Vec<(usize, u8)>)
    ensures
        out@ == keep_apart(v@, x),
{
    let ghost pred = apart_from(x);
    let mut out: Vec<(usize, u8)> = Vec::new();
    let mut k: usize = 0;
    assert(v@.take(0) =~= Seq::<(usize, u8)>::empty());
    while k < v.len()
        invariant
            k <= v@.len(),
            pred == apart_from(x),
            out@ == v@.take(k as int).filter(pred),
        decreases v@.len() - k,
    {
        let b = v[k];
        proof {
            v@.take(k as int).lemma_filter_push(b, pred);
            assert(v@.take(k + 1) =~= v@.take(k as int).push(b));
        }
        if columns_apart(x, b.0) {
            out.push(b);
        }
        k += 1;
    }
    assert(v@.take(v@.len() as int) =~= v@);
    out
}

/// Removes matches that stand too close to a better one: matches are taken in order (best
/// first), and each removes every other match closer than `WIDTH_THRESHOLD` pixels to it,
/// unless in the very same column.
pub fn prune_close_matches(matches: Vec<(usize, u8)>) -> (out: Vec<(usize, u8)>)
    ensures
        out@ == pruned(matches@),
{
    let mut v = matches;
    let mut i: usize = 0;
    while i < v.len()
        invariant
            prune_from(v@, i as int) == pruned(matches@),
        decreases (if i < v@.len() {
            v@.len() - i
        } else {
            0
        }),
    {
        let a = v[i];
        proof {
            v@.lemma_filter_len(apart_from(a.0));
        }
        v = retain_apart(&v, a.0);
        i += 1;
    }
    v
}

/// The matches to keep for one row of four symbol slots: all of them when there are at
/// most four, otherwise the first four that survive pruning; `None` when fewer than four
/// survive.
pub open spec fn chosen_matches(v: Seq<(usize, u8)>) -> Option<Seq<(usize, u8)>> {
    if v.len() <= 4 {
        Some(v)
    } else if pruned(v).len() < 4 {
        None
    } else {
        Some(pruned(v).take(4))
    }
}

/// Every match of `g` stands apart from column `x`.
pub open spec fn all_apart(g: Seq<(usize, u8)>, x: usize) -> bool {
    forall|k: int| 0 <= k < g.len() ==> apart(#[trigger] g[k].0, x)
}

/// The test, on a match, that it stands apart from every match of `g`.
pub open spec fn apart_from_all(g: Seq<(usize, u8)>) -> spec_fn((usize, u8)) -> bool {
    |e: (usize, u8)| all_apart(g, e.0)
}

/// The matches among the first `n` of `v` that a best-first reading keeps: a match is kept
/// exactly when it stands apart from every match kept before it.
pub open spec fn kept_upto(v: Seq<(usize, u8)>, n: int) -> Seq<(usize, u8)>
    decreases n,
{
    if n <= 0 {
        Seq::empty()
    } else {
        let g = kept_upto(v, n - 1);
        if all_apart(g, v[n - 1].0) {
            g.push(v[n - 1])
        } else {
            g
        }
    }
}

proof fn lemma_filter_keeps_all(s: Seq<(usize, u8)>, p: spec_fn((usize, u8)) -> bool)
    requires
        forall|k: int| 0 <= k < s.len() ==> p(#[trigger] s[k]),
    ensures
        s.filter(p) == s,
    decreases s.len(),
{
    reveal(Seq::filter);
    if s.len() > 0 {
        lemma_filter_keeps_all(s.drop_last(), p);
        assert(s.drop_last().push(s.last()) =~= s);
    }
}

proof fn lemma_filter_twice(
    s: Seq<(usize, u8)>,
    p: spec_fn((usize, u8)) -> bool,
    q: spec_fn((usize, u8)) -> bool,
    r: spec_fn((usize, u8)) -> bool,
)
    requires
        forall|e: (usize, u8)| #[trigger] r(e) == (p(e) && q(e)),
    ensures
        s.filter(p).filter(q) == s.filter(r),
    decreases s.len(),
{
    reveal(Seq::filter);
    if s.len() > 0 {
        lemma_filter_twice(s.drop_last(), p, q, r);
        let e = s.last();
        if p(e) {
            assert(s.drop_last().filter(p).push(e).drop_last() =~= s.drop_last().filter(p));
        }
    }
}

proof fn lemma_apart_symmetric(a: usize, b: usize)
    ensures
        apart(a, b) == apart(b, a),
{
}

/// One step of pruning, read against `kept_upto`: with the first `m` matches of `v` read,
/// `w` holds the matches kept so far followed by the later matches apart from all of them.
proof fn lemma_prune_from_kept(v: Seq<(usize, u8)>, w: Seq<(usize, u8)>, m: int)
    requires
        0 <= m <= v.len(),
        w == kept_upto(v, m) + v.skip(m).filter(apart_from_all(kept_upto(v, m))),
    ensures
        prune_from(w, kept_upto(v, m).len() as int) == kept_upto(v, v.len() as int),
    decreases v.len() - m,
{
    let g = kept_upto(v, m);
    let i = g.len() as int;
    if m == v.len() {
        reveal(Seq::filter);
        assert(v.skip(m) =~= Seq::<(usize, u8)>::empty());
        assert(w =~= g);
    } else {
        let x = v[m];
        assert(v.skip(m) =~= seq![x] + v.skip(m + 1));
        v.skip(m + 1).lemma_filter_prepend(x, apart_from_all(g));
        if !all_apart(g, x.0) {
            assert(kept_upto(v, m + 1) == g);
            assert(w =~= g + v.skip(m + 1).filter(apart_from_all(g)));
            lemma_prune_from_kept(v, w, m + 1);
        } else {
            let g2 = g.push(x);
            assert(kept_upto(v, m + 1) == g2);
            let rest = v.skip(m + 1).filter(apart_from_all(g));
            assert(w =~= g + (seq![x] + rest));
            assert(w[i] == x);
            let ax = apart_from(x.0);
            Seq::filter_distributes_over_add(g, seq![x] + rest, ax);
            assert forall|k: int| 0 <= k < g.len() implies ax(#[trigger] g[k]) by {
                lemma_apart_symmetric(g[k].0, x.0);
            }
            lemma_filter_keeps_all(g, ax);
            rest.lemma_filter_prepend(x, ax);
            assert forall|e: (usize, u8)| #[trigger] apart_from_all(g2)(e) == (apart_from_all(g)(e) && ax(e)) by {
                if all_apart(g, e.0) && apart(x.0, e.0) {
                    assert forall|k: int| 0 <= k < g2.len() implies apart(#[trigger] g2[k].0, e.0) by {
                        if k < g.len() {
                            assert(g2[k] == g[k]);
                        }
                    }
                }
                if all_apart(g2, e.0) {
                    assert(g2[g.len() as int] == x);
                    assert forall|k: int| 0 <= k < g.len() implies apart(#[trigger] g[k].0, e.0) by {
                        assert(g2[k] == g[k]);
                    }
                }
            }
            lemma_filter_twice(v.skip(m + 1), apart_from_all(g), ax, apart_from_all(g2));
            let w2 = keep_apart(w, x.0);
            assert(w2 =~= g2 + v.skip(m + 1).filter(apart_from_all(g2)));
            lemma_prune_from_kept(v, w2, m + 1);
        }
    }
}

proof fn lemma_kept_starts_with_first(v: Seq<(usize, u8)>, n: int)
    requires
        1 <= n <= v.len(),
    ensures
        kept_upto(v, n).len() >= 1,
        kept_upto(v, n)[0] == v[0],
    decreases n,
{
    if n == 1 {
        assert(kept_upto(v, 0) =~= Seq::<(usize, u8)>::empty());
    } else {
        lemma_kept_starts_with_first(v, n - 1);
    }
}

/// Pruning keeps exactly the matches that stand apart from every match kept before them,
/// in their order; so when more than four matches come in, `best_matches_by_x` keeps the
/// first four such matches (the best ones, the matches being ordered best first), the very
/// first match always among them, and gives `None` when fewer than four stand apart.
pub proof fn lemma_best_matches_keep_earliest_survivors(v: Seq<(usize, u8)>)
    ensures
        pruned(v) == kept_upto(v, v.len() as int),
        v.len() > 4 ==> chosen_matches(v) == (if kept_upto(v, v.len() as int).len() < 4 {
            None
        } else {
            Some(kept_upto(v, v.len() as int).take(4))
        }),
        v.len() > 4 && chosen_matches(v) is Some ==> chosen_matches(v)->0[0] == v[0],
{
    reveal(Seq::filter);
    assert(kept_upto(v, 0) =~= Seq::<(usize, u8)>::empty());
    assert forall|e: (usize, u8)| #[trigger] apart_from_all(Seq::<(usize, u8)>::empty())(e) by {}
    lemma_filter_keeps_all(v, apart_from_all(Seq::<(usize, u8)>::empty()));
    assert(v.skip(0) =~= v);
    assert(v =~= kept_upto(v, 0) + v.skip(0).filter(apart_from_all(kept_upto(v, 0))));
    lemma_prune_from_kept(v, v, 0);
    if v.len() > 4 {
        lemma_kept_starts_with_first(v, v.len() as int);
    }
}

/// Executable insertion sort of matches by column.
fn sort_matches_by_x(v: Vec<(usize, u8)>) -> (sorted: Vec<(usize, u8)>)
    ensures
        sorted@.to_multiset() == v@.to_multiset(),
        forall|i: int, j: int| 0 <= i < j < sorted@.len() ==> (#[trigger] sorted@[i]).0 <= (#[trigger] sorted@[j]).0,
{
    let mut sorted: Vec<(usize, u8)> = Vec::new();
    let mut n: usize = 0;
    assert(v@.take(0) =~= sorted@);
    while n < v.len()
        invariant
            n <= v@.len(),
            sorted@.to_multiset() == v@.take(n as int).to_multiset(),
            forall|i: int, j: int| 0 <= i < j < sorted@.len() ==> (#[trigger] sorted@[i]).0 <= (#[trigger] sorted@[j]).0,
        decreases v@.len() - n,
    {
        let e = v[n];
        let mut k: usize = 0;
        while k < sorted.len() && sorted[k].0 <= e.0
            invariant
                k <= sorted@.len(),
                forall|i: int| 0 <= i < k ==> (#[trigger] sorted@[i]).0 <= e.0,
            decreases sorted@.len() - k,
        {
            k += 1;
        }
        let ghost before = sorted@;
        sorted.insert(k, e);
        proof {
            to_multiset_insert(before, k as int, e);
            assert(v@.take(n + 1) =~= v@.take(n as int).push(e));
            vstd::seq_lib::to_multiset_build(v@.take(n as int), e);
            assert forall|i: int, j: int| 0 <= i < j < sorted@.len() implies (#[trigger] sorted@[i]).0 <= (#[trigger] sorted@[j]).0 by {
                if j < k {
                } else if j == k {
                    assert(sorted@[i] == before[i]);
                } else if i <= k {
                    assert(sorted@[j] == before[j - 1]);
                    if k < before.len() {
                        assert(before[k as int].0 > e.0);
                        assert(before[k as int].0 <= before[j - 1].0 || k == j - 1);
                    }
                    if i < k {
                        assert(sorted@[i] == before[i]);
                    }
                } else {
                    assert(sorted@[i] == before[i - 1]);
                    assert(sorted@[j] == before[j - 1]);
                }
            }
        }
        n += 1;
    }
    assert(v@.take(v@.len() as int) =~= v@);
    sorted
}

/// The matches for one row of symbol slots, ordered left to right: see `chosen_matches`
/// for which are kept (`matches` must be ordered best first when there are more than
/// four). Matches in the same column may come in either order.
pub fn best_matches_by_x(matches: Vec<(usize, u8)>) -> (res: Option<Vec<(usize, u8)>>)
    ensures
        match chosen_matches(matches@) {
            None => res is None,
            Some(chosen) => res matches Some(sorted) && {
                &&& sorted@.to_multiset() == chosen.to_multiset()
                &&& forall|i: int, j: int| 0 <= i < j < sorted@.len() ==> (#[trigger] sorted@[i]).0 <= (#[trigger] sorted@[j]).0
            },
        },
{
    let mut v = matches;
    if v.len() > 4 {
        v = prune_close_matches(v);
        if v.len() < 4 {
            return None;
        }
        v.truncate(4);
    }
    Some(sort_matches_by_x(v))
}


/// Most guesses a vault allows.
pub const MAX_GUESSES: usize = 12;

/// Past guesses that a vault window shows at most (the last guess ends the puzzle).
pub const SHOWN_GUESSES: usize = 11;

/// A past guess: its four symbols and its two result numbers.
pub type MadeGuess = ([u8; ANSWER_SIZE], u8, u8);

/// The results of analyzing a screenshot with a minotaur vault window.
#[derive(Debug, PartialEq, Eq)]
pub struct AnalyzedMinotaurVault {
    /// The symbols currently being selected for the next guess.
    selected_symbols: [Option<u8>; ANSWER_SIZE],
    /// The guesses made in the past: the four symbols of each and the two result numbers.
    made_guesses: [Option<MadeGuess>; SHOWN_GUESSES],
}

/// The items of `s` up to (not including) the first `None`, unwrapped.
pub open spec fn prefix_until_none<T>(s: Seq<Option<T>>) -> Seq<T>
    decreases s.len(),
{
    if s.len() == 0 {
        Seq::empty()
    } else {
        match s[0] {
            None => Seq::empty(),
            Some(v) => seq![v] + prefix_until_none(s.drop_first()),
        }
    }
}

impl AnalyzedMinotaurVault {
    /// The symbols being selected, slot by slot.
    pub closed spec fn selected_view(&self) -> Seq<Option<u8>> {
        self.selected_symbols@
    }

    /// The past guesses, slot by slot.
    pub closed spec fn guesses_view(&self) -> Seq<Option<MadeGuess>> {
        self.made_guesses@
    }

    /// A vault state always has `ANSWER_SIZE` selection slots and `SHOWN_GUESSES` guess
    /// slots.
    pub proof fn lemma_view_lengths(&self)
        ensures
            self.selected_view().len() == ANSWER_SIZE,
            self.guesses_view().len() == SHOWN_GUESSES,
    {
    }

    /// No symbol selected and no past guess.
    pub fn empty() -> (res: Self)
        ensures
            res.selected_view() == Seq::new(ANSWER_SIZE as nat, |i: int| None::<u8>),
            res.guesses_view() == Seq::new(SHOWN_GUESSES as nat, |i: int| None::<MadeGuess>),
    {
        let res = AnalyzedMinotaurVault {
            selected_symbols: [None, None, None, None],
            made_guesses: [None, None, None, None, None, None, None, None, None, None, None],
        };
        assert(res.selected_view() =~= Seq::new(ANSWER_SIZE as nat, |i: int| None::<u8>));
        assert(res.guesses_view() =~= Seq::new(SHOWN_GUESSES as nat, |i: int| None::<MadeGuess>));
        res
    }

    /// A result with the given slots.
    pub fn from_parts(
        selected_symbols: [Option<u8>; ANSWER_SIZE],
        made_guesses: [Option<MadeGuess>; SHOWN_GUESSES],
    ) -> (res: Self)
        ensures
            res.selected_view() == selected_symbols@,
            res.guesses_view() == made_guesses@,
    {
        AnalyzedMinotaurVault { selected_symbols, made_guesses }
    }

    /// The symbols being selected, slot by slot.
    pub fn selected_symbols(&self) -> (res: [Option<u8>; ANSWER_SIZE])
        ensures
            res@ == self.selected_view(),
    {
        self.selected_symbols
    }

    /// The past guesses, slot by slot.
    pub fn made_guesses(&self) -> (res: [Option<MadeGuess>; SHOWN_GUESSES])
        ensures
            res@ == self.guesses_view(),
    {
        self.made_guesses
    }

    /// Records the past guess shown in slot `k`.
    pub fn record_guess(&mut self, k: usize, guess: MadeGuess)
        requires
            k < SHOWN_GUESSES,
        ensures
            final(self).guesses_view() == old(self).guesses_view().update(k as int, Some(guess)),
            final(self).selected_view() == old(self).selected_view(),
    {
        self.made_guesses[k] = Some(guess);
    }

    /// Records the symbols seen in the selection strip, left to right, from slot 0 on.
    pub fn record_selected(&mut self, matches: &Vec<(usize, u8)>)
        requires
            matches@.len() <= ANSWER_SIZE,
        ensures
            final(self).guesses_view() == old(self).guesses_view(),
            forall|i: int|
                0 <= i < ANSWER_SIZE ==> #[trigger] final(self).selected_view()[i] == if i < matches@.len() {
                    Some(matches@[i].1)
                } else {
                    old(self).selected_view()[i]
                },
    {
        let ghost old_sel = self.selected_symbols@;
        let mut idx: usize = 0;
        while idx < matches.len()
            invariant
                idx <= matches@.len() <= ANSWER_SIZE,
                self.made_guesses@ == old(self).made_guesses@,
                forall|i: int|
                    0 <= i < ANSWER_SIZE ==> #[trigger] self.selected_symbols@[i] == if i < idx {
                        Some(matches@[i].1)
                    } else {
                        old_sel[i]
                    },
            decreases matches@.len() - idx,
        {
            self.selected_symbols[idx] = Some(matches[idx].1);
            idx += 1;
        }
    }

    /// The selected symbols up to the first empty slot.
    pub fn selected_iter(&self) -> (res: Vec<usize>)
        ensures
            res@ == prefix_until_none(self.selected_view()).map_values(|v: u8| v as usize),
    {
        let ghost sel = self.selected_symbols@;
        let mut res: Vec<usize> = Vec::new();
        let mut i: usize = 0;
        loop
            invariant_except_break
                i <= ANSWER_SIZE,
                forall|j: int| 0 <= j < i ==> sel[j] is Some,
                res@ == sel.take(i as int).map_values(|o: Option<u8>| (o->0) as usize),
            invariant
                sel == self.selected_symbols@,
            ensures
                res@ == prefix_until_none(sel).map_values(|v: u8| v as usize),
            decreases ANSWER_SIZE - i,
        {
            if i == ANSWER_SIZE || self.selected_symbols[i].is_none() {
                proof {
                    lemma_prefix_until_none_at(sel, i as int);
                }
                assert(res@ =~= prefix_until_none(sel).map_values(|v: u8| v as usize));
                break;
            }
            let x = self.selected_symbols[i].unwrap();
            res.push(x as usize);
            i += 1;
            assert(res@ =~= sel.take(i as int).map_values(|o: Option<u8>| (o->0) as usize));
        }
        res
    }

    /// The past guesses up to the first empty slot, with their results widened.
    pub fn guesses_iter(&self) -> (res: Vec<([u8; ANSWER_SIZE], usize, usize)>)
        ensures
            res@ == prefix_until_none(self.guesses_view()).map_values(
                |g: MadeGuess| (g.0, g.1 as usize, g.2 as usize),
            ),
    {
        let ghost gs = self.made_guesses@;
        let mut res: Vec<([u8; ANSWER_SIZE], usize, usize)> = Vec::new();
        let mut i: usize = 0;
        loop
            invariant_except_break
                i <= SHOWN_GUESSES,
                forall|j: int| 0 <= j < i ==> gs[j] is Some,
                res@ == gs.take(i as int).map_values(
                    |o: Option<MadeGuess>| ((o->0).0, (o->0).1 as usize, (o->0).2 as usize),
                ),
            invariant
                gs == self.made_guesses@,
            ensures
                res@ == prefix_until_none(gs).map_values(
                    |g: MadeGuess| (g.0, g.1 as usize, g.2 as usize),
                ),
            decreases SHOWN_GUESSES - i,
        {
            if i == SHOWN_GUESSES || self.made_guesses[i].is_none() {
                proof {
                    lemma_prefix_until_none_at(gs, i as int);
                }
                assert(res@ =~= prefix_until_none(gs).map_values(
                    |g: MadeGuess| (g.0, g.1 as usize, g.2 as usize),
                ));
                break;
            }
            let g = self.made_guesses[i].unwrap();
            res.push((g.0, g.1 as usize, g.2 as usize));
            i += 1;
            assert(res@ =~= gs.take(i as int).map_values(
                |o: Option<MadeGuess>| ((o->0).0, (o->0).1 as usize, (o->0).2 as usize),
            ));
        }
        res
    }
}

proof fn lemma_prefix_until_none_at<T>(s: Seq<Option<T>>, i: int)
    requires
        0 <= i <= s.len(),
        forall|j: int| 0 <= j < i ==> s[j] is Some,
        i == s.len() || s[i] is None,
    ensures
        prefix_until_none(s) == s.take(i).map_values(|o: Option<T>| o->0),
    decreases s.len(),
{
    if s.len() > 0 && i > 0 {
        lemma_prefix_until_none_at(s.drop_first(), i - 1);
        assert(s.take(i).map_values(|o: Option<T>| o->0) =~= seq![s[0]->0] + s.drop_first().take(i - 1).map_values(|o: Option<T>| o->0));
    } else {
        assert(s.take(i).map_values(|o: Option<T>| o->0) =~= Seq::empty());
    }
}


/// The symbols of four matches ordered left to right.
pub fn guess_symbols_in_order(matches: &Vec<(usize, u8)>) -> (symbols: [u8; ANSWER_SIZE])
    requires
        matches@.len() == ANSWER_SIZE,
    ensures
        forall|i: int| 0 <= i < ANSWER_SIZE ==> #[trigger] symbols[i] == matches@[i].1,
{
    let mut guess_symbols = [0u8; ANSWER_SIZE];
    let mut idx: usize = 0;
    while idx < matches.len()
        invariant
            idx <= matches@.len() == ANSWER_SIZE,
            forall|i: int| 0 <= i < idx ==> #[trigger] guess_symbols[i] == matches@[i].1,
        decreases matches@.len() - idx,
    {
        guess_symbols[idx] = matches[idx].1;
        idx += 1;
    }
    guess_symbols
}

/// Where to look for one past guess, given the position `comma` of the comma of its result
/// in the past-guesses area of the window whose content starts at `(window_x, window_y)`.
pub struct GuessRects {
    /// Screenshot pixel where the result text ("a,b") starts.
    pub text_x: usize,
    /// Screenshot row where the result text starts.
    pub text_y: usize,
    /// Width of the result text area.
    pub text_w: usize,
    /// Height of the result text area.
    pub text_h: usize,
    /// Screenshot column of the box holding the four guessed symbols.
    pub box_x: usize,
    /// Screenshot row of that box.
    pub box_y: usize,
    /// Width of that box.
    pub box_w: usize,
    /// Height of that box.
    pub box_h: usize,
}

/// The arithmetic of `guess_rects` stays within `usize`.
pub open spec fn guess_rects_in_range(comma: (usize, usize), window_x: int, window_y: int) -> bool {
    &&& comma.0 >= 8
    &&& comma.1 >= 12
    &&& comma.0 - 8 + window_x >= 130
    &&& comma.0 - 8 + 30 + window_x <= usize::MAX
    &&& comma.1 - 12 + 20 + window_y + SELECTOR_AREA_HEIGHT <= usize::MAX
}

/// The rectangles around a past guess: the result text starts 8 pixels left of and 12
/// above the comma and is 30 by 20; the symbol box starts 130 pixels left of the text and
/// 10 above it and is 160 by 45.
pub fn guess_rects(comma: (usize, usize), window_x: usize, window_y: usize) -> (r: GuessRects)
    requires
        guess_rects_in_range(comma, window_x as int, window_y as int),
    ensures
        r.text_x == comma.0 - 8 + window_x,
        r.text_y == comma.1 - 12 + window_y + SELECTOR_AREA_HEIGHT,
        r.text_w == 30,
        r.text_h == 20,
        r.box_x == comma.0 - 8 + window_x - 130,
        r.box_y == comma.1 - 12 + window_y + SELECTOR_AREA_HEIGHT - 10,
        r.box_w == 160,
        r.box_h == 45,
{
    let (x, y) = (comma.0 - 8, comma.1 - 12);
    let (end_x, end_y) = (x + 30, y + 20);
    let (w, h) = (end_x - x, end_y - y);
    let (text_x, text_y) = (x + window_x, y + window_y + SELECTOR_AREA_HEIGHT);
    GuessRects {
        text_x,
        text_y,
        text_w: w,
        text_h: h,
        box_x: x + window_x - 130,
        box_y: y + window_y + SELECTOR_AREA_HEIGHT - 10,
        box_w: 160,
        box_h: 45,
    }
}

/// Inverts every byte (`255 - b`); dark text on light ground reads better as text.
pub fn invert_bytes(bytes: &mut [u8])
    ensures
        final(bytes)@.len() == old(bytes)@.len(),
        forall|i: int| 0 <= i < old(bytes)@.len() ==> #[trigger] final(bytes)@[i] == 255 - old(bytes)@[i],
{
    let mut i: usize = 0;
    while i < bytes.len()
        invariant
            bytes@.len() == old(bytes)@.len(),
            i <= bytes@.len(),
            forall|j: int| 0 <= j < i ==> #[trigger] bytes@[j] == 255 - old(bytes)@[j],
            forall|j: int| i <= j < bytes@.len() ==> #[trigger] bytes@[j] == old(bytes)@[j],
        decreases bytes@.len() - i,
    {
        let b = bytes[i];
        bytes[i] = 255 - b;
        i += 1;
    }
}

} // verus!
