//! A small reader and writer for uncompressed 24-bit BMP images (Windows BITMAPINFOHEADER).

use vstd::prelude::*;
use vstd::arithmetic::div_mod::{
    lemma_div_denominator, lemma_fundamental_div_mod, lemma_fundamental_div_mod_converse, lemma_small_mod,
};

verus! {

/// Size of the two headers that precede the pixel rows of the files written here.
pub const BMP_HEADER_SIZE: usize = 54;

/// The little-endian 16-bit value stored at `buf[a..a + 2]`.
pub open spec fn le_u16_at(buf: Seq<u8>, a: int) -> int {
    buf[a] + 256 * buf[a + 1]
}

/// The little-endian 32-bit value stored at `buf[a..a + 4]`.
pub open spec fn le_u32_at(buf: Seq<u8>, a: int) -> int {
    buf[a] + 256 * buf[a + 1] + 65536 * buf[a + 2] + 16777216 * buf[a + 3]
}

/// Padding bytes that end each stored row of `width` pixels, so that rows are four-byte
/// aligned.
pub open spec fn row_padding(width: int) -> int {
    (4 - (width * 3) % 4) % 4
}

/// Width in pixels, from the header.
pub open spec fn bmp_width(buf: Seq<u8>) -> int {
    le_u32_at(buf, 0x12)
}

/// Height in pixels, from the header.
pub open spec fn bmp_height(buf: Seq<u8>) -> int {
    le_u32_at(buf, 0x16)
}

/// Offset of the pixel rows, from the header.
pub open spec fn bmp_data_start(buf: Seq<u8>) -> int {
    le_u32_at(buf, 0x0A)
}

/// The first problem that `parse_rgb_bmp` finds in the header, in the order it checks;
/// `None` when the header is accepted.
pub open spec fn bmp_header_error(buf: Seq<u8>) -> Option<Seq<char>> {
    let len = buf.len();
    if len < 1 {
        Some("no idx 0"@)
    } else if buf[0] != 0x42 {
        Some("Error parsing header magic"@)
    } else if len < 2 {
        Some("no idx 1"@)
    } else if buf[1] != 0x4D {
        Some("Error parsing header magic"@)
    } else if len < 0x0A {
        Some("no idx"@)
    } else if le_u32_at(buf, 0x06) != 0 {
        Some("reserved_1_and_2 are not 0"@)
    } else if len < 0x0E {
        Some("no idx"@)
    } else if bmp_data_start(buf) >= len {
        Some("raw_data_start is beyond the end of the bmp"@)
    } else if len < 0x12 {
        Some("no idx"@)
    } else if le_u32_at(buf, 0x0E) != 40 {
        Some("bmp is not of type Windows BITMAPINFOHEADER"@)
    } else if len < 0x1C {
        Some("no idx"@)
    } else if le_u16_at(buf, 0x1A) != 1 {
        Some("color_planes is not 1"@)
    } else if len < 0x1E {
        Some("no idx"@)
    } else if le_u16_at(buf, 0x1C) != 24 {
        Some("bpp is not 24"@)
    } else if len < 0x22 {
        Some("no idx"@)
    } else if le_u32_at(buf, 0x1E) != 0 {
        Some("compression is not 0"@)
    } else if len < 0x32 {
        Some("no idx"@)
    } else if le_u32_at(buf, 0x2E) != 0 {
        Some("num_colors_in_palette is not 0"@)
    } else if len < 0x36 {
        Some("no idx"@)
    } else if le_u32_at(buf, 0x32) != 0 {
        Some("num_important_colors is not 0"@)
    } else {
        None
    }
}

/// The pixel rows that an accepted header announces do not all fit in the buffer.
pub open spec fn bmp_rows_missing(buf: Seq<u8>) -> bool {
    let w = bmp_width(buf);
    let h = bmp_height(buf);
    let padded = w * 3 + row_padding(w);
    h > 0 && bmp_data_start(buf) + padded * (h - 1) + w * 3 > buf.len()
}

/// The sizes that `parse_rgb_bmp` computes from an accepted header fit in a `usize`.
pub open spec fn bmp_sizes_fit(buf: Seq<u8>) -> bool {
    let w = bmp_width(buf);
    let h = bmp_height(buf);
    &&& w * 3 + row_padding(w) <= usize::MAX
    &&& w * h * 3 <= usize::MAX
}

/// Index in the parsed image of colour channel `c` of pixel `(x, y)`, `y` counted from
/// the top.
pub open spec fn rgb_index(w: int, x: int, y: int, c: int) -> int {
    3 * w * y + 3 * x + c
}

/// Index in the file of the byte that `parse_rgb_bmp` takes for colour channel `c`
/// (0 red, 1 green, 2 blue) of the pixel `x` of stored row `row` (rows are stored bottom
/// up, each pixel as blue, green, red).
pub open spec fn bmp_source_index(buf: Seq<u8>, x: int, row: int, c: int) -> int {
    let w = bmp_width(buf);
    bmp_data_start(buf) + (w * 3 + row_padding(w)) * row + 3 * x + (2 - c)
}

/// Reads the little-endian 32-bit value at `buffer[a..a + 4]`, if the buffer holds it.
fn read_u32_le(buffer: &[u8], a: usize) -> (res: Option<u32>)
    requires
        a <= 0x36,
    ensures
        res is Some <==> a + 4 <= buffer@.len(),
        res matches Some(v) ==> v == le_u32_at(buffer@, a as int),
{
    if a + 4 > buffer.len() {
        return None;
    }
    Some(
        buffer[a] as u32 + 256 * (buffer[a + 1] as u32) + 65536 * (buffer[a + 2] as u32)
            + 16777216 * (buffer[a + 3] as u32),
    )
}

/// Reads the little-endian 16-bit value at `buffer[a..a + 2]`, if the buffer holds it.
fn read_u16_le(buffer: &[u8], a: usize) -> (res: Option<u16>)
    requires
        a <= 0x36,
    ensures
        res is Some <==> a + 2 <= buffer@.len(),
        res matches Some(v) ==> v == le_u16_at(buffer@, a as int),
{
    if a + 2 > buffer.len() {
        return None;
    }
    Some(buffer[a] as u16 + 256 * (buffer[a + 1] as u16))
}


pub(crate) proof fn lemma_rgb_index_bound(w: int, h: int, x: int, y: int, c: int)
    requires
        0 <= x < w,
        0 <= y < h,
        0 <= c < 3,
    ensures
        0 <= rgb_index(w, x, y, c) < 3 * w * h,
        rgb_index(w, x, y, c) == (w * 3) * y + 3 * x + c,
{
    assert(3 * w * y + 3 * x + c < 3 * w * h) by (nonlinear_arith)
        requires
            0 <= x < w,
            0 <= y < h,
            0 <= c < 3,
    ;
    assert(3 * w * y >= 0) by (nonlinear_arith)
        requires
            0 <= w,
            0 <= y,
    ;
    assert(3 * w * y == (w * 3) * y) by (nonlinear_arith);
}

pub(crate) proof fn lemma_rgb_index_rows_apart(w: int, x1: int, y1: int, c1: int, x2: int, y2: int, c2: int)
    requires
        0 <= x1 < w,
        0 <= x2 < w,
        0 <= c1 < 3,
        0 <= c2 < 3,
        0 <= y1 < y2,
    ensures
        rgb_index(w, x1, y1, c1) < rgb_index(w, x2, y2, c2),
{
    assert(3 * w * y1 + 3 * x1 + c1 < 3 * w * y2 + 3 * x2 + c2) by (nonlinear_arith)
        requires
            0 <= x1 < w,
            0 <= x2 < w,
            0 <= c1 < 3,
            0 <= c2 < 3,
            0 <= y1 < y2,
    ;
}

/// Parses an uncompressed 24-bit BMP file (Windows BITMAPINFOHEADER, no palette) into
/// `(pixels, width, height)`: `pixels` holds the rows top to bottom without padding, each
/// pixel as red, green, blue.
pub fn parse_rgb_bmp(buffer: &[u8]) -> (res: Result<(Vec<u8>, usize, usize), &'static str>)
    requires
        buffer@.len() <= isize::MAX,
        bmp_header_error(buffer@) is None ==> bmp_sizes_fit(buffer@),
    ensures
        match res {
            Err(e) => match bmp_header_error(buffer@) {
                Some(msg) => e@ == msg,
                None => bmp_rows_missing(buffer@) && e@ == "no raw idx"@,
            },
            Ok((img, w, h)) => {
                &&& bmp_header_error(buffer@) is None
                &&& !bmp_rows_missing(buffer@)
                &&& w == bmp_width(buffer@)
                &&& h == bmp_height(buffer@)
                &&& img@.len() == 3 * w * h
                &&& forall|x: int, y: int, c: int|
                    0 <= x < w && 0 <= y < h && 0 <= c < 3 ==> #[trigger] img@[rgb_index(
                        w as int,
                        x,
                        y,
                        c,
                    )] == buffer@[bmp_source_index(buffer@, x, h - 1 - y, c)]
            },
        },
{
    let ghost buf = buffer@;
    if buffer.len() < 1 {
        return Err("no idx 0");
    }
    if buffer[0] != 0x42 {
        return Err("Error parsing header magic");
    }
    if buffer.len() < 2 {
        return Err("no idx 1");
    }
    if buffer[1] != 0x4D {
        return Err("Error parsing header magic");
    }
    let _file_size = match read_u32_le(buffer, 0x2) {
        Some(v) => v,
        None => return Err("no idx"),
    };
    let reserved_1_and_2 = match read_u32_le(buffer, 0x6) {
        Some(v) => v,
        None => return Err("no idx"),
    };
    if reserved_1_and_2 != 0 {
        return Err("reserved_1_and_2 are not 0");
    }
    let raw_data_start = match read_u32_le(buffer, 0x0A) {
        Some(v) => v as usize,
        None => return Err("no idx"),
    };
    if raw_data_start >= buffer.len() {
        return Err("raw_data_start is beyond the end of the bmp");
    }
    let second_header_size = match read_u32_le(buffer, 0x0E) {
        Some(v) => v,
        None => return Err("no idx"),
    };
    if second_header_size != 40 {
        return Err("bmp is not of type Windows BITMAPINFOHEADER");
    }
    let width = match read_u32_le(buffer, 0x12) {
        Some(v) => v as usize,
        None => return Err("no idx"),
    };
    let height = match read_u32_le(buffer, 0x16) {
        Some(v) => v as usize,
        None => return Err("no idx"),
    };
    let color_planes = match read_u16_le(buffer, 0x1A) {
        Some(v) => v,
        None => return Err("no idx"),
    };
    if color_planes != 1 {
        return Err("color_planes is not 1");
    }
    let bpp = match read_u16_le(buffer, 0x1C) {
        Some(v) => v,
        None => return Err("no idx"),
    };
    if bpp != 24 {
        return Err("bpp is not 24");
    }
    let compression = match read_u32_le(buffer, 0x1E) {
        Some(v) => v,
        None => return Err("no idx"),
    };
    if compression != 0 {
        return Err("compression is not 0");
    }
    let _raw_image_data_size = match read_u32_le(buffer, 0x22) {
        Some(v) => v,
        None => return Err("no idx"),
    };
    let _horiz_res = match read_u32_le(buffer, 0x26) {
        Some(v) => v,
        None => return Err("no idx"),
    };
    let _vert_res = match read_u32_le(buffer, 0x2A) {
        Some(v) => v,
        None => return Err("no idx"),
    };
    let num_colors_in_palette = match read_u32_le(buffer, 0x2E) {
        Some(v) => v,
        None => return Err("no idx"),
    };
    if num_colors_in_palette != 0 {
        return Err("num_colors_in_palette is not 0");
    }
    let num_important_colors = match read_u32_le(buffer, 0x32) {
        Some(v) => v,
        None => return Err("no idx"),
    };
    if num_important_colors != 0 {
        return Err("num_important_colors is not 0");
    }
    assert(bmp_header_error(buf) is None);

    let raw_len = buffer.len() - raw_data_start;
    let mut image_data: Vec<u8> = vec![0u8; width * height * 3];
    let pad_per_line = (4 - (width * 3) % 4) % 4;
    let row_size = width * 3;
    let padded_row_size = row_size + pad_per_line;
    let ghost w = width as int;
    let ghost h = height as int;
    assert(padded_row_size == w * 3 + row_padding(w));
    assert(3 * w * h == (w * h) * 3) by (nonlinear_arith);
    let mut y: usize = 0;
    while y < height
        invariant
            buf == buffer@,
            buf.len() <= isize::MAX,
            bmp_header_error(buf) is None,
            w == width,
            h == height,
            w == bmp_width(buf),
            h == bmp_height(buf),
            raw_data_start == bmp_data_start(buf),
            raw_data_start < buf.len(),
            raw_len == buf.len() - raw_data_start,
            row_size == w * 3,
            pad_per_line == row_padding(w),
            pad_per_line <= 3,
            padded_row_size == row_size + pad_per_line,
            image_data@.len() == 3 * w * h,
            3 * w * h <= usize::MAX,
            y <= h,
            y > 0 ==> padded_row_size * (y - 1) + row_size <= raw_len,
            forall|x: int, r: int, c: int|
                0 <= x < w && 0 <= r < y && 0 <= c < 3 ==> #[trigger] image_data@[rgb_index(
                    w,
                    x,
                    h - 1 - r,
                    c,
                )] == buf[bmp_source_index(buf, x, r, c)],
        decreases h - y,
    {
        assert(row_size * (h - y - 1) <= 3 * w * h) by (nonlinear_arith)
            requires
                row_size == w * 3,
                0 <= y < h,
                w >= 0,
        ;
        let out_row_start = row_size * (height - y - 1);
        assert(padded_row_size * y <= raw_len + 3) by (nonlinear_arith)
            requires
                y > 0 ==> padded_row_size * (y - 1) + row_size <= raw_len,
                padded_row_size == row_size + pad_per_line,
                pad_per_line <= 3,
                row_size >= 0,
                pad_per_line >= 0,
                y >= 0,
        ;
        let in_row_start = padded_row_size * y;
        if in_row_start > raw_len || row_size > raw_len - in_row_start {
            proof {
                assert(padded_row_size * y <= padded_row_size * (h - 1)) by (nonlinear_arith)
                    requires
                        0 <= y < h,
                        padded_row_size >= 0,
                ;
                assert(raw_data_start + padded_row_size * y + row_size > buf.len());
                assert(bmp_data_start(buf) + (w * 3 + row_padding(w)) * (h - 1) + w * 3 > buf.len());
                assert(bmp_rows_missing(buf));
            }
            return Err("no raw idx");
        }
        let ghost yo = h - 1 - y;
        proof {
            if w > 0 {
                lemma_rgb_index_bound(w, h, w - 1, yo, 2);
            }
            assert(out_row_start == (w * 3) * yo);
        }
        let mut x: usize = 0;
        while x < width
            invariant
                buf == buffer@,
                buf.len() <= isize::MAX,
                w == width,
                h == height,
                0 <= y < h,
                yo == h - 1 - y,
                raw_data_start == bmp_data_start(buf),
                w == bmp_width(buf),
                raw_data_start < buf.len(),
                raw_len == buf.len() - raw_data_start,
                row_size == w * 3,
                padded_row_size == w * 3 + row_padding(w),
                in_row_start == padded_row_size * y,
                in_row_start + row_size <= raw_len,
                out_row_start == (w * 3) * yo,
                image_data@.len() == 3 * w * h,
                3 * w * h <= usize::MAX,
                x <= w,
                forall|xx: int, r: int, c: int|
                    0 <= xx < w && 0 <= r < y && 0 <= c < 3 ==> #[trigger] image_data@[rgb_index(
                        w,
                        xx,
                        h - 1 - r,
                        c,
                    )] == buf[bmp_source_index(buf, xx, r, c)],
                forall|xx: int, c: int|
                    0 <= xx < x && 0 <= c < 3 ==> #[trigger] image_data@[rgb_index(w, xx, yo, c)]
                        == buf[bmp_source_index(buf, xx, y as int, c)],
            decreases w - x,
        {
            proof {
                lemma_rgb_index_bound(w, h, x as int, yo, 0);
                lemma_rgb_index_bound(w, h, x as int, yo, 2);
            }
            assert(3 * x + 2 < row_size);
            assert(raw_data_start + in_row_start + 3 * x + 2 < buf.len());
            let o = out_row_start + 3 * x;
            let i = raw_data_start + in_row_start + 3 * x;
            let ghost before = image_data@;
            image_data.set(o, buffer[i + 2]);
            image_data.set(o + 1, buffer[i + 1]);
            image_data.set(o + 2, buffer[i]);
            proof {
                assert forall|xx: int, r: int, c: int|
                    0 <= xx < w && 0 <= r < y && 0 <= c < 3 implies #[trigger] image_data@[rgb_index(
                        w,
                        xx,
                        h - 1 - r,
                        c,
                    )] == buf[bmp_source_index(buf, xx, r, c)] by {
                    lemma_rgb_index_rows_apart(w, x as int, yo, 0, xx, h - 1 - r, c);
                    lemma_rgb_index_rows_apart(w, x as int, yo, 2, xx, h - 1 - r, c);
                    lemma_rgb_index_bound(w, h, xx, h - 1 - r, c);
                    assert(rgb_index(w, x as int, yo, 0) == o);
                    assert(rgb_index(w, x as int, yo, 2) == o + 2);
                    assert(image_data@[rgb_index(w, xx, h - 1 - r, c)] == before[rgb_index(
                        w,
                        xx,
                        h - 1 - r,
                        c,
                    )]);
                }
                assert forall|xx: int, c: int|
                    0 <= xx < x + 1 && 0 <= c < 3 implies #[trigger] image_data@[rgb_index(
                        w,
                        xx,
                        yo,
                        c,
                    )] == buf[bmp_source_index(buf, xx, y as int, c)] by {
                    if xx < x {
                        assert(image_data@[rgb_index(w, xx, yo, c)] == before[rgb_index(
                            w,
                            xx,
                            yo,
                            c,
                        )]);
                    }
                }
            }
            x += 1;
        }
        y += 1;
    }
    proof {
        if h > 0 {
            assert(bmp_data_start(buf) + (w * 3 + row_padding(w)) * (h - 1) + w * 3 <= buf.len());
        }
        assert(!bmp_rows_missing(buf));
        assert forall|x: int, yy: int, c: int|
            0 <= x < w && 0 <= yy < h && 0 <= c < 3 implies #[trigger] image_data@[rgb_index(
                w,
                x,
                yy,
                c,
            )] == buf[bmp_source_index(buf, x, h - 1 - yy, c)] by {
            let r = h - 1 - yy;
            assert(image_data@[rgb_index(w, x, h - 1 - r, c)] == buf[bmp_source_index(buf, x, r, c)]);
        }
    }
    Ok((image_data, width, height))
}


/// Byte `k` (least significant first) of the low 32 bits of `v`.
pub open spec fn le_byte(v: int, k: int) -> u8 {
    if k == 0 {
        (v % 256) as u8
    } else if k == 1 {
        ((v / 256) % 256) as u8
    } else if k == 2 {
        ((v / 65536) % 256) as u8
    } else {
        ((v / 16777216) % 256) as u8
    }
}

/// Size of the file that `encode_rgb_bmp` produces for an image of `ww` by `hh` pixels.
pub open spec fn bmp_file_size(ww: int, hh: int) -> int {
    54 + 3 * ww * hh + row_padding(ww) * hh
}

/// The first thirty bytes of the two headers of a 24-bit BMP file of `ww` by `hh` pixels
/// whose total size is `file_size`; the remaining 24 header bytes are zero.
pub open spec fn bmp_header_start(file_size: int, ww: int, hh: int) -> Seq<u8> {
    seq![
        0x42u8, 0x4Du8, le_byte(file_size, 0), le_byte(file_size, 1), le_byte(file_size, 2),
        le_byte(file_size, 3), 0u8, 0u8, 0u8, 0u8, 54u8, 0u8, 0u8, 0u8, 40u8, 0u8, 0u8, 0u8,
        le_byte(ww, 0), le_byte(ww, 1), le_byte(ww, 2), le_byte(ww, 3), le_byte(hh, 0),
        le_byte(hh, 1), le_byte(hh, 2), le_byte(hh, 3), 1u8, 0u8, 24u8, 0u8,
    ]
}

/// The two headers of a 24-bit BMP file of `ww` by `hh` pixels whose total size is
/// `file_size`.
pub open spec fn bmp_headers(file_size: int, ww: int, hh: int) -> Seq<u8> {
    bmp_header_start(file_size, ww, hh) + Seq::new(24, |i: int| 0u8)
}

/// The first `k` stored rows of an image of `ww` by `hh` packed RGB pixels: rows are stored
/// bottom up, each followed by its padding zeros.
pub open spec fn bmp_rows(buffer: Seq<u8>, ww: int, hh: int, k: int) -> Seq<u8>
    decreases k,
{
    if k <= 0 {
        Seq::empty()
    } else {
        let i = hh - k;
        bmp_rows(buffer, ww, hh, k - 1) + buffer.subrange(i * ww * 3, (i + 1) * ww * 3) + Seq::new(
            row_padding(ww) as nat,
            |j: int| 0u8,
        )
    }
}

/// The bytes of the BMP file that holds the `ww` by `hh` packed RGB pixels of `buffer`.
pub open spec fn encoded_rgb_bmp(buffer: Seq<u8>, ww: int, hh: int) -> Seq<u8> {
    bmp_headers(bmp_file_size(ww, hh), ww, hh) + bmp_rows(buffer, ww, hh, hh)
}

/// The sizes that `encode_rgb_bmp` computes fit in a `usize`, and `buffer` holds every row
/// it copies.
pub open spec fn rgb_encodable(buffer: Seq<u8>, ww: int, hh: int) -> bool {
    &&& ww * 3 <= usize::MAX
    &&& bmp_file_size(ww, hh) <= usize::MAX
    &&& (hh > 0 ==> 3 * ww * hh <= buffer.len())
}

/// Appends the little-endian encoding of the low 32 bits of `v`.
fn push_le_u32(out: &mut Vec<u8>, v: usize)
    ensures
        final(out)@ == old(out)@ + seq![le_byte(v as int, 0), le_byte(v as int, 1), le_byte(v as int, 2), le_byte(v as int, 3)],
{
    out.push((v % 256) as u8);
    out.push(((v / 256) % 256) as u8);
    out.push(((v / 65536) % 256) as u8);
    out.push(((v / 16777216) % 256) as u8);
    assert(final(out)@ =~= old(out)@ + seq![le_byte(v as int, 0), le_byte(v as int, 1), le_byte(v as int, 2), le_byte(v as int, 3)]);
}

/// The bytes of a 24-bit BMP file holding the `ww` by `hh` image `buffer`, given as packed
/// rows top to bottom, each pixel as three bytes that are stored as they are.
pub fn encode_rgb_bmp(buffer: &[u8], ww: usize, hh: usize) -> (out: Vec<u8>)
    requires
        rgb_encodable(buffer@, ww as int, hh as int),
    ensures
        out@ == encoded_rgb_bmp(buffer@, ww as int, hh as int),
{
    let pad_per_line = (4 - (ww * 3) % 4) % 4;
    proof {
        assert(3 * ww * hh + pad_per_line * hh <= usize::MAX);
        assert(3 * ww * hh >= 0 && pad_per_line * hh >= 0) by (nonlinear_arith)
            requires
                pad_per_line >= 0,
                hh >= 0,
                ww >= 0,
        ;
        assert(3 * ww * hh == (3 * ww) * hh) by (nonlinear_arith);
    }
    let filesize = 54 + (3 * ww * hh) + pad_per_line * hh;
    let mut out: Vec<u8> = Vec::new();
    out.push(0x42);
    out.push(0x4D);
    push_le_u32(&mut out, filesize);
    out.push(0);
    out.push(0);
    out.push(0);
    out.push(0);
    out.push(54);
    out.push(0);
    out.push(0);
    out.push(0);
    out.push(40);
    out.push(0);
    out.push(0);
    out.push(0);
    push_le_u32(&mut out, ww);
    push_le_u32(&mut out, hh);
    out.push(1);
    out.push(0);
    out.push(24);
    out.push(0);
    let ghost start = out@;
    assert(start =~= bmp_header_start(filesize as int, ww as int, hh as int));
    let mut z: usize = 0;
    while z < 24
        invariant
            z <= 24,
            out@ == start + Seq::new(z as nat, |i: int| 0u8),
        decreases 24 - z,
    {
        out.push(0);
        z += 1;
        assert(out@ =~= start + Seq::new(z as nat, |i: int| 0u8));
    }
    let ghost headers = bmp_headers(filesize as int, ww as int, hh as int);
    assert(out@ =~= headers);

    let mut k: usize = 0;
    while k < hh
        invariant
            rgb_encodable(buffer@, ww as int, hh as int),
            pad_per_line == row_padding(ww as int),
            pad_per_line <= 3,
            k <= hh,
            out@ == headers + bmp_rows(buffer@, ww as int, hh as int, k as int),
        decreases hh - k,
    {
        let i = hh - 1 - k;
        proof {
            assert((i + 1) * ww * 3 <= 3 * ww * hh) by (nonlinear_arith)
                requires
                    0 <= i < hh,
                    ww >= 0,
            ;
            assert(i * ww * 3 <= (i + 1) * ww * 3) by (nonlinear_arith)
                requires
                    ww >= 0,
                    i >= 0,
            ;
        }
        let row_start = i * ww * 3;
        let row_end = (i + 1) * ww * 3;
        let ghost prefix = out@;
        let mut j = row_start;
        while j < row_end
            invariant
                row_start <= j <= row_end,
                row_end <= buffer@.len(),
                out@ == prefix + buffer@.subrange(row_start as int, j as int),
            decreases row_end - j,
        {
            out.push(buffer[j]);
            j += 1;
            assert(out@ =~= prefix + buffer@.subrange(row_start as int, j as int));
        }
        let ghost with_row = out@;
        let mut p: usize = 0;
        while p < pad_per_line
            invariant
                p <= pad_per_line,
                out@ == with_row + Seq::new(p as nat, |q: int| 0u8),
            decreases pad_per_line - p,
        {
            out.push(0);
            p += 1;
            assert(out@ =~= with_row + Seq::new(p as nat, |q: int| 0u8));
        }
        k += 1;
        proof {
            let rows = bmp_rows(buffer@, ww as int, hh as int, k as int);
            assert(rows == bmp_rows(buffer@, ww as int, hh as int, k - 1) + buffer@.subrange(
                row_start as int,
                row_end as int,
            ) + Seq::new(row_padding(ww as int) as nat, |q: int| 0u8));
            assert(out@ =~= headers + rows);
        }
    }
    assert(filesize == bmp_file_size(ww as int, hh as int));
    out
}


/// The first `n` pixels of an image of four bytes per pixel (blue, green, red, unused),
/// each reduced to its first three bytes.
pub open spec fn bgr_of_bgrx(buffer: Seq<u8>, n: int) -> Seq<u8> {
    Seq::new((3 * n) as nat, |j: int| buffer[4 * (j / 3) + j % 3])
}

/// Index in a file written by `encode_rgb_bmp` of byte `c` of pixel `(x, y)` of a `ww` by
/// `hh` image (`y` counted from the top; rows are stored bottom up, each padded).
pub open spec fn stored_index(ww: int, hh: int, x: int, y: int, c: int) -> int {
    BMP_HEADER_SIZE + (3 * ww + row_padding(ww)) * (hh - 1 - y) + 3 * x + c
}

/// The sizes that `encode_bgrx_bmp` computes fit in a `usize`, and `buffer` holds the
/// three colour bytes of every pixel.
pub open spec fn bgrx_encodable(buffer: Seq<u8>, ww: int, hh: int) -> bool {
    &&& ww * 3 <= usize::MAX
    &&& bmp_file_size(ww, hh) <= usize::MAX
    &&& (ww > 0 && hh > 0 ==> 4 * ww * hh - 1 <= buffer.len())
}

/// Drops the fourth byte of each of the first `n` pixels of four bytes.
fn bgrx_to_bgr(buffer: &[u8], n: usize) -> (out: Vec<u8>)
    requires
        n > 0 ==> 4 * n - 1 <= buffer@.len(),
    ensures
        out@ == bgr_of_bgrx(buffer@, n as int),
{
    let len = buffer.len();
    let mut out: Vec<u8> = Vec::new();
    let mut k: usize = 0;
    while k < n
        invariant
            k <= n,
            len == buffer@.len(),
            n > 0 ==> 4 * n - 1 <= buffer@.len(),
            out@ == bgr_of_bgrx(buffer@, k as int),
        decreases n - k,
    {
        out.push(buffer[4 * k]);
        out.push(buffer[4 * k + 1]);
        out.push(buffer[4 * k + 2]);
        k += 1;
        assert(out@ =~= bgr_of_bgrx(buffer@, k as int));
    }
    out
}

/// The BMP file of a `ww` by `hh` image of four bytes per pixel (blue, green, red,
/// unused), rows top to bottom: every pixel is stored as its first three bytes, which a
/// BMP reader takes as blue, green and red.
pub fn encode_bgrx_bmp(buffer: &[u8], ww: u32, hh: u32) -> (out: Vec<u8>)
    requires
        bgrx_encodable(buffer@, ww as int, hh as int),
    ensures
        out@ == encoded_rgb_bmp(bgr_of_bgrx(buffer@, ww * hh), ww as int, hh as int),
        forall|x: int, y: int, c: int|
            0 <= x < ww && 0 <= y < hh && 0 <= c < 3 ==> #[trigger] out@[stored_index(
                ww as int,
                hh as int,
                x,
                y,
                c,
            )] == buffer@[4 * (y * ww + x) + c],
{
    let w = ww as usize;
    let h = hh as usize;
    proof {
        assert(w * h <= 3 * w * h) by (nonlinear_arith)
            requires
                w * h >= 0,
        ;
        assert(w * h >= 0) by (nonlinear_arith);
        assert(3 * w * h >= 0) by (nonlinear_arith);
        assert(row_padding(w as int) * h >= 0) by (nonlinear_arith)
            requires
                row_padding(w as int) >= 0,
        ;
    }
    let n = w * h;
    proof {
        if n > 0 {
            assert(4 * n == 4 * w * h && w > 0 && h > 0) by (nonlinear_arith)
                requires
                    n == w * h,
                    n > 0,
                    w >= 0,
                    h >= 0,
            ;
        }
    }
    let bgr = bgrx_to_bgr(buffer, n);
    proof {
        assert(3 * w * h == 3 * n) by (nonlinear_arith)
            requires
                n == w * h,
        ;
    }
    let out = encode_rgb_bmp(&bgr, w, h);
    proof {
        let g = bgr@;
        if w > 0 && h > 0 {
            lemma_encode_parse_roundtrip(g, w as int, h as int);
            assert forall|x: int, y: int, c: int|
                0 <= x < ww && 0 <= y < hh && 0 <= c < 3 implies #[trigger] out@[stored_index(
                    ww as int,
                    hh as int,
                    x,
                    y,
                    c,
                )] == buffer@[4 * (y * ww + x) + c] by {
                assert(pixel_swapped(out@, g, w as int, h as int, x, y, 2 - c));
                let k = y * w + x;
                assert(rgb_index(w as int, x, y, c) == 3 * k + c) by (nonlinear_arith)
                    requires
                        k == y * w + x,
                ;
                assert(0 <= k < n) by (nonlinear_arith)
                    requires
                        k == y * w + x,
                        0 <= x < w,
                        0 <= y < h,
                        n == w * h,
                ;
                lemma_fundamental_div_mod_converse(3 * k + c, 3, k, c);
            }
        }
    }
    out
}

/// A grey image with every byte repeated three times: its pixels as red, green, blue.
pub open spec fn tripled(buffer: Seq<u8>) -> Seq<u8> {
    Seq::new(3 * buffer.len(), |j: int| buffer[j / 3])
}

/// The BMP file of a `ww` by `hh` grey image of one byte per pixel: the file that
/// `encode_rgb_bmp` writes for the image with every byte repeated three times.
pub fn encode_gray_bmp(buffer: &[u8], ww: usize, hh: usize) -> (out: Vec<u8>)
    requires
        3 * buffer@.len() <= usize::MAX,
        rgb_encodable(tripled(buffer@), ww as int, hh as int),
    ensures
        out@ == encoded_rgb_bmp(tripled(buffer@), ww as int, hh as int),
{
    let rgb = gray_to_rgb(buffer);
    encode_rgb_bmp(&rgb, ww, hh)
}

/// Writing a grey image with `encode_gray_bmp` and reading the file back with
/// `parse_rgb_bmp` gives the same width and height and every pixel as three bytes equal to
/// its grey level.
pub proof fn lemma_gray_encode_parse_roundtrip(g: Seq<u8>, ww: int, hh: int)
    requires
        0 < ww < 0x1_0000_0000,
        0 < hh < 0x1_0000_0000,
        g.len() == ww * hh,
        rgb_encodable(tripled(g), ww, hh),
    ensures
        ({
            let f = encoded_rgb_bmp(tripled(g), ww, hh);
            &&& bmp_header_error(f) is None
            &&& bmp_sizes_fit(f)
            &&& !bmp_rows_missing(f)
            &&& bmp_width(f) == ww
            &&& bmp_height(f) == hh
            &&& forall|x: int, y: int, c: int|
                0 <= x < ww && 0 <= y < hh && 0 <= c < 3 ==> #[trigger] f[bmp_source_index(
                    f,
                    x,
                    hh - 1 - y,
                    c,
                )] == g[y * ww + x]
        }),
{
    let t = tripled(g);
    let f = encoded_rgb_bmp(t, ww, hh);
    lemma_encode_parse_roundtrip(t, ww, hh);
    assert forall|x: int, y: int, c: int|
        0 <= x < ww && 0 <= y < hh && 0 <= c < 3 implies #[trigger] f[bmp_source_index(
            f,
            x,
            hh - 1 - y,
            c,
        )] == g[y * ww + x] by {
        assert(pixel_swapped(f, t, ww, hh, x, y, c));
        let k = y * ww + x;
        assert(rgb_index(ww, x, y, 2 - c) == 3 * k + (2 - c)) by (nonlinear_arith)
            requires
                k == y * ww + x,
        ;
        assert(0 <= k < ww * hh) by (nonlinear_arith)
            requires
                k == y * ww + x,
                0 <= x < ww,
                0 <= y < hh,
        ;
        lemma_fundamental_div_mod_converse(3 * k + (2 - c), 3, k, 2 - c);
    }
}

/// Expands a one-byte-per-pixel grey image to three equal bytes per pixel.
pub fn gray_to_rgb(buffer: &[u8]) -> (rgb: Vec<u8>)
    requires
        3 * buffer@.len() <= usize::MAX,
    ensures
        rgb@ == tripled(buffer@),
{
    let mut rgb: Vec<u8> = Vec::new();
    let mut i: usize = 0;
    while i < buffer.len()
        invariant
            i <= buffer@.len(),
            3 * buffer@.len() <= usize::MAX,
            rgb@ == Seq::new(3 * i as nat, |j: int| buffer@[j / 3]),
        decreases buffer@.len() - i,
    {
        let x = buffer[i];
        rgb.push(x);
        rgb.push(x);
        rgb.push(x);
        i += 1;
        assert(rgb@ =~= Seq::new(3 * i as nat, |j: int| buffer@[j / 3]));
    }
    rgb
}


/// Whether `parse_rgb_bmp` accepts the header of `buffer` (see `bmp_header_error`).
fn bmp_header_ok(buffer: &[u8]) -> (ok: bool)
    ensures
        ok == (bmp_header_error(buffer@) is None),
{
    if buffer.len() < 0x36 || buffer[0] != 0x42 || buffer[1] != 0x4D {
        return false;
    }
    let (reserved, start, header_size, planes, bpp, compression, colors, important) = match (
        read_u32_le(buffer, 0x06),
        read_u32_le(buffer, 0x0A),
        read_u32_le(buffer, 0x0E),
        read_u16_le(buffer, 0x1A),
        read_u16_le(buffer, 0x1C),
        read_u32_le(buffer, 0x1E),
        read_u32_le(buffer, 0x2E),
        read_u32_le(buffer, 0x32),
    ) {
        (Some(a), Some(b), Some(c), Some(d), Some(e), Some(f), Some(g), Some(h)) => (a, b, c, d, e, f, g, h),
        _ => {
            return false;
        },
    };
    reserved == 0 && (start as usize) < buffer.len() && header_size == 40 && planes == 1 && bpp == 24
        && compression == 0 && colors == 0 && important == 0
}

/// Whether `parse_rgb_bmp` may be given `buffer`: a header it rejects, or one whose sizes
/// fit in a `usize`.
pub fn bmp_sizes_in_range(buffer: &[u8]) -> (ok: bool)
    ensures
        ok == (bmp_header_error(buffer@) is None ==> bmp_sizes_fit(buffer@)),
{
    if !bmp_header_ok(buffer) {
        return true;
    }
    let (width, height) = match (read_u32_le(buffer, 0x12), read_u32_le(buffer, 0x16)) {
        (Some(w), Some(h)) => (w as usize, h as usize),
        _ => {
            return true;
        },
    };
    let row = match width.checked_mul(3) {
        Some(r) => r,
        None => {
            return false;
        },
    };
    let padded_ok = row.checked_add((4 - row % 4) % 4).is_some();
    let area_ok = match width.checked_mul(height) {
        Some(a) => a.checked_mul(3).is_some(),
        None => {
            proof {
                assert(width * height * 3 >= width * height) by (nonlinear_arith)
                    requires
                        width * height >= 0,
                ;
            }
            false
        },
    };
    padded_ok && area_ok
}


proof fn lemma_le_bytes_value(v: int)
    requires
        0 <= v < 0x1_0000_0000,
    ensures
        le_byte(v, 0) + 256 * le_byte(v, 1) + 65536 * le_byte(v, 2) + 16777216 * le_byte(v, 3) == v,
{
    lemma_fundamental_div_mod(v, 256);
    lemma_fundamental_div_mod(v / 256, 256);
    lemma_div_denominator(v, 256, 256);
    lemma_fundamental_div_mod(v / 65536, 256);
    lemma_div_denominator(v, 65536, 256);
    assert(v / 16777216 < 256) by {
        vstd::arithmetic::div_mod::lemma_div_by_multiple_is_strongly_ordered(v, 0x1_0000_0000, 256, 16777216);
    }
    lemma_small_mod((v / 16777216) as nat, 256);
}

proof fn lemma_bmp_rows(buffer: Seq<u8>, ww: int, hh: int, kk: int)
    requires
        ww >= 0,
        0 <= kk <= hh,
        3 * ww * hh <= buffer.len(),
    ensures
        bmp_rows(buffer, ww, hh, kk).len() == (3 * ww + row_padding(ww)) * kk,
        forall|k: int, j: int|
            0 <= k < kk && 0 <= j < 3 * ww ==> #[trigger] bmp_rows(buffer, ww, hh, kk)[(3 * ww
                + row_padding(ww)) * k + j] == buffer[(hh - 1 - k) * (3 * ww) + j],
    decreases kk,
{
    let p = 3 * ww + row_padding(ww);
    if kk == 0 {
        assert(p * 0 == 0) by (nonlinear_arith);
    } else {
        lemma_bmp_rows(buffer, ww, hh, kk - 1);
        let i = hh - kk;
        assert(i * ww * 3 == i * (3 * ww) && (i + 1) * ww * 3 == i * (3 * ww) + 3 * ww) by (nonlinear_arith);
        assert(0 <= i * (3 * ww)) by (nonlinear_arith)
            requires
                i >= 0,
                ww >= 0,
        ;
        assert(i * (3 * ww) + 3 * ww <= 3 * ww * hh) by (nonlinear_arith)
            requires
                0 <= i < hh,
                ww >= 0,
        ;
        let prev = bmp_rows(buffer, ww, hh, kk - 1);
        let row = buffer.subrange(i * ww * 3, (i + 1) * ww * 3);
        assert(p * (kk - 1) + p == p * kk) by (nonlinear_arith);
        assert forall|k: int, j: int|
            0 <= k < kk && 0 <= j < 3 * ww implies #[trigger] bmp_rows(buffer, ww, hh, kk)[p * k + j]
                == buffer[(hh - 1 - k) * (3 * ww) + j] by {
            if k < kk - 1 {
                assert(p * k + j < p * (kk - 1)) by (nonlinear_arith)
                    requires
                        0 <= k < kk - 1,
                        0 <= j < 3 * ww,
                        p >= 3 * ww,
                ;
                assert(0 <= p * k) by (nonlinear_arith)
                    requires
                        0 <= k,
                        p >= 0,
                ;
            } else {
                assert(k == kk - 1);
                assert(hh - 1 - k == i);
            }
        }
    }
}

/// The byte that `parse_rgb_bmp` takes from file `f` for channel `c` of pixel `(x, y)` is
/// channel `2 - c` of that pixel of the `ww` by `hh` image `buffer`.
pub open spec fn pixel_swapped(f: Seq<u8>, buffer: Seq<u8>, ww: int, hh: int, x: int, y: int, c: int) -> bool {
    f[bmp_source_index(f, x, hh - 1 - y, c)] == buffer[rgb_index(ww, x, y, 2 - c)]
}

/// Writing an image with `encode_rgb_bmp` and reading the bytes back with `parse_rgb_bmp`
/// gives the same width, height and pixels, with the first and third channel of every
/// pixel exchanged (the writer stores the channels as given, the reader takes the stored
/// order as blue, green, red).
pub proof fn lemma_encode_parse_roundtrip(buffer: Seq<u8>, ww: int, hh: int)
    requires
        0 < ww < 0x1_0000_0000,
        0 < hh < 0x1_0000_0000,
        rgb_encodable(buffer, ww, hh),
    ensures
        ({
            let f = encoded_rgb_bmp(buffer, ww, hh);
            &&& f.len() == bmp_file_size(ww, hh)
            &&& bmp_header_error(f) is None
            &&& bmp_sizes_fit(f)
            &&& !bmp_rows_missing(f)
            &&& bmp_width(f) == ww
            &&& bmp_height(f) == hh
            &&& forall|x: int, y: int, c: int|
                0 <= x < ww && 0 <= y < hh && 0 <= c < 3 ==> #[trigger] pixel_swapped(f, buffer, ww, hh, x, y, c)
        }),
{
    let fs = bmp_file_size(ww, hh);
    let p = 3 * ww + row_padding(ww);
    let head = bmp_headers(fs, ww, hh);
    let rows = bmp_rows(buffer, ww, hh, hh);
    let f = encoded_rgb_bmp(buffer, ww, hh);
    lemma_bmp_rows(buffer, ww, hh, hh);
    assert(head.len() == 54);
    assert(3 * ww * hh + row_padding(ww) * hh == p * hh) by (nonlinear_arith)
        requires
            p == 3 * ww + row_padding(ww),
    ;
    assert(f.len() == fs);
    assert forall|i: int| 0 <= i < 54 implies #[trigger] f[i] == head[i] by {}
    assert forall|i: int| 0 <= i < p * hh implies #[trigger] f[54 + i] == rows[i] by {}
    lemma_le_bytes_value(ww);
    lemma_le_bytes_value(hh);
    assert(f[0] == 0x42 && f[1] == 0x4D);
    assert(le_u32_at(f, 0x06) == 0);
    assert(bmp_data_start(f) == 54);
    assert(p >= 3) by (nonlinear_arith)
        requires
            p == 3 * ww + row_padding(ww),
            ww >= 1,
            row_padding(ww) >= 0,
    ;
    assert(p * hh >= p) by (nonlinear_arith)
        requires
            p >= 0,
            hh >= 1,
    ;
    assert(le_u32_at(f, 0x0E) == 40);
    assert(bmp_width(f) == ww);
    assert(bmp_height(f) == hh);
    assert(le_u16_at(f, 0x1A) == 1);
    assert(le_u16_at(f, 0x1C) == 24);
    assert(le_u32_at(f, 0x1E) == 0);
    assert(le_u32_at(f, 0x2E) == 0);
    assert(le_u32_at(f, 0x32) == 0);
    assert(bmp_header_error(f) is None);
    assert(p * (hh - 1) + 3 * ww <= p * hh) by (nonlinear_arith)
        requires
            p >= 3 * ww,
            hh >= 1,
    ;
    assert(!bmp_rows_missing(f));
    assert(3 * ww + row_padding(ww) <= 3 * ww * hh + row_padding(ww) * hh) by (nonlinear_arith)
        requires
            hh >= 1,
            ww >= 0,
            row_padding(ww) >= 0,
    ;
    assert(ww * hh * 3 == 3 * ww * hh) by (nonlinear_arith);
    assert(bmp_sizes_fit(f));
    assert forall|x: int, y: int, c: int|
        0 <= x < ww && 0 <= y < hh && 0 <= c < 3 implies #[trigger] pixel_swapped(f, buffer, ww, hh, x, y, c) by {
        let k = hh - 1 - y;
        let j = 3 * x + (2 - c);
        assert(bmp_source_index(f, x, k, c) == 54 + (p * k + j));
        assert(p * k + j < p * hh) by (nonlinear_arith)
            requires
                0 <= k < hh,
                0 <= j < 3 * ww,
                p >= 3 * ww,
        ;
        assert(0 <= p * k) by (nonlinear_arith)
            requires
                0 <= k,
                p >= 0,
        ;
        assert(rows[p * k + j] == buffer[(hh - 1 - k) * (3 * ww) + j]);
        assert((hh - 1 - k) * (3 * ww) + j == rgb_index(ww, x, y, 2 - c)) by (nonlinear_arith)
            requires
                hh - 1 - k == y,
                j == 3 * x + (2 - c),
        ;
    }
}

} // verus!
