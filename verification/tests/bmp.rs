use nickracker::bmp::{
    bmp_sizes_in_range, encode_bgrx_bmp, encode_gray_bmp, encode_rgb_bmp, gray_to_rgb,
    parse_rgb_bmp,
};

fn header(width: u32, height: u32, data_start: u32) -> Vec<u8> {
    let mut h = vec![0x42u8, 0x4D];
    h.extend_from_slice(&0u32.to_le_bytes());
    h.extend_from_slice(&0u32.to_le_bytes());
    h.extend_from_slice(&data_start.to_le_bytes());
    h.extend_from_slice(&40u32.to_le_bytes());
    h.extend_from_slice(&width.to_le_bytes());
    h.extend_from_slice(&height.to_le_bytes());
    h.extend_from_slice(&1u16.to_le_bytes());
    h.extend_from_slice(&24u16.to_le_bytes());
    h.extend_from_slice(&[0u8; 24]);
    h
}

#[test]
fn parses_a_two_by_two_image() {
    let mut f = header(2, 2, 54);
    // bottom row (y = 1): blue, green, red per pixel, then two padding bytes
    f.extend_from_slice(&[1, 2, 3, 4, 5, 6, 0, 0]);
    // top row (y = 0)
    f.extend_from_slice(&[7, 8, 9, 10, 11, 12, 0, 0]);
    let (img, w, h) = parse_rgb_bmp(&f).unwrap();
    assert_eq!((w, h), (2, 2));
    assert_eq!(img, vec![9, 8, 7, 12, 11, 10, 3, 2, 1, 6, 5, 4]);
}

#[test]
fn parse_reports_each_header_problem() {
    assert_eq!(parse_rgb_bmp(&[]), Err("no idx 0"));
    assert_eq!(parse_rgb_bmp(&[0x41]), Err("Error parsing header magic"));
    assert_eq!(parse_rgb_bmp(&[0x42]), Err("no idx 1"));
    assert_eq!(parse_rgb_bmp(&[0x42, 0x4C]), Err("Error parsing header magic"));
    assert_eq!(parse_rgb_bmp(&[0x42, 0x4D, 0, 0, 0]), Err("no idx"));
    let good = {
        let mut f = header(1, 1, 54);
        f.extend_from_slice(&[1, 2, 3, 0]);
        f
    };
    assert!(parse_rgb_bmp(&good).is_ok());
    let with = |at: usize, bytes: &[u8]| {
        let mut f = good.clone();
        f[at..at + bytes.len()].copy_from_slice(bytes);
        f
    };
    assert_eq!(parse_rgb_bmp(&with(6, &[1])), Err("reserved_1_and_2 are not 0"));
    assert_eq!(
        parse_rgb_bmp(&with(0x0A, &[58])),
        Err("raw_data_start is beyond the end of the bmp")
    );
    assert_eq!(
        parse_rgb_bmp(&with(0x0E, &[12])),
        Err("bmp is not of type Windows BITMAPINFOHEADER")
    );
    assert_eq!(parse_rgb_bmp(&with(0x1A, &[2])), Err("color_planes is not 1"));
    assert_eq!(parse_rgb_bmp(&with(0x1C, &[32])), Err("bpp is not 24"));
    assert_eq!(parse_rgb_bmp(&with(0x1E, &[1])), Err("compression is not 0"));
    assert_eq!(parse_rgb_bmp(&with(0x2E, &[1])), Err("num_colors_in_palette is not 0"));
    assert_eq!(parse_rgb_bmp(&with(0x32, &[1])), Err("num_important_colors is not 0"));
    assert_eq!(
        parse_rgb_bmp(&good[..0x30]),
        Err("raw_data_start is beyond the end of the bmp")
    );
    assert_eq!(parse_rgb_bmp(&with(0x0A, &[0x20])[..0x30]), Err("no idx"));
    assert_eq!(parse_rgb_bmp(&with(0x16, &[2])), Err("no raw idx"));
}

#[test]
fn encodes_headers_and_padded_rows() {
    let img = [1u8, 2, 3];
    let f = encode_rgb_bmp(&img, 1, 1);
    assert_eq!(f.len(), 58);
    assert_eq!(&f[0..2], &[0x42, 0x4D]);
    assert_eq!(&f[2..6], &58u32.to_le_bytes());
    assert_eq!(&f[10..14], &54u32.to_le_bytes());
    assert_eq!(&f[14..18], &40u32.to_le_bytes());
    assert_eq!(&f[18..22], &1u32.to_le_bytes());
    assert_eq!(&f[22..26], &1u32.to_le_bytes());
    assert_eq!(&f[26..30], &[1, 0, 24, 0]);
    assert!(f[30..54].iter().all(|&b| b == 0));
    assert_eq!(&f[54..], &[1, 2, 3, 0]);
}

#[test]
fn encode_then_parse_swaps_first_and_third_channel() {
    let (w, h) = (3usize, 2usize);
    let img: Vec<u8> = (0..(w * h * 3) as u8).collect();
    let f = encode_rgb_bmp(&img, w, h);
    let (back, bw, bh) = parse_rgb_bmp(&f).unwrap();
    assert_eq!((bw, bh), (w, h));
    for p in 0..w * h {
        assert_eq!(back[3 * p], img[3 * p + 2]);
        assert_eq!(back[3 * p + 1], img[3 * p + 1]);
        assert_eq!(back[3 * p + 2], img[3 * p]);
    }
}

#[test]
fn bgrx_image_is_saved_with_its_own_pixels() {
    // one pixel: blue 1, green 2, red 3
    let out = encode_bgrx_bmp(&[1u8, 2, 3, 99], 1, 1);
    assert_eq!(out.len(), 54 + 4);
    assert_eq!(&out[54..], &[1, 2, 3, 0]);
    assert_eq!(parse_rgb_bmp(&out), Ok((vec![3, 2, 1], 1, 1)));
    // two rows: stored bottom up
    let out = encode_bgrx_bmp(&[1u8, 2, 3, 99, 4, 5, 6, 99], 1, 2);
    assert_eq!(&out[54..], &[4, 5, 6, 0, 1, 2, 3, 0]);
    assert_eq!(parse_rgb_bmp(&out), Ok((vec![3, 2, 1, 6, 5, 4], 1, 2)));
}

#[test]
fn gray_image_reads_back_as_equal_channels() {
    let g = [10u8, 20, 30, 40, 50, 60];
    let out = encode_gray_bmp(&g, 3, 2);
    assert_eq!(out, encode_rgb_bmp(&gray_to_rgb(&g), 3, 2));
    assert_eq!(
        parse_rgb_bmp(&out),
        Ok((vec![10, 10, 10, 20, 20, 20, 30, 30, 30, 40, 40, 40, 50, 50, 50, 60, 60, 60], 3, 2))
    );
}

#[test]
fn gray_pixels_become_three_equal_bytes() {
    assert_eq!(gray_to_rgb(&[5, 200]), vec![5, 5, 5, 200, 200, 200]);
    assert_eq!(gray_to_rgb(&[]), Vec::<u8>::new());
}

#[test]
fn size_check_accepts_headers_it_does_not_parse() {
    assert!(bmp_sizes_in_range(&[]));
    assert!(bmp_sizes_in_range(&header(2, 2, 54)));
    let mut bad_magic = header(u32::MAX, u32::MAX, 54);
    bad_magic[0] = b'X';
    assert!(bmp_sizes_in_range(&bad_magic));
    let mut huge = header(u32::MAX, u32::MAX, 54);
    huge.extend_from_slice(&[0u8; 8]);
    assert!(!bmp_sizes_in_range(&huge));
}
