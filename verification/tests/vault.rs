use nickracker::vault::{
    best_matches_by_x, cast_line_downwards, extract_gray_fragment, guess_rects,
    guess_symbols_in_order, invert_bytes, parse_guess, prune_close_matches, results_area_bottom,
    sort_positions_by_row, title_area_in_reach, window_title_area, AnalyzedMinotaurVault,
};

#[test]
fn reads_guess_results() {
    assert_eq!(parse_guess("1,2"), Some((1, 2)));
    assert_eq!(parse_guess("12"), Some((1, 2)));
    assert_eq!(parse_guess("0,4"), Some((0, 4)));
    assert_eq!(parse_guess("5,1"), None);
    assert_eq!(parse_guess("1,7"), None);
    assert_eq!(parse_guess("a,1"), None);
    assert_eq!(parse_guess("1"), None);
    assert_eq!(parse_guess("1,"), None);
    assert_eq!(parse_guess("1,x"), None);
    assert_eq!(parse_guess(""), None);
}

#[test]
fn pruning_keeps_the_best_match_per_slot() {
    let matches = vec![(100, 3), (105, 4), (100, 5), (140, 6), (130, 7), (170, 8)];
    assert_eq!(prune_close_matches(matches.clone()), vec![(100, 3), (100, 5), (140, 6), (170, 8)]);
    let chosen = best_matches_by_x(vec![(170, 8), (100, 3), (105, 4), (140, 6), (20, 1)]).unwrap();
    assert_eq!(chosen, vec![(20, 1), (100, 3), (140, 6), (170, 8)]);
    assert_eq!(best_matches_by_x(vec![(100, 1), (101, 2), (102, 3), (103, 4), (104, 5)]), None);
    assert_eq!(best_matches_by_x(vec![(9, 1), (3, 2)]), Some(vec![(3, 2), (9, 1)]));
    assert_eq!(guess_symbols_in_order(&chosen), [1, 3, 6, 8]);
}

#[test]
fn positions_sort_by_row_then_column() {
    let sorted = sort_positions_by_row(vec![(5, 2), (1, 9), (3, 2), (0, 0)]);
    assert_eq!(sorted, vec![(0, 0), (3, 2), (5, 2), (1, 9)]);
}

#[test]
fn fragments_are_copied_row_by_row() {
    let gray: Vec<u8> = (0..20).collect();
    assert_eq!(extract_gray_fragment(&gray, 5, 1, 2, 3, 2), vec![11, 12, 13, 16, 17, 18]);
}

#[test]
fn inverts_every_byte() {
    let mut b = vec![0u8, 10, 255];
    invert_bytes(&mut b);
    assert_eq!(b, vec![255, 245, 0]);
}

#[test]
fn finds_bottom_of_the_white_panel() {
    let w = 4;
    let window_x = 10;
    let mut gray = vec![0u8; (w + 30) * 400];
    let sw = w + 30;
    // column 10: white from row 330 to 339
    for y in 330..340 {
        gray[window_x + y * sw] = 0x91;
    }
    assert_eq!(cast_line_downwards(&gray, sw, window_x, 0, 0), 340 + 15);
    // column 30 never shows white: default height
    assert_eq!(cast_line_downwards(&gray, sw, window_x, 0, 20), 320 + 15);
    // leaving the screenshot gives 0
    assert_eq!(cast_line_downwards(&gray, sw, window_x, 100, 0), 0);
    assert_eq!(results_area_bottom(&gray, sw, window_x, 0), 355);
}

#[test]
fn finds_the_title_area_left_of_the_close_button() {
    let sw = 100;
    let mut ss = vec![200u8; sw * 80 * 3];
    let set = |ss: &mut Vec<u8>, x: usize, y: usize, c: [u8; 3]| {
        ss[(x + y * sw) * 3..(x + y * sw) * 3 + 3].copy_from_slice(&c);
    };
    // top border row 5, from x = 40 to x = 90, colour 0x191011
    for x in 40..=90 {
        set(&mut ss, x, 5, [0x19, 0x10, 0x11]);
    }
    let area = window_title_area((90, 10), &ss, sw).unwrap();
    assert_eq!((area.left, area.right, area.top), (39 + 8, 90 - 16, 5 + 3));
    assert_eq!(area.height, 31);
    assert_eq!(area.width, 74 - 47);
    assert_eq!(area.fragment.len(), area.width * area.height * 3);
    assert!(area.fragment.iter().all(|&b| b == 55));
    // a button too close to the left edge leaves no room
    let mut narrow = vec![200u8; sw * 80 * 3];
    for x in 0..=20 {
        set(&mut narrow, x, 5, [0x19, 0x10, 0x11]);
    }
    assert!(window_title_area((20, 10), &narrow, sw).is_none());
}

#[test]
fn result_lists_stop_at_the_first_empty_slot() {
    let mut v = AnalyzedMinotaurVault::empty();
    assert_eq!(v.selected_iter(), Vec::<usize>::new());
    v.record_selected(&vec![(3, 4), (9, 7)]);
    assert_eq!(v.selected_symbols(), [Some(4), Some(7), None, None]);
    assert_eq!(v.selected_iter(), vec![4, 7]);
    v.record_guess(0, ([0, 0, 1, 2], 1, 0));
    v.record_guess(2, ([3, 3, 4, 4], 0, 2));
    assert_eq!(v.guesses_iter(), vec![([0, 0, 1, 2], 1, 0)]);
    let mut guesses = [None; 11];
    guesses[0] = Some(([0, 0, 1, 2], 1, 0));
    guesses[2] = Some(([3, 3, 4, 4], 0, 2));
    assert_eq!(v, AnalyzedMinotaurVault::from_parts([Some(4), Some(7), None, None], guesses));
    assert_eq!(v.made_guesses(), guesses);
}

#[test]
fn guess_rectangles_surround_the_comma() {
    let r = guess_rects((200, 40), 500, 100);
    assert_eq!((r.text_x, r.text_y, r.text_w, r.text_h), (692, 378, 30, 20));
    assert_eq!((r.box_x, r.box_y, r.box_w, r.box_h), (562, 368, 160, 45));
}

#[test]
fn title_area_reach_covers_the_pixels_read() {
    let sw = 100;
    let mut ss = vec![200u8; sw * 80 * 3];
    for x in 40..=90 {
        ss[(x + 5 * sw) * 3..(x + 5 * sw) * 3 + 3].copy_from_slice(&[0x19, 0x10, 0x11]);
    }
    assert!(title_area_in_reach((90, 10), &ss, sw));
    // the close button itself lies outside the screenshot
    assert!(!title_area_in_reach((90, 80), &ss, sw));
    // the text area would reach below the last row
    let short = ss[..sw * 20 * 3].to_vec();
    assert!(!title_area_in_reach((90, 10), &short, sw));
    // no border at all: the bar ends at the button and leaves no room for text
    let plain = vec![200u8; sw * 3 * 2];
    assert!(title_area_in_reach((50, 1), &plain, sw));
    assert!(window_title_area((50, 1), &plain, sw).is_none());
    // a button closer than 16 pixels to the left edge
    assert!(!title_area_in_reach((5, 1), &plain, sw));
}
