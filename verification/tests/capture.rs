use nickracker::capture::{fits_screenshot_buffer, is_game_window, is_on_screen, strip_alpha_rows};
use nickracker::vault::is_vault_title;

#[test]
fn packs_captured_pixels_as_red_green_blue() {
    // two pixels per row, rows 12 bytes apart, a trailing partial row
    let data: Vec<u8> = (0u8..25).collect();
    let out = strip_alpha_rows(&data, 12, 2);
    assert_eq!(out, vec![2, 1, 0, 6, 5, 4, 14, 13, 12, 18, 17, 16]);
    assert!(strip_alpha_rows(&data[..11], 12, 2).is_empty());
}

#[test]
fn recognises_the_game_window() {
    assert!(is_game_window("Project Gorgon", "UnityWndClass"));
    assert!(!is_game_window("Project Gorgon", "Notepad"));
    assert!(!is_game_window("Project Gorgon ", "UnityWndClass"));
    assert!(!is_game_window("", ""));
}

#[test]
fn recognises_the_vault_title() {
    assert!(is_vault_title("Minotaur Lock"));
    assert!(!is_vault_title("Minotaur Lockx"));
    assert!(!is_vault_title("minotaur lock"));
    assert!(!is_vault_title(""));
}

#[test]
fn screenshot_fallback_skips_large_and_hidden_windows() {
    assert!(fits_screenshot_buffer(512, 512));
    assert!(!fits_screenshot_buffer(513, 512));
    assert!(fits_screenshot_buffer(0, 0));
    assert!(is_on_screen(-10000));
    assert!(is_on_screen(100));
    assert!(!is_on_screen(-32000));
}
