use walls::palette::{hex_to_rgb, nearest, PALETTE};

#[test]
fn maps_exact_matches() {
    assert_eq!(nearest("#66cccc"), Some("66cccc"));
    assert_eq!(nearest("000000"), Some("000000"));
}

#[test]
fn maps_theme_colors_to_sensible_entries() {
    // gruvbox accent (#7daea3) is heavily desaturated - it lands on the
    // gray family even though it reads as teal, and that is the honest
    // nearest match under a perceptual distance.
    assert_eq!(nearest("#7daea3"), Some("999999"));
    // a clearly saturated teal maps where you would expect
    assert_eq!(nearest("#40b3a8"), Some("66cccc"));
    // warm orange (#e1875c) lands on the brown/orange family
    assert_eq!(nearest("#e1875c"), Some("cc6633"));
    // near-black background
    assert_eq!(nearest("#282828"), Some("000000"));
}

#[test]
fn rejects_invalid_input() {
    assert_eq!(nearest(""), None);
    assert_eq!(nearest("#12345"), None);
    assert_eq!(nearest("zzzzzz"), None);
}

#[test]
fn every_palette_entry_maps_onto_itself() {
    for (hex, _) in PALETTE.iter() {
        assert_eq!(nearest(hex), Some(*hex));
    }
}

#[test]
fn grays_snap_to_the_gray_of_nearest_luma() {
    assert_eq!(nearest("3f3f3f"), Some("000000"));
    assert_eq!(nearest("4c4c4c"), Some("000000"));
    assert_eq!(nearest("4d4d4d"), Some("999999"));
    assert_eq!(nearest("999999"), Some("999999"));
    assert_eq!(nearest("b2b2b2"), Some("999999"));
    assert_eq!(nearest("b3b3b3"), Some("cccccc"));
    assert_eq!(nearest("cccccc"), Some("cccccc"));
    assert_eq!(nearest("e5e5e5"), Some("cccccc"));
    assert_eq!(nearest("e6e6e6"), Some("ffffff"));
    assert_eq!(nearest("7f8080"), Some("999999"));
}

#[test]
fn mapping_twice_changes_nothing() {
    for hex in ["#7daea3", "#40b3a8", "#e1875c", "#282828", "abcdef", "123456", "fedcba"] {
        let m = nearest(hex).unwrap();
        assert_eq!(nearest(m), Some(m));
    }
}

#[test]
fn hex_reading_accepts_case_spaces_and_hashes() {
    assert_eq!(hex_to_rgb("  ##FFa500 "), Some((255, 165, 0)));
    assert_eq!(hex_to_rgb("ffa50"), None);
    assert_eq!(hex_to_rgb("ffa5000"), None);
    assert_eq!(hex_to_rgb("ffé500"), None);
}
