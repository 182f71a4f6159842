use walls::theme::{colors_path_candidates_for, parse_colors, state_colors_path, theme_colors, theme_name_or, CURATED_KEYS};

const SAMPLE: &str = r##"
mode = "dark"

accent = "#7daea3"
selection = "#504945"
background = "#282828"

red = "#ea6962"
yellow = "#d8a657"
green = "#a9b665"
cyan = "#89b482"
blue = "#7daea3"

# a comment with #deadbe inside should be ignored
bad = "nothex"
short = "#fff"
"##;

#[test]
fn parses_flat_hex_pairs() {
    let colors = parse_colors(SAMPLE);
    assert!(colors.contains(&("accent".into(), "7daea3".into())));
    assert!(colors.contains(&("background".into(), "282828".into())));
    // non-hex values are skipped entirely
    assert!(!colors.iter().any(|(k, _)| k == "mode"));
    assert!(!colors.iter().any(|(k, _)| k == "bad"));
    assert!(!colors.iter().any(|(k, _)| k == "short"));
}

#[test]
fn curated_output_follows_key_order() {
    let parsed = parse_colors(SAMPLE);
    let mut ordered = Vec::new();
    for key in CURATED_KEYS.iter() {
        if let Some((_, hex)) = parsed.iter().find(|(k, _)| k == key) {
            ordered.push((*key, hex.clone()));
        }
    }
    assert_eq!(
        ordered.iter().map(|(k, _)| *k).collect::<Vec<_>>(),
        vec!["accent", "red", "yellow", "green", "cyan", "blue"]
    );
}

#[test]
fn missing_theme_file_yields_empty_list() {
    assert!(parse_colors("").is_empty());
}

#[test]
fn parse_colors_keeps_file_order_and_lowercases() {
    let parsed = parse_colors("A = \"#ABCDEF\"\r\n  b=123456\n c = '#000000'\n=\"#111111\"\nd = \"\"#a1b2c3\"\"");
    assert_eq!(
        parsed,
        vec![
            ("A".to_string(), "abcdef".to_string()),
            ("b".to_string(), "123456".to_string()),
            ("".to_string(), "111111".to_string()),
            ("d".to_string(), "a1b2c3".to_string()),
        ]
    );
}

#[test]
fn theme_colors_dedupes_palette_matches() {
    let colors = theme_colors(&parse_colors(SAMPLE)).colors;
    let rows: Vec<(&str, &str, &str)> =
        colors.iter().map(|c| (c.name.as_str(), c.hex.as_str(), c.matched.as_str())).collect();
    assert_eq!(
        rows,
        vec![("accent", "7daea3", "999999"), ("red", "ea6962", "ea4c88"), ("yellow", "d8a657", "cccc33")]
    );
}

#[test]
fn theme_colors_of_nothing_is_empty() {
    assert!(theme_colors(&Vec::new()).colors.is_empty());
}

#[test]
fn colors_paths_prefer_state_then_user_then_stock() {
    assert_eq!(
        colors_path_candidates_for("/home/u", "gruvbox"),
        vec![
            "/home/u/.local/state/omarchy/current/theme/colors.toml".to_string(),
            "/home/u/.config/omarchy/themes/gruvbox/colors.toml".to_string(),
            "/home/u/.local/share/omarchy/default/themes/current/colors.toml".to_string(),
        ]
    );
    assert_eq!(state_colors_path("/"), "/.local/state/omarchy/current/theme/colors.toml");
}

#[test]
fn theme_names_are_trimmed_or_defaulted() {
    assert_eq!(theme_name_or(Some("  gruvbox\n"), "default"), "gruvbox");
    assert_eq!(theme_name_or(None, "default"), "default");
    assert_eq!(theme_name_or(None, ""), "");
}

#[test]
fn offered_theme_colors_are_valid_search_colors() {
    let colors = theme_colors(&parse_colors(SAMPLE)).colors;
    for c in &colors {
        let q = walls::api::SearchQuery { color: Some(c.matched.as_str()), ..Default::default() };
        assert!(q.validate().is_ok());
    }
}
