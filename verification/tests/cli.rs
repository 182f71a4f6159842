use walls::cli::{apply_target, download_file_name, format_size, parse_u32_text, search_output, take_value, SearchArgs};
use walls::model::{SearchMeta, SearchResponse, Thumbs, Wallpaper};

fn strings(a: &[&str]) -> Vec<String> {
    a.iter().map(|s| s.to_string()).collect()
}

#[test]
fn search_args_collect_words_and_flags() {
    let a = SearchArgs::parse(&strings(&["dark", "--sort", "views", "forest", "--color", "66cccc", "--page", "3"])).unwrap();
    assert_eq!(a.query, "dark forest");
    assert_eq!(a.sort, "views");
    assert_eq!(a.color.as_deref(), Some("66cccc"));
    assert_eq!(a.range, None);
    assert_eq!(a.seed, None);
    assert_eq!(a.page, 3);
}

#[test]
fn toplist_defaults_to_last_month() {
    let a = SearchArgs::parse(&strings(&["--sort", "toplist"])).unwrap();
    assert_eq!(a.range.as_deref(), Some("1M"));
    let b = SearchArgs::parse(&strings(&["--sort", "toplist", "--range", "1w"])).unwrap();
    assert_eq!(b.range.as_deref(), Some("1w"));
}

#[test]
fn search_args_errors() {
    assert_eq!(SearchArgs::parse(&strings(&["--seed"])).err(), Some("--seed needs a value".to_string()));
    assert_eq!(SearchArgs::parse(&strings(&["--page", "0"])).err(), Some("--page needs a number >= 1".to_string()));
    assert_eq!(SearchArgs::parse(&strings(&["--page", "x"])).err(), Some("--page needs a number >= 1".to_string()));
    assert_eq!(take_value(&strings(&["--sort"]), 0, "--sort"), Err("--sort needs a value".to_string()));
    assert_eq!(take_value(&strings(&["--sort", "hot"]), 0, "--sort"), Ok("hot".to_string()));
}

#[test]
fn page_numbers_parse_like_u32() {
    assert_eq!(parse_u32_text("+7"), Some(7));
    assert_eq!(parse_u32_text("4294967295"), Some(4294967295));
    assert_eq!(parse_u32_text("4294967296"), None);
    assert_eq!(parse_u32_text("+"), None);
    assert_eq!(parse_u32_text("-1"), None);
    assert_eq!(parse_u32_text(""), None);
    assert_eq!(parse_u32_text("007"), Some(7));
}

#[test]
fn empty_search_browses_latest() {
    let mut a = SearchArgs::parse(&strings(&[" "])).unwrap();
    a.apply_browse_default();
    assert_eq!(a.sort, "date_added");
    let mut b = SearchArgs::parse(&strings(&["--color", "66cccc"])).unwrap();
    b.apply_browse_default();
    assert_eq!(b.sort, "relevance");
    let q = b.into_query();
    assert_eq!(q.color, Some("66cccc"));
    assert_eq!(q.page, 1);
}

#[test]
fn apply_takes_first_positional_argument() {
    assert_eq!(apply_target(&strings(&["--x", "https://wallhaven.cc/w/94x38z"])), Ok("94x38z".to_string()));
    assert_eq!(apply_target(&strings(&[])), Err("usage: walls apply <id-or-url>".to_string()));
    assert_eq!(apply_target(&strings(&["--only-flags"])), Err("usage: walls apply <id-or-url>".to_string()));
}

#[test]
fn download_names_require_trusted_images() {
    assert_eq!(
        download_file_name("https://w.wallhaven.cc/full/94/wallhaven-94x38z.JPG", "94x38z"),
        Ok("wallhaven-94x38z.jpg".to_string())
    );
    assert_eq!(
        download_file_name("https://w.wallhaven.cc/full/94/evil.sh", "94x38z"),
        Err("refusing to download: unsupported file type sh".to_string())
    );
    assert!(download_file_name("https://evil.example.com/x.png", "x").is_err());
}

#[test]
fn sizes_read_for_people() {
    assert_eq!(format_size(0), "0 B");
    assert_eq!(format_size(1023), "1023 B");
    assert_eq!(format_size(1536), "1.5 KiB");
    assert_eq!(format_size(3 * 1024 * 1024 + 1024 * 1024 / 10 * 9), "3.8 MiB");
    assert_eq!(format_size(5 * 1024 * 1024 * 1024), "5.0 GiB");
}

fn wallpaper(id: &str) -> Wallpaper {
    Wallpaper {
        id: id.to_string(),
        path: format!("https://w.wallhaven.cc/full/{id}.jpg"),
        resolution: "1920x1080".to_string(),
        dimension_x: 1920,
        dimension_y: 1080,
        file_size: 2048,
        views: 10,
        favorites: 2,
        category: "general".to_string(),
        purity: "sfw".to_string(),
        created_at: "2026-01-01 00:00:00".to_string(),
        thumbs: Thumbs { large: format!("https://th.wallhaven.cc/lg/{id}.jpg") },
    }
}

#[test]
fn search_output_keeps_paging_state() {
    let resp = SearchResponse {
        data: vec![wallpaper("a1"), wallpaper("b2")],
        meta: Some(SearchMeta { current_page: 5, seed: Some("4ZSecs".to_string()) }),
    };
    let out = search_output(&resp, 1);
    assert_eq!(out.page, 5);
    assert_eq!(out.seed.as_deref(), Some("4ZSecs"));
    assert_eq!(out.results.len(), 2);
    assert_eq!(out.results[1].id, "b2");
    assert_eq!(out.results[1].thumb, "https://th.wallhaven.cc/lg/b2.jpg");
    assert_eq!(out.results[0].size, "2.0 KiB");
    assert_eq!(out.results[0].created, "2026-01-01 00:00:00");

    let bare = SearchResponse { data: vec![], meta: None };
    let out = search_output(&bare, 3);
    assert_eq!(out.page, 3);
    assert_eq!(out.seed, None);
}
