use walls::api::{
    check_download_size, describe_status, extract_id, get_item, search, urlencode,
    validate_download_url, SearchQuery, API_BASE, MAX_DOWNLOAD_BYTES,
};

#[test]
fn builds_sorted_urls() {
    let q = SearchQuery { q: "mountains", sort: "toplist", top_range: Some("1w"), page: 2, ..Default::default() };
    assert_eq!(
        q.url(),
        format!("{API_BASE}/search?categories=100&purity=100&page=2&q=mountains&sorting=toplist&topRange=1w")
    );
}

#[test]
fn builds_random_url_with_seed_and_color() {
    let q = SearchQuery { sort: "random", color: Some("66cccc"), seed: Some("4ZSecs"), ..Default::default() };
    let url = q.url();
    assert!(url.contains("sorting=random"));
    assert!(url.contains("colors=66cccc"));
    assert!(url.contains("seed=4ZSecs"));
    assert!(!url.contains("q="));
}

#[test]
fn rejects_bad_sort_and_range() {
    assert!(SearchQuery { sort: "nope", ..Default::default() }.validate().is_err());
    assert!(SearchQuery { sort: "toplist", top_range: Some("2d"), ..Default::default() }.validate().is_err());
    assert!(SearchQuery { sort: "toplist", top_range: Some("1y"), ..Default::default() }.validate().is_ok());
}

#[test]
fn extracts_ids_from_urls() {
    assert_eq!(extract_id("abc123"), "abc123");
    assert_eq!(extract_id("https://wallhaven.cc/w/94x38z/"), "94x38z");
    assert_eq!(extract_id("http://whvn.cc/qroevq"), "qroevq");
}

#[test]
fn percent_encodes_queries() {
    let q = SearchQuery { q: "dark forest", sort: "relevance", ..Default::default() };
    assert!(q.url().contains("q=dark%20forest"));
}

#[test]
fn rejects_untrusted_download_hosts() {
    assert!(validate_download_url("https://wallhaven.cc/wallpapers/full/5/gp/94x38z.jpg").is_ok());
    assert!(validate_download_url("https://w.wallhaven.cc/full/94/wallhaven-94x38z.jpg").is_ok());
    assert!(validate_download_url("http://whvn.cc/x.jpg").is_ok());
    assert!(validate_download_url("https://evil.example.com/x.jpg").is_err());
    assert!(validate_download_url("file:///etc/passwd").is_err());
    assert!(validate_download_url("wallhaven.cc/x.jpg").is_err());
    assert!(validate_download_url("").is_err());
}

#[test]
fn default_query_is_a_relevance_search_of_page_one() {
    let q: SearchQuery = Default::default();
    assert_eq!(q.url(), "https://wallhaven.cc/api/v1/search?categories=100&purity=100&page=1&sorting=relevance");
    assert!(q.validate().is_ok());
}

#[test]
fn url_lists_every_optional_parameter_in_order() {
    let q = SearchQuery {
        q: "a&b=c",
        sort: "toplist",
        top_range: Some("1M"),
        color: Some("#66cccc"),
        seed: Some("x y"),
        page: 4294967295,
    };
    assert_eq!(
        q.url(),
        "https://wallhaven.cc/api/v1/search?categories=100&purity=100&page=4294967295&q=a%26b%3Dc&sorting=toplist&topRange=1M&colors=%2366cccc&seed=x%20y"
    );
}

#[test]
fn urlencode_escapes_utf8_bytes_in_uppercase_hex() {
    assert_eq!(urlencode("AZaz09-_.~"), "AZaz09-_.~");
    assert_eq!(urlencode("é"), "%C3%A9");
    assert_eq!(urlencode("/?#"), "%2F%3F%23");
    assert_eq!(urlencode(""), "");
}

#[test]
fn validation_messages_name_the_offending_value() {
    assert_eq!(
        SearchQuery { sort: "nope", ..Default::default() }.validate(),
        Err("invalid --sort nope; expected one of: relevance, date_added, toplist, random, views, favorites, hot".to_string())
    );
    assert_eq!(
        SearchQuery { sort: "toplist", top_range: Some("2d"), ..Default::default() }.validate(),
        Err("invalid --range 2d; expected one of: 1d, 3d, 1w, 1M, 3M, 6M, 1y".to_string())
    );
    assert_eq!(
        SearchQuery { color: Some("teal"), ..Default::default() }.validate(),
        Err("unsupported --color teal; see the fixed palette at https://wallhaven.cc/help/api (walls theme-colors prints valid entries)".to_string())
    );
    assert!(SearchQuery { color: Some("#7DAEA3"), ..Default::default() }.validate().is_ok());
}

#[test]
fn search_validates_before_building_the_url() {
    let ok = SearchQuery { q: "sea", ..Default::default() };
    assert_eq!(search(&ok), Ok(ok.url()));
    let bad = SearchQuery { sort: "hottest", ..Default::default() };
    assert_eq!(search(&bad), Err(bad.validate().unwrap_err()));
}

#[test]
fn item_url_appends_the_id() {
    assert_eq!(get_item("94x38z"), "https://wallhaven.cc/api/v1/w/94x38z");
}

#[test]
fn status_descriptions() {
    assert_eq!(describe_status(429), "rate limited by wallhaven.cc (45 req/min) - try again shortly");
    assert_eq!(describe_status(401), "unauthorized - NSFW content requires an API key");
    assert_eq!(describe_status(503), "HTTP 503 from wallhaven.cc");
}

#[test]
fn download_size_limit_is_one_hundred_mebibytes() {
    assert_eq!(MAX_DOWNLOAD_BYTES, 100 * 1024 * 1024);
    assert!(check_download_size(MAX_DOWNLOAD_BYTES).is_ok());
    assert_eq!(
        check_download_size(MAX_DOWNLOAD_BYTES + 1),
        Err("download exceeds the 100 MiB size limit".to_string())
    );
}

#[test]
fn download_host_checks_are_case_insensitive_and_stop_at_delimiters() {
    assert!(validate_download_url("  HTTPS://WallHaven.CC/x.jpg ").is_ok());
    assert!(validate_download_url("https://whvn.cc?x").is_ok());
    assert_eq!(
        validate_download_url("https://wallhaven.cc.evil.com/x.jpg"),
        Err("refusing to download from untrusted host: wallhaven.cc.evil.com".to_string())
    );
    assert_eq!(
        validate_download_url("ftp://wallhaven.cc/x.jpg"),
        Err("refusing to download: expected an http(s) URL".to_string())
    );
    assert_eq!(
        validate_download_url("https://wallhaven.cc\\@evil.com/x"),
        Ok(())
    );
}

#[test]
fn extract_id_edge_cases() {
    assert_eq!(extract_id("  https://wallhaven.cc/w/abc///  "), "abc");
    assert_eq!(extract_id(""), "");
    assert_eq!(extract_id("///"), "");
}
