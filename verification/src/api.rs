//! wallhaven.cc API v1 requests: query validation, URL building, download
//! checks and error descriptions. SFW-only defaults, 45 req/min server limit.
//! The HTTP exchange itself is the caller's: these functions decide what to
//! ask for and how to read the outcome.
use vstd::prelude::*;

use crate::palette::{self, nearest};
use crate::text::{
    self, after_last_in, chars_of, push_char, push_decimal, range_eq, skip_end, str_eq,
    string_of, strip_range, CharSet,
};

verus! {

/// Base of every API request URL.
pub const API_BASE: &'static str = "https://wallhaven.cc/api/v1";

/// The sort orders the API knows.
pub const SORTS: [&'static str; 7] = [
    "relevance",
    "date_added",
    "toplist",
    "random",
    "views",
    "favorites",
    "hot",
];

/// The toplist ranges the API knows.
pub const TOP_RANGES: [&'static str; 7] = ["1d", "3d", "1w", "1M", "3M", "6M", "1y"];

/// Hard cap on bytes accepted from a remote wallpaper body before the file is
/// applied or retained. Guards against a compromised API/CDN streaming an
/// unbounded response and exhausting disk.
pub const MAX_DOWNLOAD_BYTES: u64 = 104857600;

/// Allowed image extensions for a downloaded wallpaper, derived from the
/// API's file path. Anything else (e.g. an injected `.sh`) is rejected so a
/// compromised API/CDN cannot write an arbitrary file into the theme folder.
pub const IMAGE_EXTS: [&'static str; 6] = ["jpg", "jpeg", "png", "gif", "webp", "bmp"];

/// Hosts a wallpaper may be downloaded from.
pub const DOWNLOAD_HOSTS: [&'static str; 3] = ["wallhaven.cc", "whvn.cc", "w.wallhaven.cc"];

/// The character views of a list of string slices.
pub open spec fn views(items: Seq<&str>) -> Seq<Seq<char>> {
    items.map_values(|s: &str| s@)
}

pub open spec fn opt_view(o: Option<&str>) -> Option<Seq<char>> {
    match o {
        Some(s) => Some(s@),
        None => None,
    }
}

// ----------------------------------------------------------------------------
// Percent-encoding
/// Bytes that stand for themselves in a query value (RFC 3986 unreserved).
pub open spec fn is_unreserved(b: u8) -> bool {
    ||| 0x41 <= b <= 0x5a
    ||| 0x61 <= b <= 0x7a
    ||| 0x30 <= b <= 0x39
    ||| b == 0x2d
    ||| b == 0x5f
    ||| b == 0x2e
    ||| b == 0x7e
}

/// An uppercase hexadecimal digit.
pub open spec fn hex_upper(d: int) -> char {
    if d < 10 {
        text::digit_char(d)
    } else {
        (d - 10 + 'A' as int) as char
    }
}

/// One byte, percent-encoded when it is not unreserved (`%XX`, uppercase).
pub open spec fn encode_byte(b: u8) -> Seq<char> {
    if is_unreserved(b) {
        seq![b as char]
    } else {
        seq!['%', hex_upper(b as int / 16), hex_upper(b as int % 16)]
    }
}

/// Percent-encoding of a byte string.
pub open spec fn urlencode_bytes(bs: Seq<u8>) -> Seq<char>
    decreases bs.len(),
{
    if bs.len() == 0 {
        Seq::empty()
    } else {
        encode_byte(bs[0]) + urlencode_bytes(bs.drop_first())
    }
}

/// Percent-encoding of the UTF-8 bytes of `s`.
pub open spec fn spec_urlencode(s: Seq<char>) -> Seq<char> {
    urlencode_bytes(vstd::utf8::encode_utf8(s))
}

proof fn lemma_urlencode_append(a: Seq<u8>, b: Seq<u8>)
    ensures
        urlencode_bytes(a + b) == urlencode_bytes(a) + urlencode_bytes(b),
    decreases a.len(),
{
    if a.len() == 0 {
        assert(a + b =~= b);
        assert(urlencode_bytes(a) + urlencode_bytes(b) =~= urlencode_bytes(b));
    } else {
        assert((a + b).drop_first() =~= a.drop_first() + b);
        lemma_urlencode_append(a.drop_first(), b);
        assert(urlencode_bytes(a + b) =~= encode_byte(a[0]) + (urlencode_bytes(a.drop_first())
            + urlencode_bytes(b)));
    }
}

proof fn lemma_urlencode_one(b: u8)
    ensures
        urlencode_bytes(seq![b]) == encode_byte(b),
{
    assert(seq![b].drop_first() =~= Seq::<u8>::empty());
    assert(urlencode_bytes(Seq::<u8>::empty()) =~= Seq::<char>::empty());
    assert(seq![b][0] == b);
    assert(encode_byte(b) + Seq::<char>::empty() =~= encode_byte(b));
}

fn hex_upper_char(d: u8) -> (c: char)
    requires
        d < 16,
    ensures
        c == hex_upper(d as int),
{
    if d < 10 {
        (d + 48) as char
    } else {
        (d - 10 + 65) as char
    }
}

fn is_unreserved_byte(b: u8) -> (r: bool)
    ensures
        r == is_unreserved(b),
{
    (0x41 <= b && b <= 0x5a) || (0x61 <= b && b <= 0x7a) || (0x30 <= b && b <= 0x39) || b == 0x2d
        || b == 0x5f || b == 0x2e || b == 0x7e
}

/// Appends the percent-encoding of `s` to `out`.
pub fn push_urlencoded(out: &mut String, s: &str)
    ensures
        final(out)@ == old(out)@ + spec_urlencode(s@),
{
    let bytes = s.as_bytes();
    let ghost bs = bytes@;
    let mut i: usize = 0;
    while i < bytes.len()
        invariant
            bs == bytes@,
            bs == vstd::utf8::encode_utf8(s@),
            i <= bs.len(),
            out@ == old(out)@ + urlencode_bytes(bs.take(i as int)),
        decreases bs.len() - i,
    {
        let b = bytes[i];
        if is_unreserved_byte(b) {
            push_char(out, b as char);
        } else {
            push_char(out, '%');
            push_char(out, hex_upper_char(b / 16));
            push_char(out, hex_upper_char(b % 16));
        }
        proof {
            assert(bs.take(i + 1) =~= bs.take(i as int) + seq![b]);
            lemma_urlencode_append(bs.take(i as int), seq![b]);
            lemma_urlencode_one(b);
            assert(out@ =~= old(out)@ + urlencode_bytes(bs.take(i + 1)));
        }
        i = i + 1;
    }
    assert(bs.take(i as int) =~= bs);
}

/// The percent-encoding of `s`: unreserved bytes stay, every other UTF-8
/// byte becomes `%XX`.
pub fn urlencode(s: &str) -> (r: String)
    ensures
        r@ == spec_urlencode(s@),
{
    let mut out = String::new();
    push_urlencoded(&mut out, s);
    assert(out@ =~= spec_urlencode(s@));
    out
}

// ----------------------------------------------------------------------------
// Search queries
/// Everything a search request needs; rendered into the query string by
/// [`SearchQuery::url`].
pub struct SearchQuery<'a> {
    pub q: &'a str,
    pub sort: &'a str,
    pub top_range: Option<&'a str>,
    pub color: Option<&'a str>,
    pub seed: Option<&'a str>,
    pub page: u32,
}

impl Default for SearchQuery<'_> {
    /// An empty relevance search of page 1.
    fn default() -> (r: Self)
        ensures
            r.q@ == ""@,
            r.sort@ == "relevance"@,
            r.top_range is None,
            r.color is None,
            r.seed is None,
            r.page == 1,
    {
        SearchQuery { q: "", sort: "relevance", top_range: None, color: None, seed: None, page: 1 }
    }
}

/// `name` and the encoded value when there is one; nothing otherwise.
pub open spec fn opt_param(name: Seq<char>, v: Option<Seq<char>>) -> Seq<char> {
    match v {
        Some(x) => name + spec_urlencode(x),
        None => Seq::empty(),
    }
}

/// The search URL for the given query fields: SFW categories and purity,
/// the page, then `q` (only when non-empty), the sort order, and the
/// optional toplist range, color and random seed, each value percent-encoded.
pub open spec fn search_url(
    q: Seq<char>,
    sort: Seq<char>,
    top_range: Option<Seq<char>>,
    color: Option<Seq<char>>,
    seed: Option<Seq<char>>,
    page: nat,
) -> Seq<char> {
    API_BASE@ + "/search?categories=100&purity=100&page="@ + text::decimal(page) + (if q.len()
        == 0 {
        Seq::empty()
    } else {
        "&q="@ + spec_urlencode(q)
    }) + "&sorting="@ + spec_urlencode(sort) + opt_param("&topRange="@, top_range) + opt_param(
        "&colors="@,
        color,
    ) + opt_param("&seed="@, seed)
}

/// Message for an unknown sort order.
pub open spec fn sort_error(sort: Seq<char>) -> Seq<char> {
    "invalid --sort "@ + sort + "; expected one of: "@ + text::join(views(SORTS@), ", "@)
}

/// Message for an unknown toplist range.
pub open spec fn range_error(range: Seq<char>) -> Seq<char> {
    "invalid --range "@ + range + "; expected one of: "@ + text::join(views(TOP_RANGES@), ", "@)
}

/// Message for a color outside the API palette.
pub open spec fn color_error(color: Seq<char>) -> Seq<char> {
    "unsupported --color "@ + color
        + "; see the fixed palette at https://wallhaven.cc/help/api (walls theme-colors prints valid entries)"@
}

/// The outcome of validating a query: the first failing check's message.
pub open spec fn validation(
    sort: Seq<char>,
    top_range: Option<Seq<char>>,
    color: Option<Seq<char>>,
) -> Result<(), Seq<char>> {
    if !views(SORTS@).contains(sort) {
        Err(sort_error(sort))
    } else if top_range is Some && !views(TOP_RANGES@).contains(top_range->0) {
        Err(range_error(top_range->0))
    } else if color is Some && palette::parse_rgb(color->0) is None {
        Err(color_error(color->0))
    } else {
        Ok(())
    }
}

impl<'a> SearchQuery<'a> {
    pub open spec fn spec_url(&self) -> Seq<char> {
        search_url(
            self.q@,
            self.sort@,
            opt_view(self.top_range),
            opt_view(self.color),
            opt_view(self.seed),
            self.page as nat,
        )
    }

    pub open spec fn spec_validate(&self) -> Result<(), Seq<char>> {
        validation(self.sort@, opt_view(self.top_range), opt_view(self.color))
    }

    pub fn url(&self) -> (r: String)
        ensures
            r@ == self.spec_url(),
    {
        let mut url = String::from_str(API_BASE);
        url.append("/search?categories=100&purity=100&page=");
        push_decimal(&mut url, self.page as u64);
        let ghost head = url@;
        if !self.q.is_empty() {
            url.append("&q=");
            push_urlencoded(&mut url, self.q);
        }
        let ghost with_q = url@;
        assert(with_q == head + (if self.q@.len() == 0 {
            Seq::empty()
        } else {
            "&q="@ + spec_urlencode(self.q@)
        }));
        url.append("&sorting=");
        push_urlencoded(&mut url, self.sort);
        let ghost with_sort = url@;
        if let Some(r) = self.top_range {
            url.append("&topRange=");
            push_urlencoded(&mut url, r);
        }
        let ghost with_range = url@;
        assert(with_range == with_sort + opt_param("&topRange="@, opt_view(self.top_range)));
        if let Some(c) = self.color {
            url.append("&colors=");
            push_urlencoded(&mut url, c);
        }
        let ghost with_color = url@;
        assert(with_color == with_range + opt_param("&colors="@, opt_view(self.color)));
        if let Some(s) = self.seed {
            url.append("&seed=");
            push_urlencoded(&mut url, s);
        }
        assert(url@ == with_color + opt_param("&seed="@, opt_view(self.seed)));
        assert(url@ =~= self.spec_url());
        url
    }

    /// Checks the sort order, the toplist range and the color against what
    /// the API accepts. A color that `nearest` cannot read is refused; such a
    /// text can never spell a palette entry either.
    pub fn validate(&self) -> (r: Result<(), String>)
        ensures
            r is Ok <==> self.spec_validate() is Ok,
            r matches Err(e) ==> self.spec_validate() == Err::<(), Seq<char>>(e@),
    {
        if !contains_str(&SORTS, self.sort) {
            let mut msg = String::from_str("invalid --sort ");
            msg.append(self.sort);
            msg.append("; expected one of: ");
            push_joined(&mut msg, &SORTS);
            assert(msg@ =~= sort_error(self.sort@));
            return Err(msg);
        }
        if let Some(r) = self.top_range {
            if !contains_str(&TOP_RANGES, r) {
                let mut msg = String::from_str("invalid --range ");
                msg.append(r);
                msg.append("; expected one of: ");
                push_joined(&mut msg, &TOP_RANGES);
                assert(msg@ =~= range_error(r@));
                return Err(msg);
            }
        }
        if let Some(c) = self.color {
            if nearest(c).is_none() {
                let mut msg = String::from_str("unsupported --color ");
                msg.append(c);
                msg.append(
                    "; see the fixed palette at https://wallhaven.cc/help/api (walls theme-colors prints valid entries)",
                );
                assert(msg@ =~= color_error(c@));
                return Err(msg);
            }
        }
        Ok(())
    }
}

/// Whether `s` is one of `items`.
fn contains_str<const N: usize>(items: &[&'static str; N], s: &str) -> (r: bool)
    ensures
        r == views(items@).contains(s@),
{
    let mut i: usize = 0;
    while i < N
        invariant
            i <= N,
            N == items@.len(),
            forall|j: int| 0 <= j < i ==> items@[j]@ != s@,
        decreases N - i,
    {
        if str_eq(items[i], s) {
            assert(views(items@)[i as int] == s@);
            return true;
        }
        i = i + 1;
    }
    assert forall|j: int| 0 <= j < views(items@).len() implies views(items@)[j] != s@ by {
        assert(views(items@)[j] == items@[j]@);
    }
    false
}

/// Appends `items` joined by `", "`.
fn push_joined<const N: usize>(out: &mut String, items: &[&'static str; N])
    ensures
        final(out)@ == old(out)@ + text::join(views(items@), ", "@),
{
    let ghost vs = views(items@);
    let mut i: usize = 0;
    while i < N
        invariant
            i <= N,
            N == items@.len(),
            vs == views(items@),
            out@ == old(out)@ + text::join(vs.take(i as int), ", "@),
        decreases N - i,
    {
        if i > 0 {
            out.append(", ");
        }
        out.append(items[i]);
        proof {
            let t = vs.take(i + 1);
            assert(t.drop_last() =~= vs.take(i as int));
            assert(t.last() == items@[i as int]@);
            if i == 0 {
                assert(text::join(t, ", "@) == t[0]);
                assert(text::join(vs.take(0), ", "@) =~= Seq::<char>::empty());
            }
            assert(out@ =~= old(out)@ + text::join(t, ", "@));
        }
        i = i + 1;
    }
    assert(vs.take(N as int) =~= vs);
}

/// Validates `query` and yields the URL to request for it (the computing
/// half of a search; the caller performs the GET and reads the JSON reply).
pub fn search(query: &SearchQuery) -> (r: Result<String, String>)
    ensures
        query.spec_validate() is Ok ==> r == Ok::<String, String>(r->Ok_0) && r->Ok_0@
            == query.spec_url(),
        query.spec_validate() is Err ==> r is Err && query.spec_validate() == Err::<
            (),
            Seq<char>,
        >(r->Err_0@),
{
    match query.validate() {
        Ok(()) => Ok(query.url()),
        Err(e) => Err(e),
    }
}

/// The URL of one wallpaper's details (the computing half of fetching an
/// item).
pub fn get_item(id: &str) -> (r: String)
    ensures
        r@ == API_BASE@ + "/w/"@ + id@,
{
    let mut url = String::from_str(API_BASE);
    url.append("/w/");
    url.append(id);
    url
}

/// How an HTTP error status from the API is reported.
pub open spec fn status_message(code: u16) -> Seq<char> {
    if code == 429 {
        "rate limited by wallhaven.cc (45 req/min) - try again shortly"@
    } else if code == 401 {
        "unauthorized - NSFW content requires an API key"@
    } else {
        "HTTP "@ + text::decimal(code as nat) + " from wallhaven.cc"@
    }
}

/// Describes an HTTP error status returned by the API.
pub fn describe_status(code: u16) -> (r: String)
    ensures
        r@ == status_message(code),
{
    if code == 429 {
        String::from_str("rate limited by wallhaven.cc (45 req/min) - try again shortly")
    } else if code == 401 {
        String::from_str("unauthorized - NSFW content requires an API key")
    } else {
        let mut msg = String::from_str("HTTP ");
        push_decimal(&mut msg, code as u64);
        msg.append(" from wallhaven.cc");
        msg
    }
}

/// Refuses a download body longer than [`MAX_DOWNLOAD_BYTES`].
pub fn check_download_size(copied: u64) -> (r: Result<(), String>)
    ensures
        r is Ok <==> copied <= MAX_DOWNLOAD_BYTES,
        r matches Err(e) ==> e@ == "download exceeds the 100 MiB size limit"@,
{
    if copied > MAX_DOWNLOAD_BYTES {
        Err(String::from_str("download exceeds the 100 MiB size limit"))
    } else {
        Ok(())
    }
}

// ----------------------------------------------------------------------------
// Ids and download URLs
/// The id in `arg`: the last `/`-separated segment of the trimmed text,
/// trailing slashes ignored.
pub open spec fn spec_extract_id(arg: Seq<char>) -> Seq<char> {
    text::after_last(text::strip_end(text::trim(arg), CharSet::Only('/')), '/')
}

/// Extract a wallpaper id from either a bare id or any wallhaven URL form.
pub fn extract_id(arg: &str) -> (r: String)
    ensures
        r@ == spec_extract_id(arg@),
        !r@.contains('/'),
{
    let v = chars_of(arg);
    let (a, b) = strip_range(&v, 0, v.len(), CharSet::Whitespace);
    let e = skip_end(&v, a, b, CharSet::Only('/'));
    let s = after_last_in(&v, a, e, '/');
    proof {
        assert(v@.subrange(0, v.len() as int) =~= arg@);
        lemma_after_last_has_no(v@.subrange(a as int, e as int), '/');
    }
    string_of(&v, s, e)
}

proof fn lemma_after_last_has_no(s: Seq<char>, c: char)
    ensures
        !text::after_last(s, c).contains(c),
    decreases s.len(),
{
    if s.len() > 0 && s.last() != c {
        lemma_after_last_has_no(s.drop_last(), c);
        let p = text::after_last(s.drop_last(), c);
        assert forall|i: int| 0 <= i < p.push(s.last()).len() implies p.push(s.last())[i]
            != c by {
            if i < p.len() {
                assert(p.push(s.last())[i] == p[i]);
            }
        }
    }
}

/// Characters that end the host part of a URL.
pub open spec fn is_host_end(c: char) -> bool {
    c == '/' || c == '?' || c == '#' || c == '\\'
}

/// Index of the first host-ending character, or `s.len()`.
pub open spec fn host_len(s: Seq<char>) -> int
    decreases s.len(),
{
    if s.len() == 0 || is_host_end(s[0]) {
        0
    } else {
        1 + host_len(s.drop_first())
    }
}

/// The lowercased, trimmed text of a download URL.
pub open spec fn lowered_url(url: Seq<char>) -> Seq<char> {
    text::ascii_lower_seq(text::trim(url))
}

/// The host of a lowercased `http(s)://` URL.
pub open spec fn url_host(lower: Seq<char>) -> Seq<char> {
    let rest = if "https://"@.is_prefix_of(lower) {
        lower.skip("https://"@.len() as int)
    } else {
        lower.skip("http://"@.len() as int)
    };
    rest.take(host_len(rest))
}

/// The outcome of checking a download URL.
pub open spec fn download_url_check(url: Seq<char>) -> Result<(), Seq<char>> {
    let lower = lowered_url(url);
    if !"https://"@.is_prefix_of(lower) && !"http://"@.is_prefix_of(lower) {
        Err("refusing to download: expected an http(s) URL"@)
    } else if !views(DOWNLOAD_HOSTS@).contains(url_host(lower)) {
        Err("refusing to download from untrusted host: "@ + url_host(lower))
    } else {
        Ok(())
    }
}

proof fn lemma_host_len(s: Seq<char>, k: int)
    requires
        0 <= k <= s.len(),
        forall|j: int| 0 <= j < k ==> !is_host_end(s[j]),
        k == s.len() || is_host_end(s[k]),
    ensures
        host_len(s) == k,
    decreases s.len(),
{
    if s.len() > 0 && !is_host_end(s[0]) {
        lemma_host_len(s.drop_first(), k - 1);
    }
}

/// Whether `v[lo..]` starts with `p`.
fn starts_with_at(v: &Vec<char>, lo: usize, p: &Vec<char>) -> (r: bool)
    requires
        lo <= v.len(),
    ensures
        r == p@.is_prefix_of(v@.skip(lo as int)),
{
    if v.len() - lo < p.len() {
        return false;
    }
    let r = range_eq(v, lo, lo + p.len(), p);
    assert(v@.subrange(lo as int, lo + p.len()) =~= v@.skip(lo as int).take(p.len() as int));
    r
}

/// Ensure a download URL is a wallhaven asset before it is fetched. The API
/// may be compromised, so only trusted hosts are accepted.
pub fn validate_download_url(url: &str) -> (r: Result<(), String>)
    ensures
        r is Ok <==> download_url_check(url@) is Ok,
        r matches Err(e) ==> download_url_check(url@) == Err::<(), Seq<char>>(e@),
{
    let v = chars_of(url);
    let (a, b) = strip_range(&v, 0, v.len(), CharSet::Whitespace);
    let mut lower: Vec<char> = Vec::new();
    let mut i = a;
    while i < b
        invariant
            a <= i <= b <= v.len(),
            lower@ == text::ascii_lower_seq(v@.subrange(a as int, i as int)),
        decreases b - i,
    {
        lower.push(text::ascii_lower_char(v[i]));
        i = i + 1;
        assert(lower@ =~= text::ascii_lower_seq(v@.subrange(a as int, i as int)));
    }
    proof {
        assert(v@.subrange(0, v.len() as int) =~= url@);
        assert(lower@ == lowered_url(url@));
        assert(lower@.skip(0) =~= lower@);
    }
    let https = chars_of("https://");
    let http = chars_of("http://");
    let starts_https = starts_with_at(&lower, 0, &https);
    let starts_http = starts_with_at(&lower, 0, &http);
    if !starts_https && !starts_http {
        return Err(String::from_str("refusing to download: expected an http(s) URL"));
    }
    // Skip the scheme; the host is the text up to the next '/', '?', '#' or '\'.
    let start = if starts_https {
        https.len()
    } else {
        http.len()
    };
    let ghost rest = lower@.skip(start as int);
    let mut j = start;
    while j < lower.len() && !(lower[j] == '/' || lower[j] == '?' || lower[j] == '#' || lower[j]
        == '\\')
        invariant
            start <= j <= lower.len(),
            rest == lower@.skip(start as int),
            forall|k: int| start <= k < j ==> !is_host_end(lower@[k]),
        decreases lower.len() - j,
    {
        j = j + 1;
    }
    proof {
        assert forall|k: int| 0 <= k < j - start implies !is_host_end(rest[k]) by {
            assert(rest[k] == lower@[start + k]);
        }
        if j < lower.len() {
            assert(rest[j - start] == lower@[j as int]);
        }
        lemma_host_len(rest, j - start);
        assert(lower@.subrange(start as int, j as int) =~= url_host(lower@));
    }
    let mut h: usize = 0;
    while h < 3
        invariant
            h <= 3,
            start <= j <= lower.len(),
            lower@.subrange(start as int, j as int) == url_host(lower@),
            forall|k: int| 0 <= k < h ==> DOWNLOAD_HOSTS@[k]@ != url_host(lower@),
            lower@ == lowered_url(url@),
            "https://"@.is_prefix_of(lower@) || "http://"@.is_prefix_of(lower@),
        decreases 3 - h,
    {
        let allowed = chars_of(DOWNLOAD_HOSTS[h]);
        if range_eq(&lower, start, j, &allowed) {
            assert(views(DOWNLOAD_HOSTS@)[h as int] == url_host(lower@));
            return Ok(());
        }
        h = h + 1;
    }
    assert(!views(DOWNLOAD_HOSTS@).contains(url_host(lower@))) by {
        assert forall|k: int| 0 <= k < views(DOWNLOAD_HOSTS@).len() implies views(
            DOWNLOAD_HOSTS@,
        )[k] != url_host(lower@) by {
            assert(views(DOWNLOAD_HOSTS@)[k] == DOWNLOAD_HOSTS@[k]@);
        }
    }
    let mut msg = String::from_str("refusing to download from untrusted host: ");
    text::push_range(&mut msg, &lower, start, j);
    Err(msg)
}

} // verus!

verus! {

/// Percent-decoding: `%XX` gives the byte `XX`, any other ASCII character
/// gives itself; `None` for a malformed escape or a non-ASCII character.
pub open spec fn percent_decode(cs: Seq<char>) -> Option<Seq<u8>>
    decreases cs.len(),
{
    if cs.len() == 0 {
        Some(Seq::empty())
    } else if cs[0] == '%' {
        if cs.len() >= 3 && text::is_hex_digit(cs[1]) && text::is_hex_digit(cs[2]) {
            match percent_decode(cs.skip(3)) {
                Some(rest) => Some(
                    seq![(text::hex_value(cs[1]) * 16 + text::hex_value(cs[2])) as u8] + rest,
                ),
                None => None,
            }
        } else {
            None
        }
    } else if (cs[0] as u32) < 128 {
        match percent_decode(cs.drop_first()) {
            Some(rest) => Some(seq![cs[0] as u8] + rest),
            None => None,
        }
    } else {
        None
    }
}

proof fn lemma_hex_upper_round_trip(d: int)
    requires
        0 <= d < 16,
    ensures
        text::is_hex_digit(hex_upper(d)),
        text::hex_value(hex_upper(d)) == d,
        hex_upper(d) != '%',
{
}

proof fn lemma_decode_bytes(bs: Seq<u8>)
    ensures
        percent_decode(urlencode_bytes(bs)) == Some(bs),
    decreases bs.len(),
{
    if bs.len() == 0 {
        assert(urlencode_bytes(bs) =~= Seq::<char>::empty());
        assert(bs =~= Seq::<u8>::empty());
    } else {
        let b = bs[0];
        let rest = urlencode_bytes(bs.drop_first());
        lemma_decode_bytes(bs.drop_first());
        let cs = encode_byte(b) + rest;
        assert(urlencode_bytes(bs) == cs);
        if is_unreserved(b) {
            assert(cs[0] == b as char);
            assert(cs.drop_first() =~= rest);
            assert((b as char) as u8 == b);
            assert(seq![b] + bs.drop_first() =~= bs);
        } else {
            lemma_hex_upper_round_trip(b as int / 16);
            lemma_hex_upper_round_trip(b as int % 16);
            assert(cs[0] == '%');
            assert(cs[1] == hex_upper(b as int / 16));
            assert(cs[2] == hex_upper(b as int % 16));
            assert(cs.skip(3) =~= rest);
            assert(((b as int / 16) * 16 + b as int % 16) as u8 == b);
            assert(seq![b] + bs.drop_first() =~= bs);
        }
    }
}

/// Percent-encoding loses nothing: decoding the encoding of any text gives
/// back its UTF-8 bytes.
pub proof fn urlencode_round_trip(s: Seq<char>)
    ensures
        percent_decode(spec_urlencode(s)) == Some(vstd::utf8::encode_utf8(s)),
{
    lemma_decode_bytes(vstd::utf8::encode_utf8(s));
}

/// A character that may stand in a query value as written.
pub open spec fn is_query_safe(c: char) -> bool {
    ||| 'A' <= c <= 'Z'
    ||| 'a' <= c <= 'z'
    ||| '0' <= c <= '9'
    ||| c == '-' || c == '_' || c == '.' || c == '~' || c == '%'
}

proof fn lemma_encoded_bytes_safe(bs: Seq<u8>)
    ensures
        forall|i: int| 0 <= i < urlencode_bytes(bs).len() ==> is_query_safe(
            #[trigger] urlencode_bytes(bs)[i],
        ),
    decreases bs.len(),
{
    if bs.len() > 0 {
        lemma_encoded_bytes_safe(bs.drop_first());
        let b = bs[0];
        let e = encode_byte(b);
        let rest = urlencode_bytes(bs.drop_first());
        if !is_unreserved(b) {
            lemma_hex_upper_round_trip(b as int / 16);
            lemma_hex_upper_round_trip(b as int % 16);
        }
        assert forall|i: int| 0 <= i < e.len() implies is_query_safe(#[trigger] e[i]) by {
            if is_unreserved(b) {
                assert(e[i] == b as char);
            }
        }
        assert forall|i: int| 0 <= i < (e + rest).len() implies is_query_safe(
            #[trigger] (e + rest)[i],
        ) by {
            if i < e.len() {
                assert((e + rest)[i] == e[i]);
            } else {
                assert((e + rest)[i] == rest[i - e.len()]);
            }
        }
    }
}

/// An encoded value holds only unreserved characters and `%` escapes, so it
/// can never break out of its query parameter (`&`, `=`, `#` and spaces are
/// always escaped).
pub proof fn urlencode_is_query_safe(s: Seq<char>)
    ensures
        forall|i: int| 0 <= i < spec_urlencode(s).len() ==> is_query_safe(
            #[trigger] spec_urlencode(s)[i],
        ),
{
    lemma_encoded_bytes_safe(vstd::utf8::encode_utf8(s));
}

} // verus!

verus! {

proof fn lemma_after_last_suffix(p: Seq<char>, t: Seq<char>, c: char)
    requires
        p.len() > 0,
        p.last() == c,
        !t.contains(c),
    ensures
        text::after_last(p + t, c) == t,
    decreases t.len(),
{
    if t.len() == 0 {
        assert(p + t =~= p);
    } else {
        assert((p + t).drop_last() =~= p + t.drop_last());
        assert((p + t).last() == t.last());
        assert(t.last() != c) by {
            assert(t[t.len() - 1] == t.last());
        }
        assert(!t.drop_last().contains(c)) by {
            if t.drop_last().contains(c) {
                let j = choose|j: int| 0 <= j < t.drop_last().len() && t.drop_last()[j] == c;
                assert(t[j] == c);
            }
        }
        lemma_after_last_suffix(p, t.drop_last(), c);
        assert(t.drop_last().push(t.last()) =~= t);
    }
}

proof fn lemma_after_last_none(t: Seq<char>, c: char)
    requires
        !t.contains(c),
    ensures
        text::after_last(t, c) == t,
    decreases t.len(),
{
    if t.len() > 0 {
        assert(t.last() != c) by {
            assert(t[t.len() - 1] == t.last());
        }
        assert(!t.drop_last().contains(c)) by {
            if t.drop_last().contains(c) {
                let j = choose|j: int| 0 <= j < t.drop_last().len() && t.drop_last()[j] == c;
                assert(t[j] == c);
            }
        }
        lemma_after_last_none(t.drop_last(), c);
        assert(t.drop_last().push(t.last()) =~= t);
    }
}

/// A bare id (no `/`, no surrounding whitespace) is its own id.
pub proof fn extract_id_keeps_bare_id(id: Seq<char>)
    requires
        !id.contains('/'),
        text::trim(id) == id,
    ensures
        spec_extract_id(id) == id,
{
    if id.len() > 0 {
        assert(id.last() != '/') by {
            assert(id[id.len() - 1] == id.last());
        }
    }
    assert(text::strip_end(id, CharSet::Only('/')) == id);
    lemma_after_last_none(id, '/');
}

/// The id of any URL form `<prefix>/<id>` or `<prefix>/<id>/` is `<id>`.
pub proof fn extract_id_reads_url_forms(prefix: Seq<char>, id: Seq<char>)
    requires
        prefix.len() > 0,
        prefix.last() == '/',
        !text::is_whitespace(prefix[0]),
        id.len() > 0,
        !id.contains('/'),
        !text::is_whitespace(id.last()),
    ensures
        spec_extract_id(prefix + id) == id,
        spec_extract_id(prefix + id + seq!['/']) == id,
{
    let u = prefix + id;
    let w = u + seq!['/'];
    assert(id.last() != '/') by {
        assert(id[id.len() - 1] == id.last());
    }
    assert(u[0] == prefix[0]);
    assert(u.last() == id.last());
    assert(text::strip_start(u, CharSet::Whitespace) == u);
    assert(text::strip_end(u, CharSet::Whitespace) == u);
    assert(w[0] == prefix[0]);
    assert(w.last() == '/');
    assert(text::strip_start(w, CharSet::Whitespace) == w);
    assert(text::strip_end(w, CharSet::Whitespace) == w);
    assert(w.drop_last() =~= u);
    assert(text::strip_end(w, CharSet::Only('/')) == text::strip_end(u, CharSet::Only('/')));
    assert(text::strip_end(u, CharSet::Only('/')) == u);
    lemma_after_last_suffix(prefix, id, '/');
}

} // verus!

verus! {

/// Each optional parameter adds exactly its own `name=value` segment, value
/// percent-encoded, at its place in the URL: the seed last, the colors before
/// it, the toplist range before those.
pub proof fn url_optional_parameters(
    q: Seq<char>,
    sort: Seq<char>,
    range: Seq<char>,
    color: Seq<char>,
    seed: Seq<char>,
    r: Option<Seq<char>>,
    c: Option<Seq<char>>,
    page: nat,
)
    ensures
        search_url(q, sort, r, c, Some(seed), page) == search_url(q, sort, r, c, None, page)
            + "&seed="@ + spec_urlencode(seed),
        search_url(q, sort, r, Some(color), None, page) == search_url(q, sort, r, None, None, page)
            + "&colors="@ + spec_urlencode(color),
        search_url(q, sort, Some(range), None, None, page) == search_url(
            q,
            sort,
            None,
            None,
            None,
            page,
        ) + "&topRange="@ + spec_urlencode(range),
{
    let e = Seq::<char>::empty();
    assert(search_url(q, sort, r, c, Some(seed), page) =~= search_url(q, sort, r, c, None, page)
        + "&seed="@ + spec_urlencode(seed)) by {
        assert(opt_param("&seed="@, None) =~= e);
    }
    assert(search_url(q, sort, r, Some(color), None, page) =~= search_url(
        q,
        sort,
        r,
        None,
        None,
        page,
    ) + "&colors="@ + spec_urlencode(color)) by {
        assert(opt_param("&seed="@, None) =~= e);
        assert(opt_param("&colors="@, None) =~= e);
    }
    assert(search_url(q, sort, Some(range), None, None, page) =~= search_url(
        q,
        sort,
        None,
        None,
        None,
        page,
    ) + "&topRange="@ + spec_urlencode(range)) by {
        assert(opt_param("&seed="@, None) =~= e);
        assert(opt_param("&colors="@, None) =~= e);
        assert(opt_param("&topRange="@, None) =~= e);
    }
}

/// A query is valid exactly when its sort order is one the API knows, its
/// toplist range (if any) is one the API knows, and its color (if any) reads
/// as a hex color.
pub proof fn validation_rule(sort: Seq<char>, range: Option<Seq<char>>, color: Option<Seq<char>>)
    ensures
        validation(sort, range, color) is Ok <==> {
            &&& exists|i: int| 0 <= i < 7 && #[trigger] SORTS[i]@ == sort
            &&& range matches Some(r) ==> exists|i: int| 0 <= i < 7 && #[trigger] TOP_RANGES[i]@ == r
            &&& color matches Some(c) ==> palette::parse_rgb(c) is Some
        },
{
    assert(views(SORTS@).contains(sort) <==> exists|i: int| 0 <= i < 7 && #[trigger] SORTS[i]@ == sort) by {
        if views(SORTS@).contains(sort) {
            let i = choose|i: int| 0 <= i < views(SORTS@).len() && views(SORTS@)[i] == sort;
            assert(SORTS[i]@ == views(SORTS@)[i]);
        }
        if exists|i: int| 0 <= i < 7 && #[trigger] SORTS[i]@ == sort {
            let i = choose|i: int| 0 <= i < 7 && #[trigger] SORTS[i]@ == sort;
            assert(views(SORTS@)[i] == SORTS[i]@);
        }
    }
    if let Some(r) = range {
        assert(views(TOP_RANGES@).contains(r) <==> exists|i: int|
            0 <= i < 7 && #[trigger] TOP_RANGES[i]@ == r) by {
            if views(TOP_RANGES@).contains(r) {
                let i = choose|i: int|
                    0 <= i < views(TOP_RANGES@).len() && views(TOP_RANGES@)[i] == r;
                assert(TOP_RANGES[i]@ == views(TOP_RANGES@)[i]);
            }
            if exists|i: int| 0 <= i < 7 && #[trigger] TOP_RANGES[i]@ == r {
                let i = choose|i: int| 0 <= i < 7 && #[trigger] TOP_RANGES[i]@ == r;
                assert(views(TOP_RANGES@)[i] == TOP_RANGES[i]@);
            }
        }
    }
}

} // verus!

verus! {

proof fn lemma_host_len_facts(s: Seq<char>)
    ensures
        0 <= host_len(s) <= s.len(),
        forall|i: int|
            0 <= i < host_len(s) ==> !(s[i] == '/' || s[i] == '?' || s[i] == '#' || s[i] == '\\'),
        host_len(s) < s.len() ==> (s[host_len(s)] == '/' || s[host_len(s)] == '?' || s[host_len(s)]
            == '#' || s[host_len(s)] == '\\'),
    decreases s.len(),
{
    if s.len() > 0 && !is_host_end(s[0]) {
        let t = s.drop_first();
        lemma_host_len_facts(t);
        assert forall|i: int|
            0 <= i < host_len(s) implies !(s[i] == '/' || s[i] == '?' || s[i] == '#' || s[i]
            == '\\') by {
            if i > 0 {
                assert(s[i] == t[i - 1]);
            }
        }
        if host_len(s) < s.len() {
            assert(s[host_len(s)] == t[host_len(t)]);
        }
    }
}

/// The host that a download URL is judged by: the text after `https://`
/// (or else `http://`) up to, not including, the first `/`, `?`, `#` or `\`.
pub proof fn download_host_rule(lower: Seq<char>)
    ensures
        ({
            let rest = if lower.len() >= 8 && lower.take(8) == "https://"@ {
                lower.skip(8)
            } else {
                lower.skip(7)
            };
            let h = url_host(lower);
            &&& h.len() <= rest.len()
            &&& h == rest.take(h.len() as int)
            &&& forall|i: int|
                0 <= i < h.len() ==> !(h[i] == '/' || h[i] == '?' || h[i] == '#' || h[i] == '\\')
            &&& h.len() < rest.len() ==> (rest[h.len() as int] == '/' || rest[h.len() as int] == '?'
                || rest[h.len() as int] == '#' || rest[h.len() as int] == '\\')
        }),
{
    reveal_strlit("https://");
    reveal_strlit("http://");
    let https = "https://"@.is_prefix_of(lower);
    assert(https <==> (lower.len() >= 8 && lower.take(8) == "https://"@)) by {
        if lower.len() >= 8 && lower.take(8) == "https://"@ {
            assert forall|i: int| 0 <= i < 8 implies "https://"@[i] == lower[i] by {
                assert(lower.take(8)[i] == lower[i]);
            }
        }
        if https {
            assert(lower.take(8) =~= "https://"@);
        }
    }
    let rest = if https {
        lower.skip(8)
    } else {
        lower.skip(7)
    };
    lemma_host_len_facts(rest);
    let h = url_host(lower);
    assert forall|i: int| 0 <= i < h.len() implies !(h[i] == '/' || h[i] == '?' || h[i] == '#'
        || h[i] == '\\') by {
        assert(h[i] == rest[i]);
    }
}

} // verus!
