//! The decisions behind the `walls` commands: reading `search` flags, picking
//! the id and file name for `apply`, and shaping the search output.
use vstd::prelude::*;

use crate::api::{self, extract_id, validate_download_url, views, SearchQuery, IMAGE_EXTS};
use crate::model::{SearchOut, SearchResponse, SearchResult, Wallpaper};
use crate::text::{
    self, after_last_in, chars_of, push_decimal, push_lower_range, range_eq, str_eq,
    strip_range, CharSet,
};

verus! {

/// Parsed `walls search` arguments.
pub struct SearchArgs {
    pub query: String,
    pub sort: String,
    pub range: Option<String>,
    pub color: Option<String>,
    pub seed: Option<String>,
    pub page: u32,
}

/// The arguments as text: `(query, sort, range, color, seed, page)`.
pub type ArgsView = (Seq<char>, Seq<char>, Option<Seq<char>>, Option<Seq<char>>, Option<Seq<char>>, u32);

pub open spec fn opt_string(o: Option<String>) -> Option<Seq<char>> {
    match o {
        Some(s) => Some(s@),
        None => None,
    }
}

impl SearchArgs {
    pub open spec fn args_view(&self) -> ArgsView {
        (
            self.query@,
            self.sort@,
            opt_string(self.range),
            opt_string(self.color),
            opt_string(self.seed),
            self.page,
        )
    }
}

/// The arguments before any flag is read: an empty relevance query of page 1.
pub open spec fn initial_args() -> ArgsView {
    (Seq::empty(), "relevance"@, None, None, None, 1)
}

/// The flags that take a value.
pub open spec fn is_value_flag(a: Seq<char>) -> bool {
    ||| a == "--sort"@
    ||| a == "--range"@
    ||| a == "--color"@
    ||| a == "--seed"@
    ||| a == "--page"@
}

/// `acc` with the value of a non-page flag set.
pub open spec fn with_flag(acc: ArgsView, flag: Seq<char>, v: Seq<char>) -> ArgsView {
    if flag == "--sort"@ {
        (acc.0, v, acc.2, acc.3, acc.4, acc.5)
    } else if flag == "--range"@ {
        (acc.0, acc.1, Some(v), acc.3, acc.4, acc.5)
    } else if flag == "--color"@ {
        (acc.0, acc.1, acc.2, Some(v), acc.4, acc.5)
    } else {
        (acc.0, acc.1, acc.2, acc.3, Some(v), acc.5)
    }
}

/// `acc` with one more query word, space-separated.
pub open spec fn with_word(acc: ArgsView, w: Seq<char>) -> ArgsView {
    let q = if acc.0.len() == 0 {
        w
    } else {
        acc.0 + seq![' '] + w
    };
    (q, acc.1, acc.2, acc.3, acc.4, acc.5)
}

/// A toplist search without a range looks at the last month.
pub open spec fn with_default_range(acc: ArgsView) -> ArgsView {
    if acc.1 == "toplist"@ && acc.2 is None {
        (acc.0, acc.1, Some("1M"@), acc.3, acc.4, acc.5)
    } else {
        acc
    }
}

/// Reading `raw[i..]` into `acc`: flags take the next argument as value,
/// every other argument is a query word.
pub open spec fn parse_from(raw: Seq<Seq<char>>, i: int, acc: ArgsView) -> Result<ArgsView, Seq<char>>
    decreases raw.len() - i,
{
    if i < 0 || i >= raw.len() {
        Ok(with_default_range(acc))
    } else {
        let a = raw[i];
        if is_value_flag(a) {
            if i + 1 >= raw.len() {
                Err(a + " needs a value"@)
            } else if a == "--page"@ {
                match text::parse_u32(raw[i + 1]) {
                    Some(p) => if p >= 1 {
                        parse_from(raw, i + 2, (acc.0, acc.1, acc.2, acc.3, acc.4, p))
                    } else {
                        Err("--page needs a number >= 1"@)
                    },
                    None => Err("--page needs a number >= 1"@),
                }
            } else {
                parse_from(raw, i + 2, with_flag(acc, a, raw[i + 1]))
            }
        } else {
            parse_from(raw, i + 1, with_word(acc, a))
        }
    }
}

pub open spec fn string_views(v: Seq<String>) -> Seq<Seq<char>> {
    v.map_values(|s: String| s@)
}

fn copy_string(s: &String) -> (r: String)
    ensures
        r@ == s@,
{
    s.clone()
}

/// The value after the flag at `i`, or the message that it is missing.
pub fn take_value(raw: &Vec<String>, i: usize, flag: &str) -> (r: Result<String, String>)
    requires
        i < raw.len(),
    ensures
        i + 1 < raw.len() ==> r is Ok && r->Ok_0@ == raw@[i + 1]@,
        i + 1 >= raw.len() ==> r is Err && r->Err_0@ == flag@ + " needs a value"@,
{
    if i + 1 < raw.len() {
        Ok(copy_string(&raw[i + 1]))
    } else {
        let mut msg = String::from_str(flag);
        msg.append(" needs a value");
        Err(msg)
    }
}

proof fn lemma_digits_value_grows(s: Seq<char>, k: int)
    requires
        text::all_digits(s),
        0 <= k <= s.len(),
    ensures
        text::digits_value(s) >= text::digits_value(s.take(k)),
    decreases s.len(),
{
    if k < s.len() {
        assert(text::all_digits(s.drop_last()));
        lemma_digits_value_grows(s.drop_last(), k);
        assert(s.drop_last().take(k) =~= s.take(k));
        assert(text::is_digit(s[s.len() - 1]));
    } else {
        assert(s.take(k) =~= s);
    }
}

/// Parses the decimal text of a `u32` (`str::parse::<u32>`).
pub fn parse_u32_text(s: &str) -> (r: Option<u32>)
    ensures
        r == text::parse_u32(s@),
{
    let v = chars_of(s);
    let n = v.len();
    let start: usize = if n > 1 && v[0] == '+' {
        1
    } else {
        0
    };
    let ghost digits = v@.skip(start as int);
    proof {
        if start == 1 {
            assert(digits =~= s@.drop_first());
        } else {
            assert(digits =~= s@);
        }
    }
    if start == n {
        return None;
    }
    let mut acc: u64 = 0;
    let mut i = start;
    assert(text::parse_u32(s@) == (if digits.len() > 0 && text::all_digits(digits)
        && text::digits_value(digits) <= u32::MAX {
        Some(text::digits_value(digits) as u32)
    } else {
        None
    }));
    while i < n
        invariant
            start <= i <= n == v.len(),
            v@ == s@,
            start < n,
            text::parse_u32(s@) == (if digits.len() > 0 && text::all_digits(digits)
                && text::digits_value(digits) <= u32::MAX {
                Some(text::digits_value(digits) as u32)
            } else {
                None
            }),
            digits == v@.skip(start as int),
            acc as nat == text::digits_value(v@.subrange(start as int, i as int)),
            acc <= u32::MAX,
            forall|j: int| start <= j < i ==> text::is_digit(v@[j]),
        decreases n - i,
    {
        let c = v[i];
        if !('0' <= c && c <= '9') {
            assert(digits[i - start] == c);
            assert(!text::all_digits(digits));
            return None;
        }
        let d = (c as u32 - '0' as u32) as u64;
        let next = acc * 10 + d;
        proof {
            let p = v@.subrange(start as int, i + 1);
            assert(p.drop_last() =~= v@.subrange(start as int, i as int));
            assert(p.last() == c);
        }
        if next > 0xffff_ffff {
            proof {
                assert(v@.subrange(start as int, i + 1) =~= digits.take(i + 1 - start));
                if text::all_digits(digits) {
                    lemma_digits_value_grows(digits, i + 1 - start);
                }
            }
            return None;
        }
        acc = next;
        i = i + 1;
    }
    proof {
        assert(v@.subrange(start as int, n as int) =~= digits);
    }
    Some(acc as u32)
}


/// A search with no query words, no color and the default sort browses the
/// newest wallpapers instead.
pub open spec fn browse_default(a: ArgsView) -> ArgsView {
    if text::trim(a.0).len() == 0 && a.1 == "relevance"@ && a.3 is None {
        (a.0, "date_added"@, a.2, a.3, a.4, a.5)
    } else {
        a
    }
}

impl SearchArgs {
    /// Reads `walls search` arguments: `--sort`, `--range`, `--color`,
    /// `--seed` and `--page` take the next argument as value, every other
    /// argument is a query word. A toplist search without a range looks at the
    /// last month. Fails on a flag without value and on a page that is not a
    /// number >= 1.
    pub fn parse(raw: &Vec<String>) -> (r: Result<SearchArgs, String>)
        ensures
            match r {
                Ok(a) => parse_from(string_views(raw@), 0, initial_args()) == Ok::<
                    ArgsView,
                    Seq<char>,
                >(a.args_view()),
                Err(e) => parse_from(string_views(raw@), 0, initial_args()) == Err::<
                    ArgsView,
                    Seq<char>,
                >(e@),
            },
    {
        let ghost rv = string_views(raw@);
        let mut args = SearchArgs {
            query: String::new(),
            sort: String::from_str("relevance"),
            range: None,
            color: None,
            seed: None,
            page: 1,
        };
        assert(args.args_view() == initial_args());
        let mut i: usize = 0;
        while i < raw.len()
            invariant
                i <= raw.len(),
                rv == string_views(raw@),
                parse_from(rv, 0, initial_args()) == parse_from(rv, i as int, args.args_view()),
            decreases raw.len() - i,
        {
            let a = raw[i].as_str();
            let ghost before = args.args_view();
            assert(rv[i as int] == a@);
            let is_sort = str_eq(a, "--sort");
            let is_range = str_eq(a, "--range");
            let is_color = str_eq(a, "--color");
            let is_seed = str_eq(a, "--seed");
            let is_page = str_eq(a, "--page");
            if is_sort || is_range || is_color || is_seed || is_page {
                let v = match take_value(raw, i, a) {
                    Ok(v) => v,
                    Err(e) => return Err(e),
                };
                assert(rv[i + 1] == v@);
                if is_page {
                    match parse_u32_text(v.as_str()) {
                        Some(p) => {
                            if p >= 1 {
                                args.page = p;
                            } else {
                                return Err(String::from_str("--page needs a number >= 1"));
                            }
                        },
                        None => return Err(String::from_str("--page needs a number >= 1")),
                    }
                } else if is_sort {
                    args.sort = v;
                } else if is_range {
                    args.range = Some(v);
                } else if is_color {
                    args.color = Some(v);
                } else {
                    args.seed = Some(v);
                }
                i = i + 2;
            } else {
                if !args.query.as_str().is_empty() {
                    text::push_char(&mut args.query, ' ');
                }
                args.query.append(a);
                assert(args.args_view() =~~= with_word(before, a@));
                i = i + 1;
            }
        }
        let ghost acc = args.args_view();
        assert(parse_from(rv, i as int, acc) == Ok::<ArgsView, Seq<char>>(with_default_range(acc)));
        let is_toplist = str_eq(args.sort.as_str(), "toplist");
        if is_toplist && args.range.is_none() {
            args.range = Some(String::from_str("1M"));
        }
        assert(args.args_view() =~~= with_default_range(acc));
        Ok(args)
    }
}


fn opt_str(o: &Option<String>) -> (r: Option<&str>)
    ensures
        api::opt_view(r) == opt_string(*o),
{
    match o {
        Some(s) => Some(s.as_str()),
        None => None,
    }
}

impl SearchArgs {
    /// The API query these arguments ask for.
    pub fn into_query(&self) -> (r: SearchQuery<'_>)
        ensures
            r.q@ == self.query@,
            r.sort@ == self.sort@,
            api::opt_view(r.top_range) == opt_string(self.range),
            api::opt_view(r.color) == opt_string(self.color),
            api::opt_view(r.seed) == opt_string(self.seed),
            r.page == self.page,
    {
        SearchQuery {
            q: self.query.as_str(),
            sort: self.sort.as_str(),
            top_range: opt_str(&self.range),
            color: opt_str(&self.color),
            seed: opt_str(&self.seed),
            page: self.page,
        }
    }

    /// `search` alone (no sort flag) means "latest": like the site's landing
    /// page, an empty query shows the newest SFW wallpapers.
    pub fn apply_browse_default(&mut self)
        ensures
            final(self).args_view() == browse_default(old(self).args_view()),
    {
        let v = chars_of(self.query.as_str());
        let (a, b) = strip_range(&v, 0, v.len(), CharSet::Whitespace);
        assert(v@.subrange(0, v.len() as int) =~= self.query@);
        let relevance = str_eq(self.sort.as_str(), "relevance");
        if a == b && relevance && self.color.is_none() {
            self.sort = String::from_str("date_added");
        }
    }
}

/// Whether an argument is a flag (starts with `--`).
pub open spec fn is_flag(a: Seq<char>) -> bool {
    a.len() >= 2 && a[0] == '-' && a[1] == '-'
}

/// The first argument that is not a flag, or the empty text.
pub open spec fn first_positional(raw: Seq<Seq<char>>) -> Seq<char>
    decreases raw.len(),
{
    if raw.len() == 0 {
        Seq::empty()
    } else if !is_flag(raw[0]) {
        raw[0]
    } else {
        first_positional(raw.drop_first())
    }
}

/// The wallpaper that `walls apply` names: the id in its first argument that
/// is not a flag; a missing or empty id is a usage error.
pub open spec fn apply_id(raw: Seq<Seq<char>>) -> Result<Seq<char>, Seq<char>> {
    let id = api::spec_extract_id(first_positional(raw));
    if id.len() == 0 {
        Err("usage: walls apply <id-or-url>"@)
    } else {
        Ok(id)
    }
}

/// Picks the wallpaper id for `walls apply`.
pub fn apply_target(raw: &Vec<String>) -> (r: Result<String, String>)
    ensures
        match r {
            Ok(id) => apply_id(string_views(raw@)) == Ok::<Seq<char>, Seq<char>>(id@),
            Err(e) => apply_id(string_views(raw@)) == Err::<Seq<char>, Seq<char>>(e@),
        },
{
    let ghost rv = string_views(raw@);
    let mut i: usize = 0;
    assert(rv.skip(0) =~= rv);
    while i < raw.len()
        invariant
            i <= raw.len(),
            rv == string_views(raw@),
            first_positional(rv) == first_positional(rv.skip(i as int)),
        ensures
            i <= raw.len(),
            rv == string_views(raw@),
            first_positional(rv) == first_positional(rv.skip(i as int)),
            i < raw.len() ==> !is_flag(rv[i as int]),
        decreases raw.len() - i,
    {
        let v = chars_of(raw[i].as_str());
        assert(rv.skip(i as int)[0] == v@);
        if !(v.len() >= 2 && v[0] == '-' && v[1] == '-') {
            assert(rv[i as int] == v@);
            break;
        }
        assert(rv.skip(i as int).drop_first() =~= rv.skip(i + 1));
        i = i + 1;
    }
    let id = if i < raw.len() {
        assert(rv.skip(i as int)[0] == raw@[i as int]@);
        extract_id(raw[i].as_str())
    } else {
        assert(rv.skip(i as int).len() == 0);
        extract_id("")
    };
    proof {
        if i >= raw.len() {
            assert(""@ =~= Seq::<char>::empty()) by {
                reveal_strlit("");
            }
        }
    }
    if id.as_str().is_empty() {
        return Err(String::from_str("usage: walls apply <id-or-url>"));
    }
    Ok(id)
}

/// The file name an API wallpaper is saved under, or why it is refused: the
/// URL must pass [`validate_download_url`], and the extension of the file
/// path (lowercased) must be an image extension.
pub open spec fn download_name(path: Seq<char>, id: Seq<char>) -> Result<Seq<char>, Seq<char>> {
    let ext = text::ascii_lower_seq(text::after_last(path, '.'));
    match api::download_url_check(path) {
        Err(e) => Err(e),
        Ok(_) => if views(IMAGE_EXTS@).contains(ext) {
            Ok("wallhaven-"@ + id + "."@ + ext)
        } else {
            Err("refusing to download: unsupported file type "@ + ext)
        },
    }
}

/// Decides where a downloaded wallpaper goes: `wallhaven-<id>.<ext>`.
pub fn download_file_name(path: &str, id: &str) -> (r: Result<String, String>)
    ensures
        match r {
            Ok(n) => download_name(path@, id@) == Ok::<Seq<char>, Seq<char>>(n@),
            Err(e) => download_name(path@, id@) == Err::<Seq<char>, Seq<char>>(e@),
        },
{
    match validate_download_url(path) {
        Ok(()) => {},
        Err(e) => return Err(e),
    }
    let v = chars_of(path);
    let n = v.len();
    let s = after_last_in(&v, 0, n, '.');
    assert(v@.subrange(0, n as int) =~= path@);
    let mut ext = String::new();
    push_lower_range(&mut ext, &v, s, n);
    let ev = chars_of(ext.as_str());
    let ghost e = text::ascii_lower_seq(text::after_last(path@, '.'));
    assert(ext@ =~= e);
    let mut k: usize = 0;
    let mut found = false;
    while k < 6
        invariant
            k <= 6,
            ev@ == e,
            found == exists|j: int| 0 <= j < k && IMAGE_EXTS@[j]@ == e,
        decreases 6 - k,
    {
        let x = chars_of(IMAGE_EXTS[k]);
        let m = range_eq(&x, 0, x.len(), &ev);
        assert(x@.subrange(0, x.len() as int) =~= x@);
        if m {
            found = true;
        }
        k = k + 1;
    }
    assert(found == views(IMAGE_EXTS@).contains(e)) by {
        if found {
            let j = choose|j: int| 0 <= j < 6 && IMAGE_EXTS@[j]@ == e;
            assert(views(IMAGE_EXTS@)[j] == e);
        }
        if views(IMAGE_EXTS@).contains(e) {
            let j = choose|j: int| 0 <= j < views(IMAGE_EXTS@).len() && views(IMAGE_EXTS@)[j] == e;
            assert(IMAGE_EXTS@[j]@ == e);
        }
    }
    if !found {
        let mut msg = String::from_str("refusing to download: unsupported file type ");
        msg.append(ext.as_str());
        return Err(msg);
    }
    let mut name = String::from_str("wallhaven-");
    name.append(id);
    name.append(".");
    name.append(ext.as_str());
    Ok(name)
}

// ----------------------------------------------------------------------------
// Search output
/// `n / unit` with one truncated decimal, then `suffix`.
pub open spec fn scaled(n: nat, unit: nat, suffix: Seq<char>) -> Seq<char> {
    text::decimal(n / unit) + seq!['.'] + text::decimal((n % unit) * 10 / unit) + suffix
}

/// A byte count for people: bytes below 1 KiB, else KiB, MiB or GiB with one
/// truncated decimal.
pub open spec fn human_size(n: nat) -> Seq<char> {
    if n < 1024 {
        text::decimal(n) + " B"@
    } else if n < 1048576 {
        scaled(n, 1024, " KiB"@)
    } else if n < 1073741824 {
        scaled(n, 1048576, " MiB"@)
    } else {
        scaled(n, 1073741824, " GiB"@)
    }
}

fn push_scaled(out: &mut String, n: u64, unit: u64, suffix: &str)
    requires
        0 < unit <= 1073741824,
    ensures
        final(out)@ == old(out)@ + scaled(n as nat, unit as nat, suffix@),
{
    push_decimal(out, n / unit);
    text::push_char(out, '.');
    let r = n % unit;
    assert(r * 10 <= u64::MAX) by (nonlinear_arith)
        requires
            r < unit,
            unit <= 1073741824,
    ;
    push_decimal(out, r * 10 / unit);
    out.append(suffix);
    assert(final(out)@ =~= old(out)@ + scaled(n as nat, unit as nat, suffix@));
}

/// Formats a byte count for people (see [`human_size`]).
pub fn format_size(n: u64) -> (r: String)
    ensures
        r@ == human_size(n as nat),
{
    let mut out = String::new();
    if n < 1024 {
        push_decimal(&mut out, n);
        out.append(" B");
    } else if n < 1048576 {
        push_scaled(&mut out, n, 1024, " KiB");
    } else if n < 1073741824 {
        push_scaled(&mut out, n, 1048576, " MiB");
    } else {
        push_scaled(&mut out, n, 1073741824, " GiB");
    }
    assert(out@ =~= human_size(n as nat));
    out
}

/// The panel entry shown for a wallpaper.
pub open spec fn shows(r: SearchResult, w: Wallpaper) -> bool {
    &&& r.id@ == w.id@
    &&& r.thumb@ == w.thumbs.large@
    &&& r.resolution@ == w.resolution@
    &&& r.size@ == human_size(w.file_size as nat)
    &&& r.views == w.views
    &&& r.favorites == w.favorites
    &&& r.category@ == w.category@
    &&& r.purity@ == w.purity@
    &&& r.created@ == w.created_at@
}

/// The panel entry for one wallpaper.
pub fn search_result(w: &Wallpaper) -> (r: SearchResult)
    ensures
        shows(r, *w),
{
    SearchResult {
        id: copy_string(&w.id),
        thumb: copy_string(&w.thumbs.large),
        resolution: copy_string(&w.resolution),
        size: format_size(w.file_size),
        views: w.views,
        favorites: w.favorites,
        category: copy_string(&w.category),
        purity: copy_string(&w.purity),
        created: copy_string(&w.created_at),
    }
}

/// The stdout payload of `walls search` for an API reply to a request for
/// `requested_page`: one entry per wallpaper, in order, and the page and
/// random seed the API reports (the requested page when it reports none), so
/// that pagination state survives round-trips.
pub fn search_output(response: &SearchResponse, requested_page: u32) -> (r: SearchOut)
    ensures
        r.results.len() == response.data.len(),
        forall|i: int| 0 <= i < r.results.len() ==> shows(#[trigger] r.results@[i], response.data@[i]),
        r.page == match response.meta {
            Some(m) => m.current_page,
            None => requested_page,
        },
        opt_string(r.seed) == match response.meta {
            Some(m) => opt_string(m.seed),
            None => None,
        },
{
    let mut results: Vec<SearchResult> = Vec::new();
    let mut i: usize = 0;
    while i < response.data.len()
        invariant
            i <= response.data.len(),
            results.len() == i,
            forall|j: int| 0 <= j < i ==> shows(#[trigger] results@[j], response.data@[j]),
        decreases response.data.len() - i,
    {
        results.push(search_result(&response.data[i]));
        i = i + 1;
    }
    let (page, seed) = match &response.meta {
        Some(m) => (
            m.current_page,
            match &m.seed {
                Some(s) => Some(copy_string(s)),
                None => None,
            },
        ),
        None => (requested_page, None),
    };
    SearchOut { results, page, seed }
}

proof fn lemma_parse_from_facts(raw: Seq<Seq<char>>, i: int, acc: ArgsView)
    requires
        acc.5 >= 1,
    ensures
        parse_from(raw, i, acc) matches Ok(a) ==> a.5 >= 1 && (a.1 == "toplist"@ ==> a.2 is Some),
    decreases raw.len() - i,
{
    if i < 0 || i >= raw.len() {
    } else {
        let a = raw[i];
        if is_value_flag(a) {
            if i + 1 >= raw.len() {
            } else if a == "--page"@ {
                if let Some(p) = text::parse_u32(raw[i + 1]) {
                    if p >= 1 {
                        lemma_parse_from_facts(raw, i + 2, (acc.0, acc.1, acc.2, acc.3, acc.4, p));
                    }
                }
            } else {
                lemma_parse_from_facts(raw, i + 2, with_flag(acc, a, raw[i + 1]));
            }
        } else {
            lemma_parse_from_facts(raw, i + 1, with_word(acc, a));
        }
    }
}

/// Parsed search arguments always ask for a page >= 1, and a toplist search
/// always carries a range.
pub proof fn parsed_search_args_are_complete(raw: Seq<Seq<char>>)
    ensures
        parse_from(raw, 0, initial_args()) matches Ok(a) ==> a.5 >= 1 && (a.1 == "toplist"@
            ==> a.2 is Some),
{
    lemma_parse_from_facts(raw, 0, initial_args());
}

proof fn lemma_flags_distinct()
    ensures
        "--sort"@ != "--range"@,
        "--sort"@ != "--color"@,
        "--sort"@ != "--seed"@,
        "--sort"@ != "--page"@,
        "--range"@ != "--color"@,
        "--range"@ != "--seed"@,
        "--range"@ != "--page"@,
        "--color"@ != "--seed"@,
        "--color"@ != "--page"@,
        "--seed"@ != "--page"@,
        "--sort"@.len() == 6,
        "--range"@.len() == 7,
        "--color"@.len() == 7,
        "--seed"@.len() == 6,
        "--page"@.len() == 6,
{
    reveal_strlit("--sort");
    reveal_strlit("--range");
    reveal_strlit("--color");
    reveal_strlit("--seed");
    reveal_strlit("--page");
    assert("--sort"@[3] != "--seed"@[3]);
    assert("--sort"@[2] != "--page"@[2]);
    assert("--seed"@[2] != "--page"@[2]);
    assert("--range"@[2] != "--color"@[2]);
}

proof fn lemma_parse_extends(raw: Seq<Seq<char>>, tail: Seq<Seq<char>>, i: int, acc: ArgsView)
    requires
        0 <= i <= raw.len(),
        parse_from(raw, i, acc) is Ok,
    ensures
        exists|fin: ArgsView|
            parse_from(raw, i, acc) == Ok::<ArgsView, Seq<char>>(with_default_range(fin))
                && parse_from(raw + tail, i, acc) == parse_from(raw + tail, raw.len() as int, fin),
    decreases raw.len() - i,
{
    let all = raw + tail;
    if i == raw.len() {
        assert(parse_from(raw, i, acc) == Ok::<ArgsView, Seq<char>>(with_default_range(acc)));
        assert(parse_from(all, i, acc) == parse_from(all, raw.len() as int, acc));
    } else {
        let a = raw[i];
        assert(all[i] == a);
        if is_value_flag(a) {
            assert(i + 1 < raw.len());
            assert(all[i + 1] == raw[i + 1]);
            if a == "--page"@ {
                let p = text::parse_u32(raw[i + 1])->0;
                let next = (acc.0, acc.1, acc.2, acc.3, acc.4, p);
                lemma_parse_extends(raw, tail, i + 2, next);
                let fin = choose|fin: ArgsView|
                    parse_from(raw, i + 2, next) == Ok::<ArgsView, Seq<char>>(with_default_range(fin))
                        && parse_from(all, i + 2, next) == parse_from(all, raw.len() as int, fin);
                assert(parse_from(all, i, acc) == parse_from(all, raw.len() as int, fin));
            } else {
                let next = with_flag(acc, a, raw[i + 1]);
                lemma_parse_extends(raw, tail, i + 2, next);
                let fin = choose|fin: ArgsView|
                    parse_from(raw, i + 2, next) == Ok::<ArgsView, Seq<char>>(with_default_range(fin))
                        && parse_from(all, i + 2, next) == parse_from(all, raw.len() as int, fin);
                assert(parse_from(all, i, acc) == parse_from(all, raw.len() as int, fin));
            }
        } else {
            let next = with_word(acc, a);
            lemma_parse_extends(raw, tail, i + 1, next);
            let fin = choose|fin: ArgsView|
                parse_from(raw, i + 1, next) == Ok::<ArgsView, Seq<char>>(with_default_range(fin))
                    && parse_from(all, i + 1, next) == parse_from(all, raw.len() as int, fin);
            assert(parse_from(all, i, acc) == parse_from(all, raw.len() as int, fin));
        }
    }
}

/// What one more flag or word does to arguments that parse: `--seed v`,
/// `--color v` and `--range v` set that value and change nothing else,
/// `--sort v` sets the sort order, `--page n` sets page `n` for any `n >= 1`,
/// and any other word is appended to the query (after a space when the query
/// is not empty).
pub proof fn appended_arguments_take_effect(raw: Seq<Seq<char>>, v: Seq<char>, n: u32)
    requires
        parse_from(raw, 0, initial_args()) is Ok,
    ensures
        ({
            let a = parse_from(raw, 0, initial_args())->Ok_0;
            &&& parse_from(raw + seq!["--seed"@, v], 0, initial_args()) == Ok::<
                ArgsView,
                Seq<char>,
            >((a.0, a.1, a.2, a.3, Some(v), a.5))
            &&& parse_from(raw + seq!["--color"@, v], 0, initial_args()) == Ok::<
                ArgsView,
                Seq<char>,
            >((a.0, a.1, a.2, Some(v), a.4, a.5))
            &&& parse_from(raw + seq!["--range"@, v], 0, initial_args()) == Ok::<
                ArgsView,
                Seq<char>,
            >((a.0, a.1, Some(v), a.3, a.4, a.5))
            &&& parse_from(raw + seq!["--sort"@, v], 0, initial_args()) matches Ok(b) && b.0
                == a.0 && b.1 == v && b.3 == a.3 && b.4 == a.4 && b.5 == a.5
            &&& n >= 1 ==> parse_from(raw + seq!["--page"@, text::decimal(n as nat)], 0, initial_args())
                == Ok::<ArgsView, Seq<char>>((a.0, a.1, a.2, a.3, a.4, n))
            &&& (v != "--sort"@ && v != "--range"@ && v != "--color"@ && v != "--seed"@ && v
                != "--page"@) ==> parse_from(raw + seq![v], 0, initial_args()) == Ok::<
                ArgsView,
                Seq<char>,
            >((if a.0.len() == 0 {
                v
            } else {
                a.0 + seq![' '] + v
            }, a.1, a.2, a.3, a.4, a.5))
        }),
{
    lemma_flags_distinct();
    text::parse_u32_reads_decimal(n);
    let init = initial_args();
    let k = raw.len() as int;
    let a = parse_from(raw, 0, init)->Ok_0;
    let tails = seq![
        seq!["--seed"@, v],
        seq!["--color"@, v],
        seq!["--range"@, v],
        seq!["--sort"@, v],
        seq!["--page"@, text::decimal(n as nat)],
        seq![v],
    ];
    assert forall|t: int| 0 <= t < 6 implies exists|fin: ArgsView|
        a == with_default_range(fin) && parse_from(raw + #[trigger] tails[t], 0, init) == parse_from(
            raw + tails[t],
            k,
            fin,
        ) by {
        lemma_parse_extends(raw, tails[t], 0, init);
    }
    let fin = choose|fin: ArgsView|
        a == with_default_range(fin) && parse_from(raw + tails[0], 0, init) == parse_from(
            raw + tails[0],
            k,
            fin,
        );
    assert(fin.0 == a.0 && fin.1 == a.1 && fin.3 == a.3 && fin.4 == a.4 && fin.5 == a.5);
    let all = raw + tails[0];
    assert(all[k] == "--seed"@ && all[k + 1] == v);
    assert(parse_from(all, k, fin) == parse_from(all, k + 2, with_flag(fin, "--seed"@, v)));
    let fin1 = choose|fin: ArgsView|
        a == with_default_range(fin) && parse_from(raw + tails[1], 0, init) == parse_from(
            raw + tails[1],
            k,
            fin,
        );
    let all1 = raw + tails[1];
    assert(all1[k] == "--color"@ && all1[k + 1] == v);
    assert(parse_from(all1, k, fin1) == parse_from(all1, k + 2, with_flag(fin1, "--color"@, v)));
    let fin2 = choose|fin: ArgsView|
        a == with_default_range(fin) && parse_from(raw + tails[2], 0, init) == parse_from(
            raw + tails[2],
            k,
            fin,
        );
    let all2 = raw + tails[2];
    assert(all2[k] == "--range"@ && all2[k + 1] == v);
    assert(parse_from(all2, k, fin2) == parse_from(all2, k + 2, with_flag(fin2, "--range"@, v)));
    let fin3 = choose|fin: ArgsView|
        a == with_default_range(fin) && parse_from(raw + tails[3], 0, init) == parse_from(
            raw + tails[3],
            k,
            fin,
        );
    let all3 = raw + tails[3];
    assert(all3[k] == "--sort"@ && all3[k + 1] == v);
    assert(parse_from(all3, k, fin3) == parse_from(all3, k + 2, with_flag(fin3, "--sort"@, v)));
    let fin4 = choose|fin: ArgsView|
        a == with_default_range(fin) && parse_from(raw + tails[4], 0, init) == parse_from(
            raw + tails[4],
            k,
            fin,
        );
    let all4 = raw + tails[4];
    assert(all4[k] == "--page"@ && all4[k + 1] == text::decimal(n as nat));
    let fin5 = choose|fin: ArgsView|
        a == with_default_range(fin) && parse_from(raw + tails[5], 0, init) == parse_from(
            raw + tails[5],
            k,
            fin,
        );
    let all5 = raw + tails[5];
    assert(all5[k] == v);
    assert(parse_from(raw + seq!["--seed"@, v], 0, init) == Ok::<ArgsView, Seq<char>>(
        (a.0, a.1, a.2, a.3, Some(v), a.5),
    ));
    assert(parse_from(raw + seq!["--color"@, v], 0, init) == Ok::<ArgsView, Seq<char>>(
        (a.0, a.1, a.2, Some(v), a.4, a.5),
    ));
    assert(parse_from(raw + seq!["--range"@, v], 0, init) == Ok::<ArgsView, Seq<char>>(
        (a.0, a.1, Some(v), a.3, a.4, a.5),
    ));
    assert(parse_from(raw + seq!["--sort"@, v], 0, init) == Ok::<ArgsView, Seq<char>>(
        with_default_range((fin3.0, v, fin3.2, fin3.3, fin3.4, fin3.5)),
    ));
    assert(fin3.0 == a.0 && fin3.3 == a.3 && fin3.4 == a.4 && fin3.5 == a.5);
    if v != "--sort"@ && v != "--range"@ && v != "--color"@ && v != "--seed"@ && v != "--page"@ {
        assert(!is_value_flag(v));
        assert(parse_from(all5, k, fin5) == parse_from(all5, k + 1, with_word(fin5, v)));
        assert(fin5.0 == a.0 && fin5.1 == a.1 && fin5.3 == a.3 && fin5.4 == a.4 && fin5.5 == a.5);
        assert(parse_from(raw + seq![v], 0, init) == Ok::<ArgsView, Seq<char>>(
            with_default_range(with_word(fin5, v)),
        ));
    }
    if n >= 1 {
        assert(parse_from(all4, k, fin4) == parse_from(all4, k + 2, (fin4.0, fin4.1, fin4.2, fin4.3, fin4.4, n)));
        assert(parse_from(raw + seq!["--page"@, text::decimal(n as nat)], 0, init) == Ok::<ArgsView, Seq<char>>(
            (a.0, a.1, a.2, a.3, a.4, n),
        ));
    }
}

/// When `walls search` browses the newest wallpapers instead: only a search
/// whose query is blank (every character whitespace), whose sort is the
/// default `relevance` and that has no color switches to `date_added`;
/// any query with a visible character keeps its sort order, and nothing but
/// the sort ever changes.
pub proof fn browse_default_rule(a: ArgsView)
    ensures
        (exists|i: int| 0 <= i < a.0.len() && !text::is_whitespace(#[trigger] a.0[i]))
            ==> browse_default(a) == a,
        ((forall|i: int| 0 <= i < a.0.len() ==> text::is_whitespace(#[trigger] a.0[i])) && a.1
            == "relevance"@ && a.3 is None) ==> browse_default(a) == (
            a.0,
            "date_added"@,
            a.2,
            a.3,
            a.4,
            a.5,
        ),
        (a.1 != "relevance"@ || a.3 is Some) ==> browse_default(a) == a,
{
    text::trim_is_empty_iff_blank(a.0);
}

} // verus!
