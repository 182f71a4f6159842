//! Minimal reader for Omarchy theme `colors.toml` files.
//!
//! Only flat `key = "#rrggbb"` pairs are needed, so a line scanner does the
//! work. Unknown lines (tables, arrays, comments) are ignored, which keeps this
//! resilient to theme file variations.
use vstd::prelude::*;

use crate::api::{self, views};
use crate::model::{color_triples, ThemeColor, ThemeColors};
use crate::palette::{self, nearest};
use crate::paths::{self, join};
use crate::text::{
    self, chars_of, find_in, push_lower_range, skip_start, str_eq, string_of, strip_range,
    CharSet,
};

verus! {

/// Keys worth offering as search colors, in display order.
pub const CURATED_KEYS: [&'static str; 8] = [
    "accent",
    "red",
    "orange",
    "yellow",
    "green",
    "cyan",
    "blue",
    "magenta",
];

/// The `(key, hex)` pair that one line holds, if any: a line that is not a
/// comment and holds `=`, whose value (quotes, spaces and a leading `#`
/// removed) is six hex digits. The hex is lowercased.
pub open spec fn color_pair(line: Seq<char>) -> Option<(Seq<char>, Seq<char>)> {
    let t = text::trim(line);
    let i = text::find_char(t, '=');
    if (t.len() > 0 && t[0] == '#') || i == t.len() {
        None
    } else {
        let key = text::trim(t.take(i));
        let value = text::trim(text::strip(text::trim(t.skip(i + 1)), CharSet::Only('"')));
        let hex = text::strip_start(value, CharSet::Only('#'));
        if hex.len() == 6 && text::all_hex(hex) {
            Some((key, text::ascii_lower_seq(hex)))
        } else {
            None
        }
    }
}

/// The pairs of all lines of `s`, in order.
pub open spec fn color_pairs(s: Seq<char>) -> Seq<(Seq<char>, Seq<char>)>
    decreases s.len(),
{
    let i = text::find_char(s, '\n');
    proof {
        text::lemma_find_char_bounds(s, '\n');
    }
    let here = match color_pair(s.take(i)) {
        Some(p) => seq![p],
        None => Seq::empty(),
    };
    if i < s.len() {
        here + color_pairs(s.skip(i + 1))
    } else {
        here
    }
}

/// The text of a list of string pairs.
pub open spec fn pair_views(v: Seq<(String, String)>) -> Seq<(Seq<char>, Seq<char>)> {
    v.map_values(|p: (String, String)| (p.0@, p.1@))
}

/// The pair that `v[lo..hi]` holds as a line.
fn parse_line(v: &Vec<char>, lo: usize, hi: usize) -> (r: Option<(String, String)>)
    requires
        lo <= hi <= v.len(),
    ensures
        match r {
            Some(p) => color_pair(v@.subrange(lo as int, hi as int)) == Some((p.0@, p.1@)),
            None => color_pair(v@.subrange(lo as int, hi as int)) is None,
        },
{
    let ghost line = v@.subrange(lo as int, hi as int);
    let (a, b) = strip_range(v, lo, hi, CharSet::Whitespace);
    let ghost t = v@.subrange(a as int, b as int);
    assert(t == text::trim(line));
    let e = find_in(v, a, b, '=');
    assert(v@.subrange(a as int, b as int) == t);
    if (a < b && v[a] == '#') || e == b {
        return None;
    }
    proof {
        assert(t.take(e - a) =~= v@.subrange(a as int, e as int));
        assert(t.skip(e - a + 1) =~= v@.subrange(e + 1, b as int));
    }
    let (ka, kb) = strip_range(v, a, e, CharSet::Whitespace);
    let (c1, d1) = strip_range(v, e + 1, b, CharSet::Whitespace);
    let (c2, d2) = strip_range(v, c1, d1, CharSet::Only('"'));
    let (c3, d3) = strip_range(v, c2, d2, CharSet::Whitespace);
    let h = skip_start(v, c3, d3, CharSet::Only('#'));
    let ghost hex = v@.subrange(h as int, d3 as int);
    assert(hex == text::strip_start(
        text::trim(text::strip(text::trim(t.skip(e - a + 1)), CharSet::Only('"'))),
        CharSet::Only('#'),
    ));
    proof {
        assert(text::find_char(t, '=') == e - a);
        assert(!((t.len() > 0 && t[0] == '#') || e - a == t.len()));
    }
    if d3 - h != 6 {
        assert(color_pair(line) is None);
        return None;
    }
    assert(!text::all_hex(hex) ==> color_pair(line) is None);
    assert(text::all_hex(hex) ==> color_pair(line) == Some(
        (text::trim(v@.subrange(a as int, e as int)), text::ascii_lower_seq(hex)),
    ));
    let mut i = h;
    while i < d3
        invariant
            h <= i <= d3 <= v.len(),
            d3 - h == 6,
            hex == v@.subrange(h as int, d3 as int),
            line == v@.subrange(lo as int, hi as int),
            !text::all_hex(hex) ==> color_pair(line) is None,
            forall|j: int| h <= j < i ==> text::is_hex_digit(v@[j]),
        decreases d3 - i,
    {
        let c = v[i];
        if !(('0' <= c && c <= '9') || ('a' <= c && c <= 'f') || ('A' <= c && c <= 'F')) {
            assert(hex[i - h] == v@[i as int]);
            assert(!text::all_hex(hex));
            return None;
        }
        i = i + 1;
    }
    assert(text::all_hex(hex));
    let key = string_of(v, ka, kb);
    let mut value = String::new();
    push_lower_range(&mut value, v, h, d3);
    assert(value@ =~= text::ascii_lower_seq(hex));
    Some((key, value))
}

/// Extract `(key, hex)` pairs from a colors.toml body. Hex values may or may
/// not carry the leading '#'; both forms are accepted.
pub fn parse_colors(content: &str) -> (r: Vec<(String, String)>)
    ensures
        pair_views(r@) == color_pairs(content@),
{
    let v = chars_of(content);
    let n = v.len();
    let mut out: Vec<(String, String)> = Vec::new();
    let mut ls: usize = 0;
    assert(v@.skip(0) =~= v@);
    loop
        invariant
            ls <= n == v.len(),
            v@ == content@,
            pair_views(out@) + color_pairs(v@.skip(ls as int)) == color_pairs(v@),
        decreases n - ls,
    {
        let le = find_in(&v, ls, n, '\n');
        let ghost s = v@.skip(ls as int);
        let ghost before = pair_views(out@);
        proof {
            assert(v@.subrange(ls as int, n as int) =~= s);
            assert(s.take(le - ls) =~= v@.subrange(ls as int, le as int));
        }
        let ghost here = match color_pair(v@.subrange(ls as int, le as int)) {
            Some(p) => seq![p],
            None => Seq::<(Seq<char>, Seq<char>)>::empty(),
        };
        match parse_line(&v, ls, le) {
            Some(p) => {
                out.push(p);
            },
            None => {},
        }
        proof {
            assert(pair_views(out@) =~= before + here);
            if le < n {
                assert(s.skip(le - ls + 1) =~= v@.skip(le + 1));
                assert(color_pairs(s) == here + color_pairs(v@.skip(le + 1)));
                assert(before + here + color_pairs(v@.skip(le + 1)) =~= before + (here
                    + color_pairs(v@.skip(le + 1))));
            } else {
                assert(color_pairs(s) == here);
            }
        }
        if le == n {
            return out;
        }
        ls = le + 1;
    }
}

/// The hex of the first pair whose key is `key`.
pub open spec fn find_hex(pairs: Seq<(Seq<char>, Seq<char>)>, key: Seq<char>) -> Option<Seq<char>>
    decreases pairs.len(),
{
    if pairs.len() == 0 {
        None
    } else if pairs[0].0 == key {
        Some(pairs[0].1)
    } else {
        find_hex(pairs.drop_first(), key)
    }
}

/// The curated color list for `keys`: one `(name, hex, matched)` entry per key
/// found in `pairs`, in key order, with `matched` its palette entry; a key
/// whose palette entry an earlier entry already took is left out.
pub open spec fn curated(keys: Seq<Seq<char>>, pairs: Seq<(Seq<char>, Seq<char>)>) -> Seq<
    (Seq<char>, Seq<char>, Seq<char>),
>
    decreases keys.len(),
{
    if keys.len() == 0 {
        Seq::empty()
    } else {
        let prev = curated(keys.drop_last(), pairs);
        let key = keys.last();
        match find_hex(pairs, key) {
            None => prev,
            Some(hex) => match palette::spec_nearest(hex) {
                None => prev,
                Some(m) => if matched_colors(prev).contains(m) {
                    prev
                } else {
                    prev.push((key, hex, m))
                },
            },
        }
    }
}

/// The matched palette entries of a curated list.
pub open spec fn matched_colors(cs: Seq<(Seq<char>, Seq<char>, Seq<char>)>) -> Seq<Seq<char>> {
    cs.map_values(|c: (Seq<char>, Seq<char>, Seq<char>)| c.2)
}

/// The index of the first pair whose key is `key`, or `pairs.len()`.
fn find_pair(pairs: &Vec<(String, String)>, key: &str) -> (r: usize)
    ensures
        r <= pairs.len(),
        r < pairs.len() ==> find_hex(pair_views(pairs@), key@) == Some(pairs@[r as int].1@),
        r == pairs.len() ==> find_hex(pair_views(pairs@), key@) is None,
{
    let ghost pv = pair_views(pairs@);
    let mut i: usize = 0;
    assert(pv.skip(0) =~= pv);
    while i < pairs.len()
        invariant
            i <= pairs.len(),
            pv == pair_views(pairs@),
            find_hex(pv, key@) == find_hex(pv.skip(i as int), key@),
        decreases pairs.len() - i,
    {
        let ghost rest = pv.skip(i as int);
        assert(rest[0] == (pairs@[i as int].0@, pairs@[i as int].1@));
        if str_eq(pairs[i].0.as_str(), key) {
            return i;
        }
        assert(rest.drop_first() =~= pv.skip(i + 1));
        i = i + 1;
    }
    i
}

/// Whether an entry of `colors` already matched `m`.
fn already_matched(colors: &Vec<ThemeColor>, m: &str) -> (r: bool)
    ensures
        r == matched_colors(color_triples(colors@)).contains(m@),
{
    let ghost ms = matched_colors(color_triples(colors@));
    let mut i: usize = 0;
    while i < colors.len()
        invariant
            i <= colors.len(),
            ms == matched_colors(color_triples(colors@)),
            forall|j: int| 0 <= j < i ==> ms[j] != m@,
        decreases colors.len() - i,
    {
        if str_eq(colors[i].matched.as_str(), m) {
            assert(ms[i as int] == m@);
            return true;
        }
        i = i + 1;
    }
    false
}

/// Build the curated color list for `walls theme-colors` from the pairs of
/// the theme's colors.toml: one entry per curated key found, each mapped onto
/// the wallhaven palette. Entries whose mapped palette colors collide are
/// deduplicated - desaturated themes would otherwise produce rows of
/// identical gray searches.
pub fn theme_colors(pairs: &Vec<(String, String)>) -> (r: ThemeColors)
    ensures
        color_triples(r.colors@) == curated(views(CURATED_KEYS@), pair_views(pairs@)),
{
    let ghost keys = views(CURATED_KEYS@);
    let ghost pv = pair_views(pairs@);
    let mut colors: Vec<ThemeColor> = Vec::new();
    let mut i: usize = 0;
    while i < 8
        invariant
            i <= 8,
            keys == views(CURATED_KEYS@),
            pv == pair_views(pairs@),
            color_triples(colors@) == curated(keys.take(i as int), pv),
        decreases 8 - i,
    {
        let key = CURATED_KEYS[i];
        let ghost prev = color_triples(colors@);
        proof {
            let t = keys.take(i + 1);
            assert(t.drop_last() =~= keys.take(i as int));
            assert(t.last() == key@);
        }
        let j = find_pair(pairs, key);
        if j < pairs.len() {
            let hex = &pairs[j].1;
            if let Some(m) = nearest(hex.as_str()) {
                if !already_matched(&colors, m) {
                    colors.push(
                        ThemeColor {
                            name: String::from_str(key),
                            hex: hex.clone(),
                            matched: String::from_str(m),
                        },
                    );
                    assert(color_triples(colors@) =~= prev.push((key@, hex@, m@)));
                }
            }
        }
        i = i + 1;
    }
    assert(keys.take(8) =~= keys);
    ThemeColors { colors }
}

/// Where the active theme's colors.toml may be, best first: the omarchy
/// state copy (always reflects the applied theme), then the user overlay of
/// the named theme, then stock.
pub open spec fn colors_path_candidates(home: Seq<char>, theme_name: Seq<char>) -> Seq<Seq<char>> {
    seq![
        paths::path_join(home, ".local/state/omarchy/current/theme/colors.toml"@),
        paths::path_join(home, ".config/omarchy/themes/"@ + theme_name + "/colors.toml"@),
        paths::path_join(home, ".local/share/omarchy/default/themes/current/colors.toml"@),
    ]
}

/// The state copy of the active theme's colors.toml under `home`.
pub fn state_colors_path(home: &str) -> (r: String)
    ensures
        r@ == paths::path_join(home@, ".local/state/omarchy/current/theme/colors.toml"@),
{
    join(home, ".local/state/omarchy/current/theme/colors.toml")
}

/// The places to look for the active theme's colors.toml, best first; the
/// caller takes the first that is a file.
pub fn colors_path_candidates_for(home: &str, theme_name: &str) -> (r: Vec<String>)
    ensures
        r@.map_values(|s: String| s@) == colors_path_candidates(home@, theme_name@),
{
    let mut rel = String::from_str(".config/omarchy/themes/");
    rel.append(theme_name);
    rel.append("/colors.toml");
    let mut out: Vec<String> = Vec::new();
    out.push(state_colors_path(home));
    out.push(join(home, rel.as_str()));
    out.push(join(home, ".local/share/omarchy/default/themes/current/colors.toml"));
    assert(out@.map_values(|s: String| s@) =~= colors_path_candidates(home@, theme_name@));
    out
}

/// The theme name that a `theme.name` file body gives (trimmed), or
/// `fallback` when the file could not be read.
pub fn theme_name_or(contents: Option<&str>, fallback: &str) -> (r: String)
    ensures
        r@ == match contents {
            Some(c) => text::trim(c@),
            None => fallback@,
        },
{
    match contents {
        Some(c) => {
            let v = chars_of(c);
            let (a, b) = strip_range(&v, 0, v.len(), CharSet::Whitespace);
            assert(v@.subrange(0, v.len() as int) =~= c@);
            string_of(&v, a, b)
        },
        None => String::from_str(fallback),
    }
}

/// The curated list follows `keys`: entry `i` comes from key `pos[i]`, and
/// the positions strictly increase.
pub open spec fn follows_keys(
    out: Seq<(Seq<char>, Seq<char>, Seq<char>)>,
    keys: Seq<Seq<char>>,
    pos: Seq<int>,
) -> bool {
    &&& pos.len() == out.len()
    &&& forall|i: int| 0 <= i < pos.len() ==> 0 <= #[trigger] pos[i] < keys.len()
    &&& forall|i: int| 0 <= i < pos.len() ==> keys[#[trigger] pos[i]] == out[i].0
    &&& forall|i: int, j: int| 0 <= i < j < pos.len() ==> #[trigger] pos[i] < #[trigger] pos[j]
}

/// Curated theme colors: no two entries share a palette color; each entry is
/// its key's first hex in the file with that hex's palette entry; and the
/// entries come in key order.
pub proof fn curated_colors_are_distinct_and_ordered(
    keys: Seq<Seq<char>>,
    pairs: Seq<(Seq<char>, Seq<char>)>,
)
    ensures
        matched_colors(curated(keys, pairs)).no_duplicates(),
        forall|i: int|
            0 <= i < curated(keys, pairs).len() ==> {
                let e = #[trigger] curated(keys, pairs)[i];
                &&& find_hex(pairs, e.0) == Some(e.1)
                &&& palette::spec_nearest(e.1) == Some(e.2)
            },
        exists|pos: Seq<int>| follows_keys(curated(keys, pairs), keys, pos),
    decreases keys.len(),
{
    if keys.len() == 0 {
        assert(follows_keys(curated(keys, pairs), keys, Seq::<int>::empty()));
    } else {
        let front = keys.drop_last();
        curated_colors_are_distinct_and_ordered(front, pairs);
        let prev = curated(front, pairs);
        let pos = choose|pos: Seq<int>| follows_keys(prev, front, pos);
        let out = curated(keys, pairs);
        assert(follows_keys(prev, keys, pos)) by {
            assert forall|i: int| 0 <= i < pos.len() implies keys[#[trigger] pos[i]]
                == prev[i].0 by {
                assert(front[pos[i]] == keys[pos[i]]);
            }
        }
        if out != prev {
            let key = keys.last();
            let hex = find_hex(pairs, key)->0;
            let m = palette::spec_nearest(hex)->0;
            assert(out == prev.push((key, hex, m)));
            assert(!matched_colors(prev).contains(m));
            assert(matched_colors(out) =~= matched_colors(prev).push(m));
            assert forall|i: int, j: int|
                0 <= i < j < matched_colors(out).len() implies matched_colors(out)[i]
                != matched_colors(out)[j] by {
                if j == matched_colors(out).len() - 1 {
                    assert(matched_colors(prev)[i] == matched_colors(out)[i]);
                } else {
                    assert(matched_colors(prev)[i] == matched_colors(out)[i]);
                    assert(matched_colors(prev)[j] == matched_colors(out)[j]);
                }
            }
            let pos2 = pos.push(keys.len() - 1);
            assert(follows_keys(out, keys, pos2)) by {
                assert forall|i: int| 0 <= i < pos2.len() implies keys[#[trigger] pos2[i]]
                    == out[i].0 by {
                    if i < pos.len() {
                        assert(pos2[i] == pos[i]);
                    }
                }
                assert forall|i: int, j: int| 0 <= i < j < pos2.len() implies #[trigger] pos2[i]
                    < #[trigger] pos2[j] by {
                    if j < pos.len() {
                        assert(pos2[i] == pos[i] && pos2[j] == pos[j]);
                    } else {
                        assert(pos2[i] == pos[i]);
                    }
                }
            }
            assert forall|i: int| 0 <= i < out.len() implies {
                let e = #[trigger] out[i];
                &&& find_hex(pairs, e.0) == Some(e.1)
                &&& palette::spec_nearest(e.1) == Some(e.2)
            } by {
                if i < prev.len() {
                    assert(out[i] == prev[i]);
                }
            }
        }
    }
}

/// Six lowercase hexadecimal digits.
pub open spec fn is_lower_hex6(s: Seq<char>) -> bool {
    &&& s.len() == 6
    &&& forall|i: int| 0 <= i < s.len() ==> ('0' <= #[trigger] s[i] <= '9' || 'a' <= s[i] <= 'f')
}

proof fn lemma_color_pair_hex(line: Seq<char>)
    ensures
        color_pair(line) matches Some(p) ==> is_lower_hex6(p.1),
{
    if let Some(p) = color_pair(line) {
        let t = text::trim(line);
        let i = text::find_char(t, '=');
        let value = text::trim(text::strip(text::trim(t.skip(i + 1)), CharSet::Only('"')));
        let hex = text::strip_start(value, CharSet::Only('#'));
        assert(p.1 == text::ascii_lower_seq(hex));
        assert forall|j: int| 0 <= j < p.1.len() implies ('0' <= #[trigger] p.1[j] <= '9' || 'a'
            <= p.1[j] <= 'f') by {
            assert(text::is_hex_digit(hex[j]));
            assert(p.1[j] == text::ascii_lower(hex[j]));
        }
    }
}

/// Every hex that `parse_colors` yields is six lowercase hex digits, whatever
/// the file held.
pub proof fn parsed_colors_are_lowercase_hex(s: Seq<char>)
    ensures
        forall|i: int| 0 <= i < color_pairs(s).len() ==> is_lower_hex6(#[trigger] color_pairs(s)[i].1),
    decreases s.len(),
{
    let i = text::find_char(s, '\n');
    text::lemma_find_char_bounds(s, '\n');
    lemma_color_pair_hex(s.take(i));
    let here = match color_pair(s.take(i)) {
        Some(p) => seq![p],
        None => Seq::empty(),
    };
    if i < s.len() {
        parsed_colors_are_lowercase_hex(s.skip(i + 1));
        let rest = color_pairs(s.skip(i + 1));
        assert forall|j: int| 0 <= j < (here + rest).len() implies is_lower_hex6(
            #[trigger] (here + rest)[j].1,
        ) by {
            if j >= here.len() {
                assert((here + rest)[j] == rest[j - here.len()]);
            }
        }
    }
}

/// Every color that `walls theme-colors` offers is accepted as `--color` by
/// a search with a known sort order.
pub proof fn theme_colors_are_valid_search_colors(
    keys: Seq<Seq<char>>,
    pairs: Seq<(Seq<char>, Seq<char>)>,
    sort: Seq<char>,
    i: int,
)
    requires
        0 <= i < curated(keys, pairs).len(),
        views(api::SORTS@).contains(sort),
    ensures
        api::validation(sort, None, Some(curated(keys, pairs)[i].2)) is Ok,
{
    curated_colors_are_distinct_and_ordered(keys, pairs);
    let e = curated(keys, pairs)[i];
    palette::nearest_is_palette_entry(e.1);
    let k = choose|k: int| 0 <= k < palette::palette_len() && e.2 == #[trigger] palette::palette_hex(k);
    palette::palette_hex_spells_rgb(k);
}

/// `find_hex` gives the hex of the first pair with the key, and nothing
/// when no pair has it.
pub proof fn find_hex_is_first_match(pairs: Seq<(Seq<char>, Seq<char>)>, key: Seq<char>)
    ensures
        find_hex(pairs, key) matches Some(h) ==> exists|j: int|
            0 <= j < pairs.len() && #[trigger] pairs[j] == (key, h) && forall|i: int|
                0 <= i < j ==> (#[trigger] pairs[i]).0 != key,
        find_hex(pairs, key) is None ==> forall|i: int|
            0 <= i < pairs.len() ==> (#[trigger] pairs[i]).0 != key,
    decreases pairs.len(),
{
    if pairs.len() > 0 && pairs[0].0 != key {
        let rest = pairs.drop_first();
        find_hex_is_first_match(rest, key);
        if let Some(h) = find_hex(pairs, key) {
            let j = choose|j: int|
                0 <= j < rest.len() && #[trigger] rest[j] == (key, h) && forall|i: int|
                    0 <= i < j ==> (#[trigger] rest[i]).0 != key;
            assert(pairs[j + 1] == (key, h));
            assert forall|i: int| 0 <= i < j + 1 implies (#[trigger] pairs[i]).0 != key by {
                if i > 0 {
                    assert(pairs[i] == rest[i - 1]);
                }
            }
        } else {
            assert forall|i: int| 0 <= i < pairs.len() implies (#[trigger] pairs[i]).0 != key by {
                if i > 0 {
                    assert(pairs[i] == rest[i - 1]);
                }
            }
        }
    } else if pairs.len() > 0 {
        assert(pairs[0] == (key, pairs[0].1));
    }
}

/// Completeness of the curated list: every key is looked at. When key `k`
/// has a hex in the file that maps onto palette entry `m`, the list holds an
/// entry matching `m`; and when no earlier key's hex maps onto `m`, that entry
/// is key `k`'s own `(key, hex, m)`.
pub proof fn curated_is_complete(
    keys: Seq<Seq<char>>,
    pairs: Seq<(Seq<char>, Seq<char>)>,
    k: int,
    h: Seq<char>,
    m: Seq<char>,
)
    requires
        0 <= k < keys.len(),
        find_hex(pairs, keys[k]) == Some(h),
        palette::spec_nearest(h) == Some(m),
    ensures
        matched_colors(curated(keys, pairs)).contains(m),
        (forall|q: int|
            0 <= q < k ==> !(find_hex(pairs, #[trigger] keys[q]) matches Some(g)
                && palette::spec_nearest(g) == Some(m))) ==> curated(keys, pairs).contains(
            (keys[k], h, m),
        ),
    decreases keys.len(),
{
    let front = keys.drop_last();
    let prev = curated(front, pairs);
    let out = curated(keys, pairs);
    assert(out == prev || out == prev.push((keys.last(), find_hex(pairs, keys.last())->0,
        palette::spec_nearest(find_hex(pairs, keys.last())->0)->0)));
    if k < keys.len() - 1 {
        assert(front[k] == keys[k]);
        curated_is_complete(front, pairs, k, h, m);
        let i = choose|i: int| 0 <= i < matched_colors(prev).len() && matched_colors(prev)[i] == m;
        assert(matched_colors(out)[i] == matched_colors(prev)[i]);
        if forall|q: int|
            0 <= q < k ==> !(find_hex(pairs, #[trigger] keys[q]) matches Some(g)
                && palette::spec_nearest(g) == Some(m)) {
            assert forall|q: int|
                0 <= q < k implies !(find_hex(pairs, #[trigger] front[q]) matches Some(g)
                && palette::spec_nearest(g) == Some(m)) by {
                assert(front[q] == keys[q]);
            }
            let t = (keys[k], h, m);
            let x = choose|x: int| 0 <= x < prev.len() && prev[x] == t;
            assert(out[x] == prev[x]);
        }
    } else {
        assert(keys.last() == keys[k]);
        if matched_colors(prev).contains(m) {
            assert(out == prev);
            // some earlier key's hex maps onto m
            curated_colors_are_distinct_and_ordered(front, pairs);
            let i = choose|i: int| 0 <= i < matched_colors(prev).len() && matched_colors(prev)[i] == m;
            let e = prev[i];
            assert(e.2 == m);
            let pos = choose|pos: Seq<int>| follows_keys(prev, front, pos);
            let q = pos[i];
            assert(front[q] == e.0);
            assert(keys[q] == e.0);
            assert(find_hex(pairs, keys[q]) == Some(e.1));
        } else {
            assert(out == prev.push((keys[k], h, m)));
            assert(out[prev.len() as int] == (keys[k], h, m));
            assert(matched_colors(out)[prev.len() as int] == m);
        }
    }
}

} // verus!
