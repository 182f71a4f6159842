//! The wallhaven.cc search API accepts colors from a fixed 28-entry palette.
//! Theme colors are mapped onto the nearest palette entry by weighted RGB
//! distance so "match my theme" searches stay within what the API supports.
use vstd::prelude::*;

use crate::text::{self, chars_of, skip_start, strip_range, CharSet};

verus! {

/// `(hex without '#', human name)`, as documented at https://wallhaven.cc/help/api.
/// The four grayscale entries come last.
pub const PALETTE: [(&'static str, &'static str); 28] = [
    ("660000", "dark red"),
    ("990000", "red"),
    ("cc0000", "bright red"),
    ("cc3333", "tomato"),
    ("ea4c88", "pink"),
    ("993399", "purple"),
    ("663399", "violet"),
    ("333399", "indigo"),
    ("0066cc", "blue"),
    ("0099cc", "sky blue"),
    ("66cccc", "teal"),
    ("77cc33", "grass green"),
    ("669900", "light green"),
    ("336600", "green"),
    ("666600", "olive"),
    ("999900", "dark yellow"),
    ("cccc33", "lime"),
    ("ffff00", "yellow"),
    ("ffcc33", "gold"),
    ("ff9900", "orange"),
    ("ff6600", "bright orange"),
    ("cc6633", "brown"),
    ("996633", "light brown"),
    ("663300", "dark brown"),
    ("000000", "black"),
    ("999999", "dark gray"),
    ("cccccc", "light gray"),
    ("ffffff", "white"),
];

/// Number of palette entries.
pub open spec fn palette_len() -> int {
    28
}

/// Index of the first grayscale entry; the entries from here on are grays.
pub open spec fn first_gray() -> int {
    24
}

/// The hex text of palette entry `i`.
pub open spec fn palette_hex(i: int) -> Seq<char> {
    PALETTE[i].0@
}

/// The RGB value of palette entry `i`.
pub open spec fn palette_rgb(i: int) -> (int, int, int) {
    if i == 0 {
        (0x66, 0x00, 0x00)
    } else if i == 1 {
        (0x99, 0x00, 0x00)
    } else if i == 2 {
        (0xcc, 0x00, 0x00)
    } else if i == 3 {
        (0xcc, 0x33, 0x33)
    } else if i == 4 {
        (0xea, 0x4c, 0x88)
    } else if i == 5 {
        (0x99, 0x33, 0x99)
    } else if i == 6 {
        (0x66, 0x33, 0x99)
    } else if i == 7 {
        (0x33, 0x33, 0x99)
    } else if i == 8 {
        (0x00, 0x66, 0xcc)
    } else if i == 9 {
        (0x00, 0x99, 0xcc)
    } else if i == 10 {
        (0x66, 0xcc, 0xcc)
    } else if i == 11 {
        (0x77, 0xcc, 0x33)
    } else if i == 12 {
        (0x66, 0x99, 0x00)
    } else if i == 13 {
        (0x33, 0x66, 0x00)
    } else if i == 14 {
        (0x66, 0x66, 0x00)
    } else if i == 15 {
        (0x99, 0x99, 0x00)
    } else if i == 16 {
        (0xcc, 0xcc, 0x33)
    } else if i == 17 {
        (0xff, 0xff, 0x00)
    } else if i == 18 {
        (0xff, 0xcc, 0x33)
    } else if i == 19 {
        (0xff, 0x99, 0x00)
    } else if i == 20 {
        (0xff, 0x66, 0x00)
    } else if i == 21 {
        (0xcc, 0x66, 0x33)
    } else if i == 22 {
        (0x99, 0x66, 0x33)
    } else if i == 23 {
        (0x66, 0x33, 0x00)
    } else if i == 24 {
        (0x00, 0x00, 0x00)
    } else if i == 25 {
        (0x99, 0x99, 0x99)
    } else if i == 26 {
        (0xcc, 0xcc, 0xcc)
    } else {
        (0xff, 0xff, 0xff)
    }
}

/// The text that `nearest` reads: trimmed, leading `#`s removed.
pub open spec fn hex_body(s: Seq<char>) -> Seq<char> {
    text::strip_start(text::trim(s), CharSet::Only('#'))
}

pub open spec fn hex_byte(h: Seq<char>, i: int) -> int {
    text::hex_value(h[i]) * 16 + text::hex_value(h[i + 1])
}

/// The color that `s` spells as `[#]rrggbb` (surrounding whitespace allowed,
/// either case), or `None`.
pub open spec fn parse_rgb(s: Seq<char>) -> Option<(int, int, int)> {
    let h = hex_body(s);
    if h.len() == 6 && text::all_hex(h) {
        Some((hex_byte(h, 0), hex_byte(h, 2), hex_byte(h, 4)))
    } else {
        None
    }
}

/// Weighted squared RGB distance; its square root approximates perceived
/// color difference, and the square orders colors the same way.
pub open spec fn weighted_distance(a: (int, int, int), b: (int, int, int)) -> int {
    2 * square(a.0 - b.0) + 4 * square(a.1 - b.1) + 3 * square(a.2 - b.2)
}

pub open spec fn square(x: int) -> int {
    x * x
}

/// The first of the entries `0..n` closest to `rgb`.
pub open spec fn closest_index(rgb: (int, int, int), n: int) -> int
    decreases n,
{
    if n <= 1 {
        0
    } else {
        let k = closest_index(rgb, n - 1);
        if weighted_distance(rgb, palette_rgb(n - 1)) < weighted_distance(rgb, palette_rgb(k)) {
            n - 1
        } else {
            k
        }
    }
}

pub open spec fn max3(a: int, b: int, c: int) -> int {
    if a >= b && a >= c {
        a
    } else if b >= c {
        b
    } else {
        c
    }
}

pub open spec fn min3(a: int, b: int, c: int) -> int {
    if a <= b && a <= c {
        a
    } else if b <= c {
        b
    } else {
        c
    }
}

/// Near-neutral colors (channels within 24 of each other) read as gray.
pub open spec fn near_neutral(rgb: (int, int, int)) -> bool {
    max3(rgb.0, rgb.1, rgb.2) - min3(rgb.0, rgb.1, rgb.2) < 24
}

/// Luma in thousandths: 0.299 R + 0.587 G + 0.114 B.
pub open spec fn luma_milli(rgb: (int, int, int)) -> int {
    299 * rgb.0 + 587 * rgb.1 + 114 * rgb.2
}

/// The grayscale entry for a near-neutral color: the gray whose own luma
/// (0, 153, 204, 255) is nearest, the bounds lying at the midpoints between
/// them (76.5, 178.5, 229.5).
pub open spec fn gray_index(rgb: (int, int, int)) -> int {
    let l = luma_milli(rgb);
    if l < 76500 {
        24
    } else if l < 178500 {
        25
    } else if l < 229500 {
        26
    } else {
        27
    }
}

/// The palette entry that a color maps onto.
pub open spec fn nearest_index(rgb: (int, int, int)) -> int {
    if near_neutral(rgb) {
        gray_index(rgb)
    } else {
        closest_index(rgb, palette_len())
    }
}

/// What `nearest` returns for `s`.
pub open spec fn spec_nearest(s: Seq<char>) -> Option<Seq<char>> {
    match parse_rgb(s) {
        Some(rgb) => Some(palette_hex(nearest_index(rgb))),
        None => None,
    }
}

proof fn lemma_closest_index(rgb: (int, int, int), n: int)
    requires
        1 <= n,
    ensures
        0 <= closest_index(rgb, n) < n,
        forall|j: int|
            0 <= j < n ==> weighted_distance(rgb, palette_rgb(closest_index(rgb, n)))
                <= weighted_distance(rgb, #[trigger] palette_rgb(j)),
        forall|j: int|
            0 <= j < closest_index(rgb, n) ==> weighted_distance(
                rgb,
                palette_rgb(closest_index(rgb, n)),
            ) < weighted_distance(rgb, #[trigger] palette_rgb(j)),
    decreases n,
{
    if n > 1 {
        lemma_closest_index(rgb, n - 1);
    }
}

fn palette_rgb_at(i: usize) -> (r: (u32, u32, u32))
    requires
        i < 28,
    ensures
        (r.0 as int, r.1 as int, r.2 as int) == palette_rgb(i as int),
{
    if i == 0 {
        (0x66, 0x00, 0x00)
    } else if i == 1 {
        (0x99, 0x00, 0x00)
    } else if i == 2 {
        (0xcc, 0x00, 0x00)
    } else if i == 3 {
        (0xcc, 0x33, 0x33)
    } else if i == 4 {
        (0xea, 0x4c, 0x88)
    } else if i == 5 {
        (0x99, 0x33, 0x99)
    } else if i == 6 {
        (0x66, 0x33, 0x99)
    } else if i == 7 {
        (0x33, 0x33, 0x99)
    } else if i == 8 {
        (0x00, 0x66, 0xcc)
    } else if i == 9 {
        (0x00, 0x99, 0xcc)
    } else if i == 10 {
        (0x66, 0xcc, 0xcc)
    } else if i == 11 {
        (0x77, 0xcc, 0x33)
    } else if i == 12 {
        (0x66, 0x99, 0x00)
    } else if i == 13 {
        (0x33, 0x66, 0x00)
    } else if i == 14 {
        (0x66, 0x66, 0x00)
    } else if i == 15 {
        (0x99, 0x99, 0x00)
    } else if i == 16 {
        (0xcc, 0xcc, 0x33)
    } else if i == 17 {
        (0xff, 0xff, 0x00)
    } else if i == 18 {
        (0xff, 0xcc, 0x33)
    } else if i == 19 {
        (0xff, 0x99, 0x00)
    } else if i == 20 {
        (0xff, 0x66, 0x00)
    } else if i == 21 {
        (0xcc, 0x66, 0x33)
    } else if i == 22 {
        (0x99, 0x66, 0x33)
    } else if i == 23 {
        (0x66, 0x33, 0x00)
    } else if i == 24 {
        (0x00, 0x00, 0x00)
    } else if i == 25 {
        (0x99, 0x99, 0x99)
    } else if i == 26 {
        (0xcc, 0xcc, 0xcc)
    } else {
        (0xff, 0xff, 0xff)
    }
}

fn hex_digit_value(c: char) -> (r: u32)
    requires
        text::is_hex_digit(c),
    ensures
        r as int == text::hex_value(c),
        r < 16,
{
    if '0' <= c && c <= '9' {
        (c as u32) - ('0' as u32)
    } else if 'a' <= c && c <= 'f' {
        (c as u32) - ('a' as u32) + 10
    } else {
        (c as u32) - ('A' as u32) + 10
    }
}

fn is_hex_digit_char(c: char) -> (r: bool)
    ensures
        r == text::is_hex_digit(c),
{
    ('0' <= c && c <= '9') || ('a' <= c && c <= 'f') || ('A' <= c && c <= 'F')
}

/// The color `hex` spells, or `None` (the parsing half of `nearest`).
pub fn hex_to_rgb(hex: &str) -> (r: Option<(u32, u32, u32)>)
    ensures
        r is None <==> parse_rgb(hex@) is None,
        r matches Some(c) ==> parse_rgb(hex@) == Some((c.0 as int, c.1 as int, c.2 as int)),
        r matches Some(c) ==> c.0 < 256 && c.1 < 256 && c.2 < 256,
{
    let v = chars_of(hex);
    let (a, b) = strip_range(&v, 0, v.len(), CharSet::Whitespace);
    let s = skip_start(&v, a, b, CharSet::Only('#'));
    proof {
        assert(v@.subrange(0, v.len() as int) =~= hex@);
    }
    let ghost h = v@.subrange(s as int, b as int);
    assert(h == hex_body(hex@));
    if b - s != 6 {
        return None;
    }
    let mut i = s;
    while i < b
        invariant
            s <= i <= b <= v.len(),
            b - s == 6,
            h == v@.subrange(s as int, b as int),
            h == hex_body(hex@),
            forall|j: int| s <= j < i ==> text::is_hex_digit(v@[j]),
        decreases b - i,
    {
        if !is_hex_digit_char(v[i]) {
            assert(h[i - s] == v@[i as int]);
            assert(!text::all_hex(h));
            return None;
        }
        i = i + 1;
    }
    assert(text::all_hex(h));
    let r = hex_digit_value(v[s]) * 16 + hex_digit_value(v[s + 1]);
    let g = hex_digit_value(v[s + 2]) * 16 + hex_digit_value(v[s + 3]);
    let bl = hex_digit_value(v[s + 4]) * 16 + hex_digit_value(v[s + 5]);
    Some((r, g, bl))
}

fn weighted_distance_exec(a: (u32, u32, u32), b: (u32, u32, u32)) -> (d: u64)
    requires
        a.0 < 256 && a.1 < 256 && a.2 < 256,
        b.0 < 256 && b.1 < 256 && b.2 < 256,
    ensures
        d as int == weighted_distance(
            (a.0 as int, a.1 as int, a.2 as int),
            (b.0 as int, b.1 as int, b.2 as int),
        ),
{
    let dr: i64 = a.0 as i64 - b.0 as i64;
    let dg: i64 = a.1 as i64 - b.1 as i64;
    let db: i64 = a.2 as i64 - b.2 as i64;
    assert(0 <= dr * dr <= 65025) by (nonlinear_arith)
        requires
            -255 <= dr <= 255,
    ;
    assert(0 <= dg * dg <= 65025) by (nonlinear_arith)
        requires
            -255 <= dg <= 255,
    ;
    assert(0 <= db * db <= 65025) by (nonlinear_arith)
        requires
            -255 <= db <= 255,
    ;
    let sr = dr * dr;
    let sg = dg * dg;
    let sb = db * db;
    (2 * sr + 4 * sg + 3 * sb) as u64
}

/// Map any hex color onto the closest wallhaven.cc palette entry.
/// Returns `None` when the input is not a valid `#rrggbb` string.
pub fn nearest(hex: &str) -> (r: Option<&'static str>)
    ensures
        r is None <==> parse_rgb(hex@) is None,
        r matches Some(m) ==> Some(m@) == spec_nearest(hex@),
{
    let rgb = match hex_to_rgb(hex) {
        Some(c) => c,
        None => return None,
    };
    let ghost g = (rgb.0 as int, rgb.1 as int, rgb.2 as int);
    let mx = if rgb.0 >= rgb.1 && rgb.0 >= rgb.2 {
        rgb.0
    } else if rgb.1 >= rgb.2 {
        rgb.1
    } else {
        rgb.2
    };
    let mn = if rgb.0 <= rgb.1 && rgb.0 <= rgb.2 {
        rgb.0
    } else if rgb.1 <= rgb.2 {
        rgb.1
    } else {
        rgb.2
    };
    // Near-neutral colors read as gray no matter their faint tint; without
    // this snap the weighted distance happily lands them on dark browns.
    if mx - mn < 24 {
        let luma = 299 * rgb.0 + 587 * rgb.1 + 114 * rgb.2;
        let k: usize = if luma < 76500 {
            24
        } else if luma < 178500 {
            25
        } else if luma < 229500 {
            26
        } else {
            27
        };
        assert(k == nearest_index(g));
        return Some(PALETTE[k].0);
    }
    // Grayscale entries sit at the end of the palette, so tinted colors are
    // compared against the hues first and a gray wins only when strictly closer.
    let mut best: usize = 0;
    let mut best_d = weighted_distance_exec(rgb, palette_rgb_at(0));
    let mut i: usize = 1;
    while i < 28
        invariant
            1 <= i <= 28,
            rgb.0 < 256 && rgb.1 < 256 && rgb.2 < 256,
            g == (rgb.0 as int, rgb.1 as int, rgb.2 as int),
            best as int == closest_index(g, i as int),
            best < i,
            best_d as int == weighted_distance(g, palette_rgb(best as int)),
        decreases 28 - i,
    {
        let c = palette_rgb_at(i);
        let d = weighted_distance_exec(rgb, c);
        if d < best_d {
            best = i;
            best_d = d;
        }
        i = i + 1;
    }
    assert(!near_neutral(g));
    Some(PALETTE[best].0)
}

} // verus!

verus! {

/// Palette entry `i`'s hex text spells its RGB value: the two tables agree.
pub proof fn palette_hex_spells_rgb(i: int)
    requires
        0 <= i < palette_len(),
    ensures
        parse_rgb(palette_hex(i)) == Some(palette_rgb(i)),
{
    if i == 0 {
        reveal_strlit("660000");
        assert(palette_hex(i) =~= seq!['6', '6', '0', '0', '0', '0']);
    } else if i == 1 {
        reveal_strlit("990000");
        assert(palette_hex(i) =~= seq!['9', '9', '0', '0', '0', '0']);
    } else if i == 2 {
        reveal_strlit("cc0000");
        assert(palette_hex(i) =~= seq!['c', 'c', '0', '0', '0', '0']);
    } else if i == 3 {
        reveal_strlit("cc3333");
        assert(palette_hex(i) =~= seq!['c', 'c', '3', '3', '3', '3']);
    } else if i == 4 {
        reveal_strlit("ea4c88");
        assert(palette_hex(i) =~= seq!['e', 'a', '4', 'c', '8', '8']);
    } else if i == 5 {
        reveal_strlit("993399");
        assert(palette_hex(i) =~= seq!['9', '9', '3', '3', '9', '9']);
    } else if i == 6 {
        reveal_strlit("663399");
        assert(palette_hex(i) =~= seq!['6', '6', '3', '3', '9', '9']);
    } else if i == 7 {
        reveal_strlit("333399");
        assert(palette_hex(i) =~= seq!['3', '3', '3', '3', '9', '9']);
    } else if i == 8 {
        reveal_strlit("0066cc");
        assert(palette_hex(i) =~= seq!['0', '0', '6', '6', 'c', 'c']);
    } else if i == 9 {
        reveal_strlit("0099cc");
        assert(palette_hex(i) =~= seq!['0', '0', '9', '9', 'c', 'c']);
    } else if i == 10 {
        reveal_strlit("66cccc");
        assert(palette_hex(i) =~= seq!['6', '6', 'c', 'c', 'c', 'c']);
    } else if i == 11 {
        reveal_strlit("77cc33");
        assert(palette_hex(i) =~= seq!['7', '7', 'c', 'c', '3', '3']);
    } else if i == 12 {
        reveal_strlit("669900");
        assert(palette_hex(i) =~= seq!['6', '6', '9', '9', '0', '0']);
    } else if i == 13 {
        reveal_strlit("336600");
        assert(palette_hex(i) =~= seq!['3', '3', '6', '6', '0', '0']);
    } else if i == 14 {
        reveal_strlit("666600");
        assert(palette_hex(i) =~= seq!['6', '6', '6', '6', '0', '0']);
    } else if i == 15 {
        reveal_strlit("999900");
        assert(palette_hex(i) =~= seq!['9', '9', '9', '9', '0', '0']);
    } else if i == 16 {
        reveal_strlit("cccc33");
        assert(palette_hex(i) =~= seq!['c', 'c', 'c', 'c', '3', '3']);
    } else if i == 17 {
        reveal_strlit("ffff00");
        assert(palette_hex(i) =~= seq!['f', 'f', 'f', 'f', '0', '0']);
    } else if i == 18 {
        reveal_strlit("ffcc33");
        assert(palette_hex(i) =~= seq!['f', 'f', 'c', 'c', '3', '3']);
    } else if i == 19 {
        reveal_strlit("ff9900");
        assert(palette_hex(i) =~= seq!['f', 'f', '9', '9', '0', '0']);
    } else if i == 20 {
        reveal_strlit("ff6600");
        assert(palette_hex(i) =~= seq!['f', 'f', '6', '6', '0', '0']);
    } else if i == 21 {
        reveal_strlit("cc6633");
        assert(palette_hex(i) =~= seq!['c', 'c', '6', '6', '3', '3']);
    } else if i == 22 {
        reveal_strlit("996633");
        assert(palette_hex(i) =~= seq!['9', '9', '6', '6', '3', '3']);
    } else if i == 23 {
        reveal_strlit("663300");
        assert(palette_hex(i) =~= seq!['6', '6', '3', '3', '0', '0']);
    } else if i == 24 {
        reveal_strlit("000000");
        assert(palette_hex(i) =~= seq!['0', '0', '0', '0', '0', '0']);
    } else if i == 25 {
        reveal_strlit("999999");
        assert(palette_hex(i) =~= seq!['9', '9', '9', '9', '9', '9']);
    } else if i == 26 {
        reveal_strlit("cccccc");
        assert(palette_hex(i) =~= seq!['c', 'c', 'c', 'c', 'c', 'c']);
    } else if i == 27 {
        reveal_strlit("ffffff");
        assert(palette_hex(i) =~= seq!['f', 'f', 'f', 'f', 'f', 'f']);
    }
}


proof fn lemma_square_nonneg(x: int)
    ensures
        square(x) >= 0,
        square(x) == 0 ==> x == 0,
{
    assert(x * x >= 0 && (x * x == 0 ==> x == 0)) by (nonlinear_arith);
}

proof fn lemma_distance_zero(a: (int, int, int), b: (int, int, int))
    ensures
        weighted_distance(a, b) >= 0,
        weighted_distance(a, b) == 0 ==> a == b,
{
    lemma_square_nonneg(a.0 - b.0);
    lemma_square_nonneg(a.1 - b.1);
    lemma_square_nonneg(a.2 - b.2);
}

proof fn lemma_palette_distinct(i: int, j: int)
    requires
        0 <= i < palette_len(),
        0 <= j < palette_len(),
        palette_rgb(i) == palette_rgb(j),
    ensures
        i == j,
{
}

/// Every palette entry maps onto itself: a palette color's closest palette
/// entry is the color itself.
pub proof fn nearest_keeps_palette_entries(i: int)
    requires
        0 <= i < palette_len(),
    ensures
        spec_nearest(palette_hex(i)) == Some(palette_hex(i)),
{
    palette_hex_spells_rgb(i);
    let rgb = palette_rgb(i);
    if i >= first_gray() {
        assert(near_neutral(rgb));
        assert(gray_index(rgb) == i);
    } else {
        assert(!near_neutral(rgb));
        lemma_closest_index(rgb, palette_len());
        let k = closest_index(rgb, palette_len());
        lemma_distance_zero(rgb, palette_rgb(k));
        lemma_distance_zero(rgb, rgb);
        assert(weighted_distance(rgb, palette_rgb(k)) <= weighted_distance(rgb, palette_rgb(i)));
        lemma_palette_distinct(k, i);
    }
}

/// Whatever `nearest` returns is a palette entry.
pub proof fn nearest_is_palette_entry(s: Seq<char>)
    ensures
        spec_nearest(s) matches Some(h) ==> exists|i: int|
            0 <= i < palette_len() && h == #[trigger] palette_hex(i),
{
    if let Some(rgb) = parse_rgb(s) {
        let k = nearest_index(rgb);
        if !near_neutral(rgb) {
            lemma_closest_index(rgb, palette_len());
        }
        assert(0 <= k < palette_len());
        assert(spec_nearest(s) == Some(palette_hex(k)));
    }
}

/// Mapping is idempotent: the entry a color maps onto maps onto itself.
pub proof fn nearest_is_idempotent(s: Seq<char>)
    ensures
        spec_nearest(s) matches Some(m) ==> spec_nearest(m) == Some(m),
{
    nearest_is_palette_entry(s);
    if let Some(m) = spec_nearest(s) {
        let i = choose|i: int| 0 <= i < palette_len() && m == #[trigger] palette_hex(i);
        nearest_keeps_palette_entries(i);
    }
}

/// A tinted color (channels 24 or more apart) maps onto the palette entry at
/// the smallest weighted distance, the first such entry on a tie.
pub proof fn nearest_is_closest(s: Seq<char>, rgb: (int, int, int))
    requires
        parse_rgb(s) == Some(rgb),
        !near_neutral(rgb),
    ensures
        ({
            let k = closest_index(rgb, palette_len());
            &&& 0 <= k < palette_len()
            &&& spec_nearest(s) == Some(palette_hex(k))
            &&& forall|j: int|
                0 <= j < palette_len() ==> weighted_distance(rgb, palette_rgb(k))
                    <= weighted_distance(rgb, #[trigger] palette_rgb(j))
            &&& forall|j: int|
                0 <= j < k ==> weighted_distance(rgb, palette_rgb(k)) < weighted_distance(
                    rgb,
                    #[trigger] palette_rgb(j),
                )
        }),
{
    lemma_closest_index(rgb, palette_len());
}

/// A near-neutral color maps onto the gray of nearest luma.
pub proof fn nearest_snaps_neutral_to_gray(s: Seq<char>, rgb: (int, int, int))
    requires
        parse_rgb(s) == Some(rgb),
        near_neutral(rgb),
    ensures
        spec_nearest(s) == Some(palette_hex(gray_index(rgb))),
        first_gray() <= gray_index(rgb) < palette_len(),
        forall|j: int|
            first_gray() <= j < palette_len() ==> {
                let d = luma_milli(rgb) - luma_milli(palette_rgb(gray_index(rgb)));
                let e = luma_milli(rgb) - luma_milli(#[trigger] palette_rgb(j));
                (if d < 0 { -d } else { d }) <= (if e < 0 { -e } else { e })
            },
{
}

/// The mapping rule, stated on the channels themselves. A color whose channels
/// differ by 24 or more somewhere maps onto a palette entry at the smallest
/// weighted distance `2 dR^2 + 4 dG^2 + 3 dB^2`, the first such entry on a tie;
/// any other color maps onto the gray (`000000`, `999999`, `cccccc`,
/// `ffffff`) whose luma `299 R + 587 G + 114 B` is closest to its own.
pub proof fn nearest_rule(s: Seq<char>, rgb: (int, int, int))
    requires
        parse_rgb(s) == Some(rgb),
    ensures
        (rgb.0 - rgb.1 >= 24 || rgb.1 - rgb.0 >= 24 || rgb.0 - rgb.2 >= 24 || rgb.2 - rgb.0 >= 24
            || rgb.1 - rgb.2 >= 24 || rgb.2 - rgb.1 >= 24) ==> exists|k: int|
            {
                &&& 0 <= k < 28
                &&& spec_nearest(s) == Some(#[trigger] palette_hex(k))
                &&& forall|j: int|
                    0 <= j < 28 ==> 2 * ((rgb.0 - palette_rgb(k).0) * (rgb.0 - palette_rgb(k).0))
                        + 4 * ((rgb.1 - palette_rgb(k).1) * (rgb.1 - palette_rgb(k).1)) + 3 * ((rgb.2
                        - palette_rgb(k).2) * (rgb.2 - palette_rgb(k).2)) <= 2 * ((rgb.0
                        - palette_rgb(j).0) * (rgb.0 - palette_rgb(j).0)) + 4 * ((rgb.1
                        - palette_rgb(j).1) * (rgb.1 - palette_rgb(j).1)) + 3 * ((rgb.2
                        - #[trigger] palette_rgb(j).2) * (rgb.2 - palette_rgb(j).2))
                &&& forall|j: int|
                    0 <= j < k ==> 2 * ((rgb.0 - palette_rgb(k).0) * (rgb.0 - palette_rgb(k).0))
                        + 4 * ((rgb.1 - palette_rgb(k).1) * (rgb.1 - palette_rgb(k).1)) + 3 * ((rgb.2
                        - palette_rgb(k).2) * (rgb.2 - palette_rgb(k).2)) < 2 * ((rgb.0
                        - palette_rgb(j).0) * (rgb.0 - palette_rgb(j).0)) + 4 * ((rgb.1
                        - palette_rgb(j).1) * (rgb.1 - palette_rgb(j).1)) + 3 * ((rgb.2
                        - #[trigger] palette_rgb(j).2) * (rgb.2 - palette_rgb(j).2))
            },
        !(rgb.0 - rgb.1 >= 24 || rgb.1 - rgb.0 >= 24 || rgb.0 - rgb.2 >= 24 || rgb.2 - rgb.0 >= 24
            || rgb.1 - rgb.2 >= 24 || rgb.2 - rgb.1 >= 24) ==> exists|k: int|
            {
                &&& 24 <= k < 28
                &&& palette_rgb(k).0 == palette_rgb(k).1 == palette_rgb(k).2
                &&& spec_nearest(s) == Some(#[trigger] palette_hex(k))
                &&& forall|j: int|
                    24 <= j < 28 ==> {
                        let d = (299 * rgb.0 + 587 * rgb.1 + 114 * rgb.2) - (299 * palette_rgb(k).0
                            + 587 * palette_rgb(k).1 + 114 * palette_rgb(k).2);
                        let e = (299 * rgb.0 + 587 * rgb.1 + 114 * rgb.2) - (299 * palette_rgb(j).0
                            + 587 * palette_rgb(j).1 + 114 * #[trigger] palette_rgb(j).2);
                        (if d < 0 {
                            -d
                        } else {
                            d
                        }) <= (if e < 0 {
                            -e
                        } else {
                            e
                        })
                    }
            },
{
    let spread = rgb.0 - rgb.1 >= 24 || rgb.1 - rgb.0 >= 24 || rgb.0 - rgb.2 >= 24 || rgb.2
        - rgb.0 >= 24 || rgb.1 - rgb.2 >= 24 || rgb.2 - rgb.1 >= 24;
    assert(spread == !near_neutral(rgb));
    if spread {
        lemma_closest_index(rgb, palette_len());
        let k = closest_index(rgb, palette_len());
        assert(spec_nearest(s) == Some(palette_hex(k)));
    } else {
        let k = gray_index(rgb);
        assert(spec_nearest(s) == Some(palette_hex(k)));
        assert(palette_rgb(k).0 == palette_rgb(k).1 == palette_rgb(k).2);
    }
}

} // verus!
