//! Character-level building blocks: trimming, searching, comparing and
//! formatting text, each specified over the `Seq<char>` view of a string.
use vstd::prelude::*;

verus! {

/// The characters that `char::is_whitespace` accepts (Unicode `White_Space`).
pub open spec fn is_whitespace(c: char) -> bool {
    let u = c as u32;
    ||| 0x09 <= u <= 0x0d
    ||| u == 0x20
    ||| u == 0x85
    ||| u == 0xa0
    ||| u == 0x1680
    ||| 0x2000 <= u <= 0x200a
    ||| u == 0x2028
    ||| u == 0x2029
    ||| u == 0x202f
    ||| u == 0x205f
    ||| u == 0x3000
}

/// A set of characters that trimming strips.
#[derive(Clone, Copy)]
pub enum CharSet {
    Whitespace,
    Only(char),
}

impl CharSet {
    pub open spec fn has(self, x: char) -> bool {
        match self {
            CharSet::Whitespace => is_whitespace(x),
            CharSet::Only(c) => x == c,
        }
    }

    pub fn contains(&self, x: char) -> (r: bool)
        ensures
            r == self.has(x),
    {
        match self {
            CharSet::Whitespace => {
                let u = x as u32;
                (0x09 <= u && u <= 0x0d) || u == 0x20 || u == 0x85 || u == 0xa0 || u == 0x1680 || (
                0x2000 <= u && u <= 0x200a) || u == 0x2028 || u == 0x2029 || u == 0x202f || u
                    == 0x205f || u == 0x3000
            },
            CharSet::Only(c) => x == *c,
        }
    }
}

/// `s` without its leading characters from `set` (`trim_start_matches`).
pub open spec fn strip_start(s: Seq<char>, set: CharSet) -> Seq<char>
    decreases s.len(),
{
    if s.len() > 0 && set.has(s[0]) {
        strip_start(s.drop_first(), set)
    } else {
        s
    }
}

/// `s` without its trailing characters from `set` (`trim_end_matches`).
pub open spec fn strip_end(s: Seq<char>, set: CharSet) -> Seq<char>
    decreases s.len(),
{
    if s.len() > 0 && set.has(s.last()) {
        strip_end(s.drop_last(), set)
    } else {
        s
    }
}

/// `s` without leading and trailing characters from `set` (`trim_matches`).
pub open spec fn strip(s: Seq<char>, set: CharSet) -> Seq<char> {
    strip_end(strip_start(s, set), set)
}

/// `str::trim`.
pub open spec fn trim(s: Seq<char>) -> Seq<char> {
    strip(s, CharSet::Whitespace)
}

/// Index of the first `c` in `s`, or `s.len()` when there is none.
pub open spec fn find_char(s: Seq<char>, c: char) -> int
    decreases s.len(),
{
    if s.len() == 0 {
        0
    } else if s[0] == c {
        0
    } else {
        1 + find_char(s.drop_first(), c)
    }
}

/// The text after the last `c` in `s`; all of `s` when there is none
/// (the first item of `rsplit(c)`).
pub open spec fn after_last(s: Seq<char>, c: char) -> Seq<char>
    decreases s.len(),
{
    if s.len() == 0 {
        s
    } else if s.last() == c {
        Seq::empty()
    } else {
        after_last(s.drop_last(), c).push(s.last())
    }
}

/// ASCII lowercase of one character.
pub open spec fn ascii_lower(c: char) -> char {
    if 'A' <= c <= 'Z' {
        ((c as u8) + 32) as char
    } else {
        c
    }
}

/// `str::to_ascii_lowercase`.
pub open spec fn ascii_lower_seq(s: Seq<char>) -> Seq<char> {
    s.map_values(|c: char| ascii_lower(c))
}

pub open spec fn is_digit(c: char) -> bool {
    '0' <= c <= '9'
}

pub open spec fn digit_value(c: char) -> int {
    c as int - '0' as int
}

pub open spec fn digit_char(d: int) -> char {
    (d + '0' as int) as char
}

/// `char::is_ascii_hexdigit`.
pub open spec fn is_hex_digit(c: char) -> bool {
    ||| '0' <= c <= '9'
    ||| 'a' <= c <= 'f'
    ||| 'A' <= c <= 'F'
}

pub open spec fn hex_value(c: char) -> int {
    if '0' <= c <= '9' {
        c as int - '0' as int
    } else if 'a' <= c <= 'f' {
        c as int - 'a' as int + 10
    } else {
        c as int - 'A' as int + 10
    }
}

pub open spec fn all_hex(s: Seq<char>) -> bool {
    forall|i: int| 0 <= i < s.len() ==> is_hex_digit(#[trigger] s[i])
}

/// The decimal digits of `n`, as `format!("{n}")` writes them.
pub open spec fn decimal(n: nat) -> Seq<char>
    decreases n,
{
    if n < 10 {
        seq![digit_char(n as int)]
    } else {
        decimal(n / 10).push(digit_char((n % 10) as int))
    }
}

/// The value of a run of decimal digits.
pub open spec fn digits_value(s: Seq<char>) -> nat
    decreases s.len(),
{
    if s.len() == 0 {
        0
    } else {
        (digits_value(s.drop_last()) * 10 + digit_value(s.last())) as nat
    }
}

pub open spec fn all_digits(s: Seq<char>) -> bool {
    forall|i: int| 0 <= i < s.len() ==> is_digit(#[trigger] s[i])
}

/// What `s.parse::<u32>()` accepts: an optional `+` followed by at least one
/// decimal digit, with a value that fits in `u32`.
pub open spec fn parse_u32(s: Seq<char>) -> Option<u32> {
    let digits = if s.len() > 1 && s[0] == '+' {
        s.drop_first()
    } else {
        s
    };
    if digits.len() > 0 && all_digits(digits) && digits_value(digits) <= u32::MAX {
        Some(digits_value(digits) as u32)
    } else {
        None
    }
}

/// Joins `items` with `sep` between neighbours (`[&str]::join`).
pub open spec fn join(items: Seq<Seq<char>>, sep: Seq<char>) -> Seq<char>
    decreases items.len(),
{
    if items.len() == 0 {
        Seq::empty()
    } else if items.len() == 1 {
        items[0]
    } else {
        join(items.drop_last(), sep) + sep + items.last()
    }
}

/// Appends one character to a `String`. Trusted: the body is the call of
/// `String::push`, of which the contract claims that the text grows by
/// exactly `c` at its end.
#[verifier::external_body]
pub(crate) fn push_char(s: &mut String, c: char)
    ensures
        final(s)@ == old(s)@.push(c),
{
    s.push(c);
}

/// The characters of `s`, in order.
pub fn chars_of(s: &str) -> (v: Vec<char>)
    ensures
        v@ == s@,
{
    let mut v: Vec<char> = Vec::new();
    for c in it: s.chars()
        invariant
            v@ == it.seq().take(it.index() as int),
            it.seq() == s@,
    {
        v.push(c);
    }
    v
}

/// Appends `v[lo..hi]` to `out`.
pub fn push_range(out: &mut String, v: &Vec<char>, lo: usize, hi: usize)
    requires
        lo <= hi <= v.len(),
    ensures
        final(out)@ == old(out)@ + v@.subrange(lo as int, hi as int),
{
    let mut i = lo;
    while i < hi
        invariant
            lo <= i <= hi <= v.len(),
            out@ == old(out)@ + v@.subrange(lo as int, i as int),
        decreases hi - i,
    {
        push_char(out, v[i]);
        i = i + 1;
        assert(out@ =~= old(out)@ + v@.subrange(lo as int, i as int));
    }
}

/// A new `String` holding `v[lo..hi]`.
pub fn string_of(v: &Vec<char>, lo: usize, hi: usize) -> (s: String)
    requires
        lo <= hi <= v.len(),
    ensures
        s@ == v@.subrange(lo as int, hi as int),
{
    let mut s = String::new();
    push_range(&mut s, v, lo, hi);
    assert(s@ =~= v@.subrange(lo as int, hi as int));
    s
}

/// Whether `v[lo..hi]` spells `w`.
pub fn range_eq(v: &Vec<char>, lo: usize, hi: usize, w: &Vec<char>) -> (r: bool)
    requires
        lo <= hi <= v.len(),
    ensures
        r == (v@.subrange(lo as int, hi as int) == w@),
{
    if hi - lo != w.len() {
        return false;
    }
    let mut i: usize = 0;
    while i < w.len()
        invariant
            lo <= hi <= v.len(),
            hi - lo == w.len(),
            i <= w.len(),
            forall|j: int| 0 <= j < i ==> v@[lo + j] == w@[j],
        decreases w.len() - i,
    {
        if v[lo + i] != w[i] {
            assert(v@.subrange(lo as int, hi as int)[i as int] != w@[i as int]);
            return false;
        }
        i = i + 1;
    }
    assert(v@.subrange(lo as int, hi as int) =~= w@);
    true
}

/// Whether two strings hold the same characters.
pub fn str_eq(a: &str, b: &str) -> (r: bool)
    ensures
        r == (a@ == b@),
{
    let va = chars_of(a);
    let vb = chars_of(b);
    let r = range_eq(&va, 0, va.len(), &vb);
    assert(va@.subrange(0, va.len() as int) =~= va@);
    r
}

proof fn lemma_strip_start_step(s: Seq<char>, set: CharSet)
    requires
        s.len() > 0,
        set.has(s[0]),
    ensures
        strip_start(s, set) == strip_start(s.drop_first(), set),
{
}

/// The first index at or after `lo` whose character is outside `set`, so that
/// `v[r..hi]` is `v[lo..hi]` with its leading `set` characters stripped.
pub fn skip_start(v: &Vec<char>, lo: usize, hi: usize, set: CharSet) -> (r: usize)
    requires
        lo <= hi <= v.len(),
    ensures
        lo <= r <= hi,
        v@.subrange(r as int, hi as int) == strip_start(v@.subrange(lo as int, hi as int), set),
{
    let mut i = lo;
    while i < hi && set.contains(v[i])
        invariant
            lo <= i <= hi <= v.len(),
            strip_start(v@.subrange(lo as int, hi as int), set) == strip_start(
                v@.subrange(i as int, hi as int),
                set,
            ),
        decreases hi - i,
    {
        proof {
            let s = v@.subrange(i as int, hi as int);
            lemma_strip_start_step(s, set);
            assert(s.drop_first() =~= v@.subrange(i + 1, hi as int));
        }
        i = i + 1;
    }
    i
}

/// The last boundary `r` (at or before `hi`) such that `v[lo..r]` is
/// `v[lo..hi]` with its trailing `set` characters stripped.
pub fn skip_end(v: &Vec<char>, lo: usize, hi: usize, set: CharSet) -> (r: usize)
    requires
        lo <= hi <= v.len(),
    ensures
        lo <= r <= hi,
        v@.subrange(lo as int, r as int) == strip_end(v@.subrange(lo as int, hi as int), set),
{
    let mut i = hi;
    while i > lo && set.contains(v[i - 1])
        invariant
            lo <= i <= hi <= v.len(),
            strip_end(v@.subrange(lo as int, hi as int), set) == strip_end(
                v@.subrange(lo as int, i as int),
                set,
            ),
        decreases i - lo,
    {
        proof {
            let s = v@.subrange(lo as int, i as int);
            assert(s.drop_last() =~= v@.subrange(lo as int, i - 1));
        }
        i = i - 1;
    }
    i
}

/// `v[lo..hi]` trimmed of `set` on both sides, as a new index range.
pub fn strip_range(v: &Vec<char>, lo: usize, hi: usize, set: CharSet) -> (r: (usize, usize))
    requires
        lo <= hi <= v.len(),
    ensures
        lo <= r.0 <= r.1 <= hi,
        v@.subrange(r.0 as int, r.1 as int) == strip(v@.subrange(lo as int, hi as int), set),
{
    let a = skip_start(v, lo, hi, set);
    let b = skip_end(v, a, hi, set);
    (a, b)
}

pub proof fn lemma_find_char_bounds(s: Seq<char>, c: char)
    ensures
        0 <= find_char(s, c) <= s.len(),
    decreases s.len(),
{
    if s.len() > 0 && s[0] != c {
        lemma_find_char_bounds(s.drop_first(), c);
    }
}

proof fn lemma_find_char(s: Seq<char>, c: char, k: int)
    requires
        0 <= k <= s.len(),
        forall|j: int| 0 <= j < k ==> s[j] != c,
        k == s.len() || s[k] == c,
    ensures
        find_char(s, c) == k,
    decreases s.len(),
{
    if s.len() > 0 && s[0] != c {
        lemma_find_char(s.drop_first(), c, k - 1);
    }
}

/// The index of the first `c` in `v[lo..hi]`, or `hi` when there is none.
pub fn find_in(v: &Vec<char>, lo: usize, hi: usize, c: char) -> (r: usize)
    requires
        lo <= hi <= v.len(),
    ensures
        lo <= r <= hi,
        r - lo == find_char(v@.subrange(lo as int, hi as int), c),
        r < hi ==> v@[r as int] == c,
        forall|j: int| lo <= j < r ==> v@[j] != c,
{
    let mut i = lo;
    while i < hi && v[i] != c
        invariant
            lo <= i <= hi <= v.len(),
            forall|j: int| lo <= j < i ==> v@[j] != c,
        decreases hi - i,
    {
        i = i + 1;
    }
    proof {
        lemma_find_char(v@.subrange(lo as int, hi as int), c, i - lo);
    }
    i
}

/// The start of the text after the last `c` in `v[lo..hi]` (`lo` when there
/// is none).
pub fn after_last_in(v: &Vec<char>, lo: usize, hi: usize, c: char) -> (r: usize)
    requires
        lo <= hi <= v.len(),
    ensures
        lo <= r <= hi,
        v@.subrange(r as int, hi as int) == after_last(v@.subrange(lo as int, hi as int), c),
        r > lo ==> v@[r - 1] == c,
        forall|j: int| r <= j < hi ==> v@[j] != c,
{
    let mut i = hi;
    while i > lo && v[i - 1] != c
        invariant
            lo <= i <= hi <= v.len(),
            forall|j: int| i <= j < hi ==> v@[j] != c,
            after_last(v@.subrange(lo as int, hi as int), c) == after_last(
                v@.subrange(lo as int, i as int),
                c,
            ) + v@.subrange(i as int, hi as int),
        decreases i - lo,
    {
        proof {
            let s = v@.subrange(lo as int, i as int);
            assert(s.drop_last() =~= v@.subrange(lo as int, i - 1));
            assert(v@.subrange(i - 1, hi as int) =~= seq![s.last()] + v@.subrange(
                i as int,
                hi as int,
            ));
            assert(after_last(s, c) == after_last(s.drop_last(), c).push(s.last()));
            assert(after_last(s.drop_last(), c).push(s.last()) + v@.subrange(i as int, hi as int)
                =~= after_last(s.drop_last(), c) + v@.subrange(i - 1, hi as int));
        }
        i = i - 1;
    }
    proof {
        let s = v@.subrange(lo as int, i as int);
        if i > lo {
            assert(s.last() == c);
        }
        assert(after_last(s, c) =~= Seq::<char>::empty());
        assert(Seq::<char>::empty() + v@.subrange(i as int, hi as int) =~= v@.subrange(
            i as int,
            hi as int,
        ));
    }
    i
}

pub fn ascii_lower_char(c: char) -> (r: char)
    ensures
        r == ascii_lower(c),
{
    if 'A' <= c && c <= 'Z' {
        ((c as u8) + 32) as char
    } else {
        c
    }
}

/// Appends the ASCII lowercase of `v[lo..hi]` to `out`.
pub fn push_lower_range(out: &mut String, v: &Vec<char>, lo: usize, hi: usize)
    requires
        lo <= hi <= v.len(),
    ensures
        final(out)@ == old(out)@ + ascii_lower_seq(v@.subrange(lo as int, hi as int)),
{
    let mut i = lo;
    while i < hi
        invariant
            lo <= i <= hi <= v.len(),
            out@ == old(out)@ + ascii_lower_seq(v@.subrange(lo as int, i as int)),
        decreases hi - i,
    {
        push_char(out, ascii_lower_char(v[i]));
        i = i + 1;
        assert(out@ =~= old(out)@ + ascii_lower_seq(v@.subrange(lo as int, i as int)));
    }
}

/// Appends the decimal digits of `n` to `out`.
pub fn push_decimal(out: &mut String, n: u64)
    ensures
        final(out)@ == old(out)@ + decimal(n as nat),
    decreases n,
{
    if n >= 10 {
        push_decimal(out, n / 10);
    }
    let d = (n % 10) as u8;
    push_char(out, (d + 48) as char);
    proof {
        if n < 10 {
            assert(decimal(n as nat) =~= seq![digit_char(n as int)]);
        }
    }
    assert(final(out)@ =~= old(out)@ + decimal(n as nat));
}

proof fn lemma_decimal_digits(n: nat)
    ensures
        decimal(n).len() > 0,
        all_digits(decimal(n)),
        digits_value(decimal(n)) == n,
        decimal(n)[0] != '+',
    decreases n,
{
    if n >= 10 {
        lemma_decimal_digits(n / 10);
        let d = decimal(n / 10).push(digit_char((n % 10) as int));
        assert(d.drop_last() =~= decimal(n / 10));
        assert(d[0] == decimal(n / 10)[0]);
        assert(digit_value(d.last()) == n % 10);
        assert(digits_value(d) == digits_value(decimal(n / 10)) * 10 + n % 10);
        assert forall|i: int| 0 <= i < d.len() implies is_digit(#[trigger] d[i]) by {
            if i < d.len() - 1 {
                assert(d[i] == decimal(n / 10)[i]);
            }
        }
    } else {
        assert(decimal(n).drop_last() =~= Seq::<char>::empty());
        assert(digit_value(decimal(n).last()) == n);
        assert(digits_value(Seq::<char>::empty()) == 0);
    }
}

/// Reading back a written number gives the number: `parse::<u32>()` of the
/// decimal digits of `n` is `n`, so a page written into a URL and a page read
/// from the command line agree.
pub proof fn parse_u32_reads_decimal(n: u32)
    ensures
        parse_u32(decimal(n as nat)) == Some(n),
{
    lemma_decimal_digits(n as nat);
}

proof fn lemma_strip_start_suffix(s: Seq<char>, set: CharSet)
    ensures
        exists|j: int|
            0 <= j <= s.len() && strip_start(s, set) == s.skip(j) && forall|i: int|
                0 <= i < j ==> set.has(#[trigger] s[i]),
        strip_start(s, set).len() == 0 <==> forall|i: int| 0 <= i < s.len() ==> set.has(#[trigger] s[i]),
    decreases s.len(),
{
    if s.len() > 0 && set.has(s[0]) {
        let t = s.drop_first();
        lemma_strip_start_suffix(t, set);
        let j = choose|j: int|
            0 <= j <= t.len() && strip_start(t, set) == t.skip(j) && forall|i: int|
                0 <= i < j ==> set.has(#[trigger] t[i]);
        assert(t.skip(j) =~= s.skip(j + 1));
        assert forall|i: int| 0 <= i < j + 1 implies set.has(#[trigger] s[i]) by {
            if i > 0 {
                assert(s[i] == t[i - 1]);
            }
        }
        if forall|i: int| 0 <= i < s.len() ==> set.has(#[trigger] s[i]) {
            assert forall|i: int| 0 <= i < t.len() implies set.has(#[trigger] t[i]) by {
                assert(t[i] == s[i + 1]);
            }
        }
        if strip_start(s, set).len() == 0 {
            assert forall|i: int| 0 <= i < s.len() implies set.has(#[trigger] s[i]) by {
                if i > 0 {
                    assert(s[i] == t[i - 1]);
                }
            }
        }
    } else {
        assert(s.skip(0) =~= s);
    }
}

proof fn lemma_strip_end_empty(s: Seq<char>, set: CharSet)
    ensures
        strip_end(s, set).len() == 0 <==> forall|i: int| 0 <= i < s.len() ==> set.has(#[trigger] s[i]),
    decreases s.len(),
{
    if s.len() > 0 && set.has(s.last()) {
        let t = s.drop_last();
        lemma_strip_end_empty(t, set);
        if strip_end(s, set).len() == 0 {
            assert forall|i: int| 0 <= i < s.len() implies set.has(#[trigger] s[i]) by {
                if i < s.len() - 1 {
                    assert(s[i] == t[i]);
                }
            }
        }
        if forall|i: int| 0 <= i < s.len() ==> set.has(#[trigger] s[i]) {
            assert forall|i: int| 0 <= i < t.len() implies set.has(#[trigger] t[i]) by {
                assert(t[i] == s[i]);
            }
        }
    } else if s.len() > 0 {
        assert(!set.has(s[s.len() - 1]));
    }
}

/// Trimming leaves nothing exactly when every character is whitespace.
pub proof fn trim_is_empty_iff_blank(s: Seq<char>)
    ensures
        trim(s).len() == 0 <==> forall|i: int| 0 <= i < s.len() ==> is_whitespace(#[trigger] s[i]),
{
    let set = CharSet::Whitespace;
    lemma_strip_start_suffix(s, set);
    let t = strip_start(s, set);
    lemma_strip_end_empty(t, set);
    let j = choose|j: int|
        0 <= j <= s.len() && strip_start(s, set) == s.skip(j) && forall|i: int|
            0 <= i < j ==> set.has(#[trigger] s[i]);
    if trim(s).len() == 0 {
        assert forall|i: int| 0 <= i < s.len() implies is_whitespace(#[trigger] s[i]) by {
            if i >= j {
                assert(t[i - j] == s[i]);
                assert(set.has(t[i - j]));
            } else {
                assert(set.has(s[i]));
            }
        }
    }
    if forall|i: int| 0 <= i < s.len() ==> is_whitespace(#[trigger] s[i]) {
        assert forall|i: int| 0 <= i < s.len() implies set.has(#[trigger] s[i]) by {
            assert(is_whitespace(s[i]));
        }
    }
}

} // verus!
