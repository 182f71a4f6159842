//! Local wallpaper library for the active theme.
//!
//! Two sources feed the Saved tab: wallpapers downloaded by Walls (removable)
//! and the theme's own stock backgrounds (viewable/applyable only). Removal
//! is hard-restricted to the user backgrounds directory.
//!
//! Reading directories, following the current-background link and running
//! `omarchy` are the caller's; the listing, ordering and safety rules are here.
use vstd::prelude::*;

use crate::api::{views, IMAGE_EXTS};
use crate::paths::{self, join, path_is_inside, paths_equal};
use crate::text::{self, after_last_in, chars_of, range_eq};

verus! {

/// One wallpaper of the Saved tab.
pub struct WallpaperFile {
    pub path: String,
    pub name: String,
    /// "user" or "theme".
    pub source: String,
    pub is_current: bool,
}

/// Full stdout payload of `walls list`.
pub struct ListOut {
    pub theme: String,
    pub current: Option<String>,
    pub wallpapers: Vec<WallpaperFile>,
}

/// A regular file found in a backgrounds directory: its full path and its
/// file name.
pub struct DirFile {
    pub path: String,
    pub name: String,
}

/// A wallpaper file as text: `(path, name, source, is_current)`.
pub type FileView = (Seq<char>, Seq<char>, Seq<char>, bool);

pub open spec fn file_view(w: WallpaperFile) -> FileView {
    (w.path@, w.name@, w.source@, w.is_current)
}

pub open spec fn file_views(ws: Seq<WallpaperFile>) -> Seq<FileView> {
    ws.map_values(|w: WallpaperFile| file_view(w))
}

// ----------------------------------------------------------------------------
// Extensions
/// The extension of a file name (`Path::extension`): the text after the last
/// `.`, when that dot is not the name's first character; `..` has none.
pub open spec fn file_extension(name: Seq<char>) -> Option<Seq<char>> {
    let ext = text::after_last(name, '.');
    if name == seq!['.', '.'] || !name.contains('.') || name.len() - ext.len() == 1 {
        None
    } else {
        Some(ext)
    }
}

/// Whether a file name carries an image extension, in any ASCII case.
pub open spec fn is_image_name(name: Seq<char>) -> bool {
    match file_extension(name) {
        Some(e) => views(IMAGE_EXTS@).contains(text::ascii_lower_seq(e)),
        None => false,
    }
}

/// Whether `name` has an image extension (`jpg`, `jpeg`, `png`, `gif`,
/// `webp`, `bmp`, any case).
pub fn has_image_ext(name: &str) -> (r: bool)
    ensures
        r == is_image_name(name@),
{
    let v = chars_of(name);
    let n = v.len();
    let s = after_last_in(&v, 0, n, '.');
    proof {
        assert(v@.subrange(0, n as int) =~= name@);
        assert(v@.subrange(s as int, n as int).len() == n - s);
        if s > 0 {
            assert(name@[s - 1] == '.');
            assert(name@.contains('.'));
        } else {
            assert forall|j: int| 0 <= j < n implies name@[j] != '.' by {}
            assert(!name@.contains('.'));
        }
    }
    if (n == 2 && v[0] == '.' && v[1] == '.') || s == 0 || s == 1 {
        proof {
            if n == 2 && v[0] == '.' && v[1] == '.' {
                assert(name@ =~= seq!['.', '.']);
            }
        }
        return false;
    }
    assert(name@ != seq!['.', '.']);
    let mut lower: Vec<char> = Vec::new();
    let mut i = s;
    while i < n
        invariant
            s <= i <= n == v.len(),
            lower@ == text::ascii_lower_seq(v@.subrange(s as int, i as int)),
        decreases n - i,
    {
        lower.push(text::ascii_lower_char(v[i]));
        i = i + 1;
        assert(lower@ =~= text::ascii_lower_seq(v@.subrange(s as int, i as int)));
    }
    let ghost ext = text::ascii_lower_seq(text::after_last(name@, '.'));
    assert(lower@ == ext);
    assert(file_extension(name@) == Some(text::after_last(name@, '.')));
    let mut k: usize = 0;
    while k < 6
        invariant
            k <= 6,
            lower@ == ext,
            ext == text::ascii_lower_seq(text::after_last(name@, '.')),
            file_extension(name@) == Some(text::after_last(name@, '.')),
            forall|j: int| 0 <= j < k ==> IMAGE_EXTS@[j]@ != ext,
        decreases 6 - k,
    {
        let e = chars_of(IMAGE_EXTS[k]);
        if range_eq(&lower, 0, lower.len(), &e) {
            assert(lower@.subrange(0, lower.len() as int) =~= lower@);
            assert(views(IMAGE_EXTS@)[k as int] == ext);
            return true;
        }
        assert(lower@.subrange(0, lower.len() as int) =~= lower@);
        k = k + 1;
    }
    assert forall|j: int| 0 <= j < views(IMAGE_EXTS@).len() implies views(IMAGE_EXTS@)[j]
        != ext by {
        assert(views(IMAGE_EXTS@)[j] == IMAGE_EXTS@[j]@);
    }
    false
}

// ----------------------------------------------------------------------------
// Directories
/// The user backgrounds directory of `theme` under `home`.
pub open spec fn spec_user_backgrounds_dir(home: Seq<char>, theme: Seq<char>) -> Seq<char> {
    paths::path_join(paths::path_join(home, ".config/omarchy/backgrounds"@), theme)
}

/// Where Walls keeps the wallpapers it downloaded for `theme`.
pub fn user_backgrounds_dir(home: &str, theme: &str) -> (r: String)
    ensures
        r@ == spec_user_backgrounds_dir(home@, theme@),
{
    let base = join(home, ".config/omarchy/backgrounds");
    join(base.as_str(), theme)
}

/// The stock backgrounds of the active theme.
pub fn theme_backgrounds_dir(home: &str) -> (r: String)
    ensures
        r@ == paths::path_join(home@, ".local/state/omarchy/current/theme/backgrounds"@),
{
    join(home, ".local/state/omarchy/current/theme/backgrounds")
}

/// The symlink that names the current background.
pub fn current_background_link(home: &str) -> (r: String)
    ensures
        r@ == paths::path_join(home@, ".local/state/omarchy/current/background"@),
{
    join(home, ".local/state/omarchy/current/background")
}

// ----------------------------------------------------------------------------
// Listing
/// Whether `path` is the current background (component-wise path equality).
pub open spec fn is_current_path(path: Seq<char>, current: Option<Seq<char>>) -> bool {
    match current {
        Some(c) => paths::path_components(c) == paths::path_components(path),
        None => false,
    }
}

pub open spec fn opt_text(o: Option<&str>) -> Option<Seq<char>> {
    match o {
        Some(s) => Some(s@),
        None => None,
    }
}

/// The wallpapers that the files of one directory give, in directory order:
/// the files with an image extension, tagged with `source` and marked when
/// they are the current background.
pub open spec fn collected(entries: Seq<DirFile>, source: Seq<char>, current: Option<Seq<char>>) -> Seq<
    FileView,
>
    decreases entries.len(),
{
    if entries.len() == 0 {
        Seq::empty()
    } else {
        let prev = collected(entries.drop_last(), source, current);
        let e = entries.last();
        if is_image_name(e.name@) {
            prev.push((e.path@, e.name@, source, is_current_path(e.path@, current)))
        } else {
            prev
        }
    }
}

fn copy_string(s: &String) -> (r: String)
    ensures
        r@ == s@,
{
    s.clone()
}

/// Appends the wallpapers among `entries` to `out`.
pub fn collect_dir(
    entries: &Vec<DirFile>,
    source: &str,
    current: Option<&str>,
    out: &mut Vec<WallpaperFile>,
)
    ensures
        file_views(final(out)@) == file_views(old(out)@) + collected(
            entries@,
            source@,
            opt_text(current),
        ),
{
    let ghost cur = opt_text(current);
    let mut i: usize = 0;
    while i < entries.len()
        invariant
            i <= entries.len(),
            cur == opt_text(current),
            file_views(out@) == file_views(old(out)@) + collected(
                entries@.take(i as int),
                source@,
                cur,
            ),
        decreases entries.len() - i,
    {
        let e = &entries[i];
        let ghost prev = file_views(out@);
        proof {
            assert(entries@.take(i + 1).drop_last() =~= entries@.take(i as int));
        }
        if has_image_ext(e.name.as_str()) {
            let is_current = match current {
                Some(c) => paths_equal(c, e.path.as_str()),
                None => false,
            };
            out.push(
                WallpaperFile {
                    path: copy_string(&e.path),
                    name: copy_string(&e.name),
                    source: String::from_str(source),
                    is_current,
                },
            );
            assert(file_views(out@) =~= prev.push(
                (e.path@, e.name@, source@, is_current_path(e.path@, cur)),
            ));
        }
        i = i + 1;
    }
    assert(entries@.take(entries.len() as int) =~= entries@);
}

/// Lexicographic order of names by code point (the order of `str::cmp`).
pub open spec fn name_le(a: Seq<char>, b: Seq<char>) -> bool
    decreases a.len(),
{
    if a.len() == 0 {
        true
    } else if b.len() == 0 {
        false
    } else if a[0] != b[0] {
        a[0] < b[0]
    } else {
        name_le(a.drop_first(), b.drop_first())
    }
}

proof fn lemma_name_le_total(a: Seq<char>, b: Seq<char>)
    ensures
        name_le(a, b) || name_le(b, a),
        name_le(a, b) && name_le(b, a) ==> a == b,
    decreases a.len(),
{
    if a.len() > 0 && b.len() > 0 && a[0] == b[0] {
        lemma_name_le_total(a.drop_first(), b.drop_first());
        if name_le(a, b) && name_le(b, a) {
            assert(a =~= seq![a[0]] + a.drop_first());
            assert(b =~= seq![b[0]] + b.drop_first());
        }
    }
}

proof fn lemma_name_le_trans(a: Seq<char>, b: Seq<char>, c: Seq<char>)
    requires
        name_le(a, b),
        name_le(b, c),
    ensures
        name_le(a, c),
    decreases a.len(),
{
    if a.len() > 0 && b.len() > 0 && c.len() > 0 && a[0] == b[0] && b[0] == c[0] {
        lemma_name_le_trans(a.drop_first(), b.drop_first(), c.drop_first());
    }
}

/// Names in ascending order.
pub open spec fn sorted_by_name(s: Seq<FileView>) -> bool {
    forall|i: int, j: int| 0 <= i < j < s.len() ==> name_le(s[i].1, s[j].1)
}

/// The files named `k`.
pub open spec fn named(k: Seq<char>) -> spec_fn(FileView) -> bool {
    |f: FileView| f.1 == k
}

/// `out` is `input` sorted by name, files of equal names keeping their order
/// (what a stable sort by name gives, and nothing else can).
pub open spec fn stable_sorted_by_name(out: Seq<FileView>, input: Seq<FileView>) -> bool {
    &&& out.len() == input.len()
    &&& sorted_by_name(out)
    &&& forall|k: Seq<char>| #[trigger] out.filter(named(k)) == input.filter(named(k))
}

proof fn lemma_filter_none(s: Seq<FileView>, k: Seq<char>)
    requires
        forall|j: int| 0 <= j < s.len() ==> s[j].1 != k,
    ensures
        s.filter(named(k)) == Seq::<FileView>::empty(),
    decreases s.len(),
{
    reveal(Seq::filter);
    if s.len() > 0 {
        lemma_filter_none(s.drop_last(), k);
    }
}

/// Whether `a` orders strictly after `b`.
fn name_gt(a: &String, b: &String) -> (r: bool)
    ensures
        r == !name_le(a@, b@),
{
    let va = chars_of(a.as_str());
    let vb = chars_of(b.as_str());
    let mut i: usize = 0;
    assert(va@.skip(0) =~= va@);
    assert(vb@.skip(0) =~= vb@);
    while i < va.len() && i < vb.len() && va[i] == vb[i]
        invariant
            i <= va.len(),
            i <= vb.len(),
            name_le(va@, vb@) == name_le(va@.skip(i as int), vb@.skip(i as int)),
        decreases va.len() - i,
    {
        proof {
            assert(va@.skip(i as int).drop_first() =~= va@.skip(i + 1));
            assert(vb@.skip(i as int).drop_first() =~= vb@.skip(i + 1));
        }
        i = i + 1;
    }
    proof {
        assert(va@.skip(0) =~= va@);
        assert(vb@.skip(0) =~= vb@);
        if i < va.len() && i < vb.len() {
            assert(va@.skip(i as int)[0] == va@[i as int]);
            assert(vb@.skip(i as int)[0] == vb@[i as int]);
        }
    }
    if i == va.len() {
        false
    } else if i == vb.len() {
        true
    } else {
        va[i] > vb[i]
    }
}

/// Sorts wallpapers by name; files of equal names keep their order.
pub fn sort_by_name(files: Vec<WallpaperFile>) -> (r: Vec<WallpaperFile>)
    ensures
        stable_sorted_by_name(file_views(r@), file_views(files@)),
{
    let ghost input = file_views(files@);
    let mut rest = files;
    let mut sorted: Vec<WallpaperFile> = Vec::new();
    let ghost mut done: int = 0;
    while rest.len() > 0
        invariant
            0 <= done <= input.len(),
            file_views(rest@) == input.skip(done),
            file_views(sorted@).len() == done,
            sorted_by_name(file_views(sorted@)),
            forall|k: Seq<char>| #[trigger]
                file_views(sorted@).filter(named(k)) == input.take(done).filter(named(k)),
        decreases rest.len(),
    {
        let ghost old_rest = rest@;
        let x = rest.remove(0);
        let ghost xv = file_view(x);
        let ghost s = file_views(sorted@);
        proof {
            assert(file_views(old_rest) == input.skip(done));
            assert(file_views(old_rest)[0] == xv);
            assert(rest@ =~= old_rest.drop_first());
            assert(file_views(old_rest).len() == old_rest.len());
            assert(input.skip(done).len() == input.len() - done);
            assert(input.len() - done == old_rest.len());
            assert(input[done] == xv);
            assert forall|j: int| 0 <= j < rest@.len() implies #[trigger] file_views(rest@)[j]
                == input.skip(done + 1)[j] by {
                assert(file_views(rest@)[j] == file_view(rest@[j]));
                assert(rest@[j] == old_rest[j + 1]);
                assert(file_views(old_rest)[j + 1] == file_view(old_rest[j + 1]));
                assert(input.skip(done)[j + 1] == input[done + 1 + j]);
            }
            assert(file_views(rest@) =~= input.skip(done + 1));
            assert(input.skip(done)[0] == xv);
            assert(input.take(done + 1) =~= input.take(done).push(xv));
        }
        let mut p: usize = 0;
        while p < sorted.len() && !name_gt(&sorted[p].name, &x.name)
            invariant
                p <= sorted.len(),
                s == file_views(sorted@),
                xv == file_view(x),
                forall|q: int| 0 <= q < p ==> name_le(s[q].1, xv.1),
            decreases sorted.len() - p,
        {
            p = p + 1;
        }
        let ghost p0 = p as int;
        proof {
            if p0 < s.len() {
                assert(!name_le(s[p0].1, xv.1));
                lemma_name_le_total(s[p0].1, xv.1);
            }
        }
        sorted.insert(p, x);
        proof {
            let s2 = file_views(sorted@);
            assert(s2 =~= s.insert(p0, xv));
            assert(s.insert(p0, xv) =~= s.take(p0) + seq![xv] + s.skip(p0));
            // ordering
            assert forall|i: int, j: int| 0 <= i < j < s2.len() implies name_le(
                s2[i].1,
                s2[j].1,
            ) by {
                if j < p0 {
                } else if j == p0 {
                } else if i < p0 {
                    // s2[i] = s[i] <= x < s[p0] <= s[j - 1]
                    lemma_name_le_trans(s[i].1, xv.1, s[p0].1);
                    if j - 1 > p0 {
                        lemma_name_le_trans(s[i].1, s[p0].1, s[j - 1].1);
                    }
                } else if i == p0 {
                    if j - 1 > p0 {
                        lemma_name_le_trans(xv.1, s[p0].1, s[j - 1].1);
                    }
                } else {
                }
            }
            // files after the insertion point are named strictly after x
            assert forall|j: int| 0 <= j < s.skip(p0).len() implies s.skip(p0)[j].1 != xv.1 by {
                let jj = p0 + j;
                if jj > p0 {
                    assert(name_le(s[p0].1, s[jj].1));
                    if s[jj].1 == xv.1 {
                        lemma_name_le_total(s[p0].1, xv.1);
                    }
                }
            }
            assert forall|k: Seq<char>| #[trigger]
                s2.filter(named(k)) == input.take(done + 1).filter(named(k)) by {
                Seq::filter_distributes_over_add(s.take(p0) + seq![xv], s.skip(p0), named(k));
                Seq::filter_distributes_over_add(s.take(p0), seq![xv], named(k));
                Seq::filter_distributes_over_add(s.take(p0), s.skip(p0), named(k));
                assert(s =~= s.take(p0) + s.skip(p0));
                input.take(done).lemma_filter_push(xv, named(k));
                Seq::<FileView>::empty().lemma_filter_push(xv, named(k));
                assert(seq![xv] =~= Seq::<FileView>::empty().push(xv));
                reveal(Seq::filter);
                assert(Seq::<FileView>::empty().filter(named(k)) =~= Seq::<FileView>::empty());
                if k == xv.1 {
                    lemma_filter_none(s.skip(p0), k);
                    assert(s.skip(p0).filter(named(k)) == Seq::<FileView>::empty());
                    assert(s2.filter(named(k)) =~= s.take(p0).filter(named(k)).push(xv));
                    assert(s.filter(named(k)) =~= s.take(p0).filter(named(k)));
                } else {
                    assert(s2.filter(named(k)) =~= s.take(p0).filter(named(k)) + s.skip(
                        p0,
                    ).filter(named(k)));
                }
            }
            done = done + 1;
        }
    }
    proof {
        assert(input.skip(done).len() == 0);
        assert(input.take(done) =~= input);
    }
    sorted
}

/// Build the Saved-tab listing: user wallpapers first (name asc), then the
/// theme's stock backgrounds (name asc). `user` and `stock` are the regular
/// files of the two directories, `current` where the current-background link
/// points.
pub fn list_wallpapers(
    theme: &str,
    current: Option<&str>,
    user: &Vec<DirFile>,
    stock: &Vec<DirFile>,
) -> (r: ListOut)
    ensures
        r.theme@ == theme@,
        opt_string(r.current) == opt_text(current),
        ({
            let u = collected(user@, "user"@, opt_text(current));
            let t = collected(stock@, "theme"@, opt_text(current));
            let w = file_views(r.wallpapers@);
            &&& w.len() == u.len() + t.len()
            &&& stable_sorted_by_name(w.take(u.len() as int), u)
            &&& stable_sorted_by_name(w.skip(u.len() as int), t)
        }),
{
    let mut users: Vec<WallpaperFile> = Vec::new();
    collect_dir(user, "user", current, &mut users);
    let mut wallpapers = sort_by_name(users);
    let ghost n = file_views(wallpapers@).len();
    let mut stocks: Vec<WallpaperFile> = Vec::new();
    collect_dir(stock, "theme", current, &mut stocks);
    let mut sorted_stock = sort_by_name(stocks);
    let ghost a = file_views(wallpapers@);
    let ghost b = file_views(sorted_stock@);
    wallpapers.append(&mut sorted_stock);
    proof {
        assert(file_views(wallpapers@) =~= a + b);
        assert((a + b).take(n as int) =~= a);
        assert((a + b).skip(n as int) =~= b);
        assert(file_views(Seq::<WallpaperFile>::empty()) =~= Seq::<FileView>::empty());
    }
    ListOut {
        theme: String::from_str(theme),
        current: match current {
            Some(c) => Some(String::from_str(c)),
            None => None,
        },
        wallpapers,
    }
}

pub open spec fn opt_string(o: Option<String>) -> Option<Seq<char>> {
    match o {
        Some(s) => Some(s@),
        None => None,
    }
}

// ----------------------------------------------------------------------------
// Applying and removing
/// Message for a file that is not a wallpaper.
pub open spec fn not_wallpaper_error(path: Seq<char>) -> Seq<char> {
    "not a wallpaper file: "@ + path
}

/// Checks that a local file may be applied as background: it must be a
/// regular file (`is_file`) whose name (`file_name`) has an image extension.
pub fn check_wallpaper_file(path: &str, is_file: bool, file_name: Option<&str>) -> (r: Result<
    (),
    String,
>)
    ensures
        r is Ok <==> (is_file && file_name is Some && is_image_name(file_name->0@)),
        r matches Err(e) ==> e@ == not_wallpaper_error(path@),
{
    let ok = is_file && match file_name {
        Some(n) => has_image_ext(n),
        None => false,
    };
    if !ok {
        let mut msg = String::from_str("not a wallpaper file: ");
        msg.append(path);
        return Err(msg);
    }
    Ok(())
}

/// The outcome of checking a removal request for `path`, which resolves to
/// `target` (`None` when it does not exist), against the user backgrounds
/// directory `allowed`: accepted only when `target` lies strictly inside
/// `allowed` (the directory itself is refused).
pub open spec fn removal_check(path: Seq<char>, target: Option<Seq<char>>, allowed: Seq<char>) -> Result<
    Seq<char>,
    Seq<char>,
> {
    match target {
        None => Err("file not found: "@ + path),
        Some(t) => if paths::path_components(allowed).is_prefix_of(paths::path_components(t))
            && paths::path_components(allowed).len() < paths::path_components(t).len() {
            Ok(t)
        } else {
            Err("refusing to remove "@ + t + ": only files inside "@ + allowed
                + " are managed by Walls"@)
        },
    }
}

/// Validate that a path may be removed: it must resolve inside the user
/// backgrounds directory of the active theme. Stock theme files and anything
/// outside are refused, and so is the directory itself. `target` is `path` resolved (canonicalized), `None`
/// when it does not exist; `allowed` is the user backgrounds directory,
/// resolved when it exists.
pub fn validate_removable(path: &str, target: Option<&str>, allowed: &str) -> (r: Result<
    String,
    String,
>)
    ensures
        match r {
            Ok(t) => removal_check(path@, opt_text(target), allowed@) == Ok::<
                Seq<char>,
                Seq<char>,
            >(t@),
            Err(e) => removal_check(path@, opt_text(target), allowed@) == Err::<
                Seq<char>,
                Seq<char>,
            >(e@),
        },
{
    match target {
        None => {
            let mut msg = String::from_str("file not found: ");
            msg.append(path);
            Err(msg)
        },
        Some(t) => {
            if !path_is_inside(t, allowed) {
                let mut msg = String::from_str("refusing to remove ");
                msg.append(t);
                msg.append(": only files inside ");
                msg.append(allowed);
                msg.append(" are managed by Walls");
                Err(msg)
            } else {
                Ok(String::from_str(t))
            }
        },
    }
}

/// Whether the removed `target` was the current background, so that the
/// caller cycles to the next one and the link never dangles.
pub fn was_current(current: Option<&str>, target: &str) -> (r: bool)
    ensures
        r == is_current_path(target@, opt_text(current)),
{
    match current {
        Some(c) => paths_equal(c, target),
        None => false,
    }
}

/// Code-point order of names (`str::cmp`), stated directly: `a` comes no
/// later than `b` when `a` is a prefix of `b`, or when at the first position
/// where they differ `a` holds the smaller character.
pub open spec fn code_point_le(a: Seq<char>, b: Seq<char>) -> bool {
    ||| a.is_prefix_of(b)
    ||| exists|d: int|
        0 <= d < a.len() && d < b.len() && a.take(d) == b.take(d) && #[trigger] a[d] < b[d]
}

proof fn lemma_name_le_is_code_point_le(a: Seq<char>, b: Seq<char>)
    ensures
        name_le(a, b) <==> code_point_le(a, b),
    decreases a.len(),
{
    if a.len() == 0 {
        assert(a.is_prefix_of(b));
    } else if b.len() == 0 {
        assert(!a.is_prefix_of(b));
        assert(!exists|d: int|
            0 <= d < a.len() && d < b.len() && a.take(d) == b.take(d) && #[trigger] a[d] < b[d]);
    } else if a[0] != b[0] {
        assert(!a.is_prefix_of(b));
        if a[0] < b[0] {
            assert(a.take(0) =~= b.take(0));
            assert(code_point_le(a, b));
        } else {
            assert forall|d: int|
                0 <= d < a.len() && d < b.len() && a.take(d) == b.take(d) implies !(
                #[trigger] a[d] < b[d]) by {
                if d > 0 {
                    assert(a.take(d)[0] == b.take(d)[0]);
                }
            }
        }
    } else {
        let a1 = a.drop_first();
        let b1 = b.drop_first();
        lemma_name_le_is_code_point_le(a1, b1);
        assert(a.is_prefix_of(b) <==> a1.is_prefix_of(b1)) by {
            if a1.is_prefix_of(b1) {
                assert forall|i: int| 0 <= i < a.len() implies a[i] == b[i] by {
                    if i > 0 {
                        assert(a[i] == a1[i - 1] && b[i] == b1[i - 1]);
                    }
                }
            }
            if a.is_prefix_of(b) {
                assert forall|i: int| 0 <= i < a1.len() implies a1[i] == b1[i] by {
                    assert(a[i + 1] == b[i + 1]);
                }
            }
        }
        if exists|d: int|
            0 <= d < a.len() && d < b.len() && a.take(d) == b.take(d) && #[trigger] a[d] < b[d] {
            let d = choose|d: int|
                0 <= d < a.len() && d < b.len() && a.take(d) == b.take(d) && #[trigger] a[d] < b[d];
            assert(d > 0);
            assert(a1.take(d - 1) =~= a.take(d).drop_first());
            assert(b1.take(d - 1) =~= b.take(d).drop_first());
            assert(a1[d - 1] == a[d] && b1[d - 1] == b[d]);
        }
        if exists|d: int|
            0 <= d < a1.len() && d < b1.len() && a1.take(d) == b1.take(d) && #[trigger] a1[d]
                < b1[d] {
            let d = choose|d: int|
                0 <= d < a1.len() && d < b1.len() && a1.take(d) == b1.take(d) && #[trigger] a1[d]
                    < b1[d];
            assert(a.take(d + 1) =~= seq![a[0]] + a1.take(d));
            assert(b.take(d + 1) =~= seq![b[0]] + b1.take(d));
            assert(a[d + 1] == a1[d] && b[d + 1] == b1[d]);
        }
    }
}

/// A listing section sorted by name is in code-point order (`str::cmp`): for
/// any two files, the earlier one's name comes no later than the other's.
pub proof fn sorted_names_follow_code_point_order(s: Seq<FileView>)
    requires
        sorted_by_name(s),
    ensures
        forall|i: int, j: int| 0 <= i < j < s.len() ==> code_point_le(#[trigger] s[i].1, #[trigger] s[j].1),
{
    assert forall|i: int, j: int| 0 <= i < j < s.len() implies code_point_le(
        #[trigger] s[i].1,
        #[trigger] s[j].1,
    ) by {
        lemma_name_le_is_code_point_le(s[i].1, s[j].1);
    }
}

/// Sorting by name yields the input's files in code-point order of names.
pub proof fn sort_by_name_orders_by_code_point(out: Seq<FileView>, input: Seq<FileView>)
    requires
        stable_sorted_by_name(out, input),
    ensures
        forall|i: int, j: int| 0 <= i < j < out.len() ==> code_point_le(#[trigger] out[i].1, #[trigger] out[j].1),
{
    sorted_names_follow_code_point_order(out);
}

/// A listing section holds exactly the image files of its directory: every
/// listed file has an image extension, carries the section's source and is
/// marked current exactly when its path names the current background; and
/// every image file of the directory is listed.
pub proof fn collected_rule(entries: Seq<DirFile>, source: Seq<char>, current: Option<Seq<char>>)
    ensures
        forall|i: int|
            0 <= i < collected(entries, source, current).len() ==> {
                let f = #[trigger] collected(entries, source, current)[i];
                &&& is_image_name(f.1)
                &&& f.2 == source
                &&& f.3 == (current matches Some(c) && paths::path_components(c)
                    == paths::path_components(f.0))
            },
        forall|j: int|
            0 <= j < entries.len() && is_image_name((#[trigger] entries[j]).name@) ==> collected(
                entries,
                source,
                current,
            ).contains(
                (
                    entries[j].path@,
                    entries[j].name@,
                    source,
                    current matches Some(c) && paths::path_components(c)
                        == paths::path_components(entries[j].path@),
                ),
            ),
    decreases entries.len(),
{
    if entries.len() > 0 {
        let front = entries.drop_last();
        collected_rule(front, source, current);
        let prev = collected(front, source, current);
        let out = collected(entries, source, current);
        assert forall|i: int| 0 <= i < out.len() implies {
            let f = #[trigger] out[i];
            &&& is_image_name(f.1)
            &&& f.2 == source
            &&& f.3 == (current matches Some(c) && paths::path_components(c)
                == paths::path_components(f.0))
        } by {
            if i < prev.len() {
                assert(out[i] == prev[i]);
            }
        }
        assert forall|j: int|
            0 <= j < entries.len() && is_image_name((#[trigger] entries[j]).name@) implies out.contains(
            (
                entries[j].path@,
                entries[j].name@,
                source,
                current matches Some(c) && paths::path_components(c) == paths::path_components(
                    entries[j].path@,
                ),
            ),
        ) by {
            if j < front.len() {
                assert(front[j] == entries[j]);
                let t = (
                    entries[j].path@,
                    entries[j].name@,
                    source,
                    current matches Some(c) && paths::path_components(c)
                        == paths::path_components(entries[j].path@),
                );
                let x = choose|x: int| 0 <= x < prev.len() && prev[x] == t;
                assert(out[x] == prev[x]);
            } else {
                assert(entries[j] == entries.last());
                assert(out[prev.len() as int] == (
                    entries[j].path@,
                    entries[j].name@,
                    source,
                    current matches Some(c) && paths::path_components(c)
                        == paths::path_components(entries[j].path@),
                ));
            }
        }
    }
}

} // verus!
