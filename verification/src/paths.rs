//! Unix path text: joining, splitting into components, and the component-wise
//! equality and prefix tests that `std::path::Path` uses.
use vstd::prelude::*;

use crate::text::{self, chars_of, find_in};

verus! {

/// `base.join(p)`: an absolute `p` replaces `base`; otherwise `p` follows
/// `base`, with a `/` between them unless `base` is empty or already ends in one.
pub open spec fn path_join(base: Seq<char>, p: Seq<char>) -> Seq<char> {
    if p.len() > 0 && p[0] == '/' {
        p
    } else if base.len() == 0 || base.last() == '/' {
        base + p
    } else {
        base + seq!['/'] + p
    }
}

/// Joins `p` onto `base` (`Path::join`).
pub fn join(base: &str, p: &str) -> (r: String)
    ensures
        r@ == path_join(base@, p@),
{
    let pv = chars_of(p);
    if pv.len() > 0 && pv[0] == '/' {
        return String::from_str(p);
    }
    let bv = chars_of(base);
    let mut out = String::from_str(base);
    if bv.len() > 0 && bv[bv.len() - 1] != '/' {
        text::push_char(&mut out, '/');
    }
    out.append(p);
    out
}

/// Whether a `/`-separated segment names a directory entry (empty segments
/// and `.` do not).
pub open spec fn is_normal_segment(seg: Seq<char>) -> bool {
    seg.len() > 0 && seg != seq!['.']
}

/// The named segments of `s`, in order.
pub open spec fn normal_segments(s: Seq<char>) -> Seq<Seq<char>>
    decreases s.len(),
{
    let i = text::find_char(s, '/');
    proof {
        text::lemma_find_char_bounds(s, '/');
    }
    let seg = s.take(i);
    let here = if is_normal_segment(seg) {
        seq![seg]
    } else {
        Seq::empty()
    };
    if i < s.len() {
        here + normal_segments(s.skip(i + 1))
    } else {
        here
    }
}

/// The components of a path as `Path::components` yields them, each as
/// text: the root as `/`, a leading current-directory marker as `.`, then
/// the named segments (`..` included). Neither marker can be a named segment.
pub open spec fn path_components(s: Seq<char>) -> Seq<Seq<char>> {
    let root = s.len() > 0 && s[0] == '/';
    let cur = !root && s.len() > 0 && s[0] == '.' && (s.len() == 1 || s[1] == '/');
    (if root {
        seq![seq!['/']]
    } else {
        Seq::empty()
    }) + (if cur {
        seq![seq!['.']]
    } else {
        Seq::empty()
    }) + normal_segments(s)
}

fn components_of(v: &Vec<char>) -> (r: Vec<Vec<char>>)
    ensures
        r@.map_values(|x: Vec<char>| x@) == path_components(v@),
{
    let n = v.len();
    let mut out: Vec<Vec<char>> = Vec::new();
    let root = n > 0 && v[0] == '/';
    if root {
        let mut c: Vec<char> = Vec::new();
        c.push('/');
        assert(c@ =~= seq!['/']);
        out.push(c);
    }
    let cur = !root && n > 0 && v[0] == '.' && (n == 1 || v[1] == '/');
    if cur {
        let mut c: Vec<char> = Vec::new();
        c.push('.');
        assert(c@ =~= seq!['.']);
        out.push(c);
    }
    let ghost prefix = out@.map_values(|x: Vec<char>| x@);
    assert(prefix + normal_segments(v@) == path_components(v@)) by {
        let r = if root {
            seq![seq!['/']]
        } else {
            Seq::<Seq<char>>::empty()
        };
        let c = if cur {
            seq![seq!['.']]
        } else {
            Seq::<Seq<char>>::empty()
        };
        assert(prefix =~= r + c);
    }
    assert(v@.skip(0) =~= v@);
    let mut ls: usize = 0;
    loop
        invariant
            ls <= n == v.len(),
            prefix + normal_segments(v@) == path_components(v@),
            out@.map_values(|x: Vec<char>| x@) + normal_segments(v@.skip(ls as int)) == prefix
                + normal_segments(v@),
        decreases n - ls,
    {
        let le = find_in(v, ls, n, '/');
        let ghost s = v@.skip(ls as int);
        let ghost before = out@.map_values(|x: Vec<char>| x@);
        proof {
            assert(v@.subrange(ls as int, n as int) =~= s);
            assert(s.take(le - ls) =~= v@.subrange(ls as int, le as int));
        }
        let keep = le > ls && !(le - ls == 1 && v[ls] == '.');
        if keep {
            let mut seg: Vec<char> = Vec::new();
            let mut k = ls;
            while k < le
                invariant
                    ls <= k <= le <= n == v.len(),
                    seg@ == v@.subrange(ls as int, k as int),
                decreases le - k,
            {
                seg.push(v[k]);
                k = k + 1;
                assert(seg@ =~= v@.subrange(ls as int, k as int));
            }
            out.push(seg);
        }
        proof {
            let seg = v@.subrange(ls as int, le as int);
            assert(keep == is_normal_segment(seg)) by {
                if le - ls == 1 {
                    if v@[ls as int] == '.' {
                        assert(seg =~= seq!['.']);
                    } else {
                        assert(seg[0] != '.');
                    }
                }
            }
            let here = if is_normal_segment(seg) {
                seq![seg]
            } else {
                Seq::<Seq<char>>::empty()
            };
            assert(out@.map_values(|x: Vec<char>| x@) =~= before + here);
            if le < n {
                assert(s.skip(le - ls + 1) =~= v@.skip(le + 1));
                assert(normal_segments(s) == here + normal_segments(v@.skip(le + 1)));
                assert(before + here + normal_segments(v@.skip(le + 1)) =~= before + (here
                    + normal_segments(v@.skip(le + 1))));
            } else {
                assert(normal_segments(s) == here);
            }
        }
        if le == n {
            assert(out@.map_values(|x: Vec<char>| x@) =~= prefix + normal_segments(v@));
            return out;
        }
        ls = le + 1;
    }
}

fn vec_eq(a: &Vec<char>, b: &Vec<char>) -> (r: bool)
    ensures
        r == (a@ == b@),
{
    let r = text::range_eq(a, 0, a.len(), b);
    assert(a@.subrange(0, a.len() as int) =~= a@);
    r
}

/// Whether the first `n` components of `a` and `b` agree.
fn prefix_agrees(a: &Vec<Vec<char>>, b: &Vec<Vec<char>>, n: usize) -> (r: bool)
    requires
        n <= a.len(),
        n <= b.len(),
    ensures
        r == (a@.map_values(|x: Vec<char>| x@).take(n as int) == b@.map_values(
            |x: Vec<char>| x@,
        ).take(n as int)),
{
    let ghost av = a@.map_values(|x: Vec<char>| x@);
    let ghost bv = b@.map_values(|x: Vec<char>| x@);
    let mut i: usize = 0;
    while i < n
        invariant
            i <= n <= a.len(),
            n <= b.len(),
            av == a@.map_values(|x: Vec<char>| x@),
            bv == b@.map_values(|x: Vec<char>| x@),
            forall|j: int| 0 <= j < i ==> av[j] == bv[j],
        decreases n - i,
    {
        if !vec_eq(&a[i], &b[i]) {
            assert(av.take(n as int)[i as int] != bv.take(n as int)[i as int]);
            return false;
        }
        i = i + 1;
    }
    assert(av.take(n as int) =~= bv.take(n as int));
    true
}

/// Whether two paths name the same components (`Path == Path`).
pub fn paths_equal(a: &str, b: &str) -> (r: bool)
    ensures
        r == (path_components(a@) == path_components(b@)),
{
    let ca = components_of(&chars_of(a));
    let cb = components_of(&chars_of(b));
    if ca.len() != cb.len() {
        return false;
    }
    let r = prefix_agrees(&ca, &cb, ca.len());
    proof {
        let av = ca@.map_values(|x: Vec<char>| x@);
        let bv = cb@.map_values(|x: Vec<char>| x@);
        assert(av.take(ca.len() as int) =~= av);
        assert(bv.take(ca.len() as int) =~= bv);
    }
    r
}

/// Whether `path` lies under `base` component-wise (`Path::starts_with`).
pub fn path_starts_with(path: &str, base: &str) -> (r: bool)
    ensures
        r == path_components(base@).is_prefix_of(path_components(path@)),
{
    let cp = components_of(&chars_of(path));
    let cb = components_of(&chars_of(base));
    if cb.len() > cp.len() {
        return false;
    }
    let r = prefix_agrees(&cp, &cb, cb.len());
    proof {
        let bv = cb@.map_values(|x: Vec<char>| x@);
        assert(bv.take(cb.len() as int) =~= bv);
    }
    r
}

/// Whether `path` lies strictly inside `base`: `base`'s components begin
/// `path`'s, and `path` has more of them.
pub fn path_is_inside(path: &str, base: &str) -> (r: bool)
    ensures
        r == (path_components(base@).is_prefix_of(path_components(path@))
            && path_components(base@).len() < path_components(path@).len()),
{
    let cp = components_of(&chars_of(path));
    let cb = components_of(&chars_of(base));
    if cb.len() >= cp.len() {
        return false;
    }
    let r = prefix_agrees(&cp, &cb, cb.len());
    proof {
        let bv = cb@.map_values(|x: Vec<char>| x@);
        assert(bv.take(cb.len() as int) =~= bv);
    }
    r
}

} // verus!
