//! Path arithmetic.  A virtual path is a slash-separated string; its model is
//! the sequence of its segments (the root is the empty sequence).  A physical
//! path is a plain string; containment under a root is a prefix test at a
//! separator boundary.

use vstd::prelude::*;
use vstd::string::*;
use crate::strutil::{str_starts_with, strings_equal};

verus! {

/// Segments produced by scanning `s` from `i` with the current segment
/// starting at `start`.
pub open spec fn split_from(s: Seq<char>, start: int, i: int) -> Seq<Seq<char>>
    decreases s.len() - i when 0 <= start <= i <= s.len()
{
    if i >= s.len() {
        seq![s.subrange(start, s.len() as int)]
    } else if s[i] == '/' {
        seq![s.subrange(start, i)] + split_from(s, i + 1, i + 1)
    } else {
        split_from(s, start, i + 1)
    }
}

/// The segments of a virtual path string: empty for the root, otherwise the
/// slash-separated pieces (empty pieces included, so `a//b` and `a/` keep
/// their empty segments and name distinct entries).
pub open spec fn path_segments(s: Seq<char>) -> Seq<Seq<char>> {
    if s.len() == 0 {
        Seq::empty()
    } else {
        split_from(s, 0, 0)
    }
}

/// Splits a virtual path string into its segments.
pub fn split_path(s: &str) -> (r: Vec<String>)
    ensures
        r.deep_view() == path_segments(s@),
{
    let n = s.unicode_len();
    let mut r: Vec<String> = Vec::new();
    if n == 0 {
        proof {
            assert(r.deep_view() =~= path_segments(s@));
        }
        return r;
    }
    let mut start: usize = 0;
    let mut i: usize = 0;
    while i < n
        invariant
            n == s@.len(),
            0 < n,
            0 <= start <= i <= n,
            r.deep_view().len() == r@.len(),
            path_segments(s@) == r.deep_view() + split_from(s@, start as int, i as int),
        decreases n - i,
    {
        if s.get_char(i) == '/' {
            let seg = s.substring_char(start, i);
            let ghost old_dv = r.deep_view();
            r.push(String::from_str(seg));
            proof {
                assert(r.deep_view() =~= old_dv.push(s@.subrange(start as int, i as int)));
                assert(path_segments(s@) =~= r.deep_view() + split_from(s@, i as int + 1, i as int + 1));
            }
            start = i + 1;
        }
        i += 1;
    }
    let seg = s.substring_char(start, n);
    let ghost old_dv = r.deep_view();
    r.push(String::from_str(seg));
    proof {
        assert(r.deep_view() =~= old_dv.push(s@.subrange(start as int, n as int)));
        assert(path_segments(s@) =~= r.deep_view());
    }
    r
}

/// The physical location of `segs` under `base`: `base` with `/seg` appended
/// for each segment in turn.
pub open spec fn joined_path(base: Seq<char>, segs: Seq<Seq<char>>) -> Seq<char>
    decreases segs.len()
{
    if segs.len() == 0 {
        base
    } else {
        joined_path(base + seq!['/'] + segs[0], segs.drop_first())
    }
}

/// Joins segments under a base path.
pub fn join_under(base: &str, segs: &Vec<String>) -> (r: String)
    ensures
        r@ == joined_path(base@, segs.deep_view()),
{
    let mut cur = String::from_str(base);
    let mut i: usize = 0;
    proof {
        reveal_strlit("/");
        assert(segs.deep_view().skip(0) =~= segs.deep_view());
    }
    while i < segs.len()
        invariant
            0 <= i <= segs@.len(),
            segs.deep_view().len() == segs@.len(),
            "/"@ =~= seq!['/'],
            joined_path(base@, segs.deep_view()) == joined_path(
                cur@,
                segs.deep_view().skip(i as int),
            ),
        decreases segs@.len() - i,
    {
        cur.append("/");
        cur.append(segs[i].as_str());
        proof {
            assert(segs.deep_view()[i as int] == segs@[i as int]@);
            assert(segs.deep_view().skip(i as int).drop_first() =~= segs.deep_view().skip(
                i as int + 1,
            ));
            assert(segs.deep_view().skip(i as int)[0] == segs.deep_view()[i as int]);
        }
        i += 1;
    }
    proof {
        assert(segs.deep_view().skip(segs@.len() as int) =~= Seq::<Seq<char>>::empty());
    }
    cur
}

/// Whether physical path `p` lies at or under the directory `root`: it is
/// `root` itself or continues it directly past a separator.
pub open spec fn is_under(root: Seq<char>, p: Seq<char>) -> bool {
    p == root || (p.len() > root.len() && p.subrange(0, root.len() as int) == root && p[root.len() as int]
        == '/')
}

/// Tests containment of `p` under `root`.
pub fn path_is_under(root: &str, p: &str) -> (r: bool)
    ensures
        r == is_under(root@, p@),
{
    if strings_equal(p, root) {
        return true;
    }
    if !str_starts_with(p, root) {
        return false;
    }
    let nr = root.unicode_len();
    let np = p.unicode_len();
    if np == nr {
        proof {
            assert(p@ =~= root@);
        }
        return true;
    }
    p.get_char(nr) == '/'
}

/// A path joined below a base stays under that base.
pub proof fn lemma_joined_is_under(base: Seq<char>, segs: Seq<Seq<char>>)
    ensures
        is_under(base, joined_path(base, segs)),
    decreases segs.len(),
{
    if segs.len() > 0 {
        let ext = base + seq!['/'] + segs[0];
        lemma_joined_is_under(ext, segs.drop_first());
        let j = joined_path(base, segs);
        assert(j == joined_path(ext, segs.drop_first()));
        assert(ext[base.len() as int] == '/');
        if j == ext {
            assert(j.subrange(0, base.len() as int) =~= base);
        } else {
            assert(j.len() > ext.len() > base.len());
            assert(j.subrange(0, ext.len() as int) == ext);
            assert forall|k: int| 0 <= k <= base.len() implies j[k] == ext[k] by {
                assert(j.subrange(0, ext.len() as int)[k] == j[k]);
            }
            assert(j.subrange(0, base.len() as int) =~= base);
            assert(j[base.len() as int] == '/');
        }
    }
}

/// First index at or after `i` where `p` carries no separator.
pub open spec fn skip_seps(p: Seq<char>, i: int) -> int
    decreases p.len() - i when 0 <= i <= p.len()
{
    if i >= p.len() {
        p.len() as int
    } else if p[i] != '/' {
        i
    } else {
        skip_seps(p, i + 1)
    }
}

pub proof fn lemma_skip_seps(p: Seq<char>, i: int)
    requires
        0 <= i <= p.len(),
    ensures
        i <= skip_seps(p, i) <= p.len(),
        skip_seps(p, i) < p.len() ==> p[skip_seps(p, i)] != '/',
        forall|j: int| i <= j < skip_seps(p, i) ==> p[j] == '/',
    decreases p.len() - i,
{
    if i < p.len() && p[i] == '/' {
        lemma_skip_seps(p, i + 1);
    }
}

/// The remainder of a contained path: `p` with the root and every separator
/// directly after it removed, so the remainder never begins with one.  A
/// path not under the root passes through unchanged.
pub open spec fn spec_strip(root: Seq<char>, p: Seq<char>) -> Seq<char> {
    if is_under(root, p) {
        p.skip(skip_seps(p, root.len() as int))
    } else {
        p
    }
}

/// Root-joining of a remainder: the empty remainder is the root itself, an
/// absolute path passes through unchanged, and anything else is placed one
/// separator below the root.
pub open spec fn spec_resolve(root: Seq<char>, rel: Seq<char>) -> Seq<char> {
    if rel.len() == 0 {
        root
    } else if rel[0] == '/' {
        rel
    } else {
        root + seq!['/'] + rel
    }
}

/// First index at or after `start` where `p` has no separator.
fn first_non_sep(p: &str, start: usize) -> (r: usize)
    requires
        start <= p@.len(),
    ensures
        r == skip_seps(p@, start as int),
        r <= p@.len(),
        (r as int) < p@.len() ==> p@[r as int] != '/',
{
    let np = p.unicode_len();
    let mut i: usize = start;
    while i < np
        invariant
            np == p@.len(),
            start <= i <= np,
            skip_seps(p@, start as int) == skip_seps(p@, i as int),
        decreases np - i,
    {
        if p.get_char(i) != '/' {
            return i;
        }
        i += 1;
    }
    i
}

/// Strips `root` and the separators after it from the front of `p`.
pub fn strip_root(root: &str, p: &str) -> (r: String)
    ensures
        r@ == spec_strip(root@, p@),
        is_under(root@, p@) ==> r@.len() == 0 || r@[0] != '/',
{
    if path_is_under(root, p) {
        let nr = root.unicode_len();
        let np = p.unicode_len();
        let cut = first_non_sep(p, nr);
        let rest = p.substring_char(cut, np);
        proof {
            assert(p@.subrange(cut as int, np as int) =~= p@.skip(skip_seps(p@, root@.len() as int)));
        }
        String::from_str(rest)
    } else {
        String::from_str(p)
    }
}

} // verus!
