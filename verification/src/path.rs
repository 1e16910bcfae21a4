//! Unix path text: the final component of a path (`Path::file_name`), its
//! extension and stem (`Path::extension`, `Path::file_stem`), and joining
//! (`Path::join`), over `/`-separated character sequences.

use vstd::prelude::*;

use crate::text::{append_chars, find, lemma_find_at, lemma_find_bounds, rfind, rfind_char, slice_chars, views};

verus! {

/// A `/`-separated piece that names a component: empty pieces (repeated
/// separators) and `.` are normalized away.
pub open spec fn keep_piece(p: Seq<char>) -> Seq<Seq<char>> {
    if p.len() == 0 || p == seq!['.'] {
        seq![]
    } else {
        seq![p]
    }
}

/// The components of a path that can end it: `/`-separated pieces without
/// empty pieces and `.`.
pub open spec fn segments(s: Seq<char>) -> Seq<Seq<char>>
    decreases s.len(),
{
    match find(s, '/') {
        None => keep_piece(s),
        Some(i) => {
            proof {
                lemma_find_bounds(s, '/');
            }
            keep_piece(s.take(i)) + segments(s.skip(i + 1))
        },
    }
}

/// The final component of a path, if it has one: none for the root, the empty
/// path, `.`, or a path that ends in `..`.
pub open spec fn file_name(s: Seq<char>) -> Option<Seq<char>> {
    let segs = segments(s);
    if segs.len() == 0 || segs.last() == seq!['.', '.'] {
        None
    } else {
        Some(segs.last())
    }
}

/// `a` joined with `b`: an absolute `b` replaces `a`; otherwise a separator is
/// put between them unless `a` is empty or already ends in one.
pub open spec fn path_join(a: Seq<char>, b: Seq<char>) -> Seq<char> {
    if b.len() > 0 && b[0] == '/' {
        b
    } else if a.len() > 0 && a.last() != '/' {
        a + seq!['/'] + b
    } else {
        a + b
    }
}

fn keep_piece_exec(p: Vec<char>, out: &mut Vec<Vec<char>>)
    ensures
        views(final(out)@) == views(old(out)@) + keep_piece(p@),
{
    let is_dot = p.len() == 1 && p[0] == '.';
    assert(is_dot == (p@ == seq!['.'])) by {
        if p@ == seq!['.'] {
            assert(p@[0] == '.');
        }
        if is_dot {
            assert(p@ =~= seq!['.']);
        }
    }
    if p.len() == 0 || is_dot {
        assert(views(out@) + keep_piece(p@) =~= views(out@));
    } else {
        let ghost prev = out@;
        let ghost pv = p@;
        out.push(p);
        assert(out@.drop_last() =~= prev);
        assert(views(out@) =~= views(prev) + seq![pv]);
    }
}

/// The components of a path (see `segments`).
pub fn path_segments(v: &Vec<char>) -> (r: Vec<Vec<char>>)
    ensures
        views(r@) == segments(v@),
{
    let n = v.len();
    let mut out: Vec<Vec<char>> = Vec::new();
    let mut start: usize = 0;
    let mut i: usize = 0;
    assert(v@.skip(0) =~= v@);
    assert(views(out@) + segments(v@) =~= segments(v@));
    while i < n
        invariant
            n == v.len(),
            start <= i <= n,
            forall|j: int| start <= j < i ==> v@[j] != '/',
            views(out@) + segments(v@.skip(start as int)) == segments(v@),
        decreases n - i,
    {
        if v[i] == '/' {
            let ghost rest = v@.skip(start as int);
            proof {
                lemma_find_at(rest, '/', i - start);
                assert(rest.take(i - start) =~= v@.subrange(start as int, i as int));
                assert(rest.skip(i - start + 1) =~= v@.skip(i + 1));
            }
            let piece = slice_chars(v, start, i);
            let ghost before = views(out@);
            keep_piece_exec(piece, &mut out);
            assert(views(out@) + segments(v@.skip(i + 1)) =~= before + segments(rest));
            start = i + 1;
        }
        i += 1;
    }
    let ghost rest = v@.skip(start as int);
    proof {
        lemma_find_at(rest, '/', rest.len() as int);
    }
    let piece = slice_chars(v, start, n);
    assert(piece@ =~= rest);
    keep_piece_exec(piece, &mut out);
    out
}

/// `Path::file_name` of a path given as text.
pub fn path_file_name(v: &Vec<char>) -> (r: Option<Vec<char>>)
    ensures
        match r {
            Some(n) => file_name(v@) == Some(n@),
            None => file_name(v@) is None,
        },
{
    let mut segs = path_segments(v);
    let ghost vs = views(segs@);
    match segs.pop() {
        None => None,
        Some(last) => {
            assert(last@ == vs.last());
            let dotdot = last.len() == 2 && last[0] == '.' && last[1] == '.';
            assert(dotdot == (last@ == seq!['.', '.'])) by {
                if last@ == seq!['.', '.'] {
                    assert(last@[0] == '.' && last@[1] == '.');
                }
                if dotdot {
                    assert(last@ =~= seq!['.', '.']);
                }
            }
            if dotdot {
                None
            } else {
                Some(last)
            }
        },
    }
}

/// `Path::join` of two paths given as text.
pub fn path_join_chars(a: &Vec<char>, b: &Vec<char>) -> (r: Vec<char>)
    ensures
        r@ == path_join(a@, b@),
{
    if b.len() > 0 && b[0] == '/' {
        let r = slice_chars(b, 0, b.len());
        assert(r@ =~= b@);
        r
    } else {
        let mut r = slice_chars(a, 0, a.len());
        assert(r@ =~= a@);
        if a.len() > 0 && a[a.len() - 1] != '/' {
            r.push('/');
        }
        append_chars(&mut r, b);
        r
    }
}


/// The extension of a path: what follows the last `.` of its file name,
/// unless that `.` starts the name.
pub open spec fn extension(s: Seq<char>) -> Option<Seq<char>> {
    match file_name(s) {
        None => None,
        Some(n) => match rfind(n, '.') {
            None => None,
            Some(i) => if i == 0 {
                None
            } else {
                Some(n.skip(i + 1))
            },
        },
    }
}

/// The stem of a path: its file name up to the last `.`, or the whole name
/// when it has no `.` but a leading one.
pub open spec fn file_stem(s: Seq<char>) -> Option<Seq<char>> {
    match file_name(s) {
        None => None,
        Some(n) => match rfind(n, '.') {
            None => Some(n),
            Some(i) => if i == 0 {
                Some(n)
            } else {
                Some(n.take(i))
            },
        },
    }
}

/// `Path::extension` of a path given as text.
pub fn path_extension(v: &Vec<char>) -> (r: Option<Vec<char>>)
    ensures
        match r {
            Some(e) => extension(v@) == Some(e@),
            None => extension(v@) is None,
        },
{
    match path_file_name(v) {
        None => None,
        Some(n) => match rfind_char(&n, '.') {
            None => None,
            Some(i) => if i == 0 {
                None
            } else {
                let e = slice_chars(&n, i + 1, n.len());
                assert(e@ =~= n@.skip(i + 1));
                Some(e)
            },
        },
    }
}

/// `Path::file_stem` of a path given as text.
pub fn path_file_stem(v: &Vec<char>) -> (r: Option<Vec<char>>)
    ensures
        match r {
            Some(e) => file_stem(v@) == Some(e@),
            None => file_stem(v@) is None,
        },
{
    match path_file_name(v) {
        None => None,
        Some(n) => match rfind_char(&n, '.') {
            None => Some(n),
            Some(i) => if i == 0 {
                Some(n)
            } else {
                let e = slice_chars(&n, 0, i);
                assert(e@ =~= n@.take(i as int));
                Some(e)
            },
        },
    }
}

} // verus!
