//! Reading `key=value` entries out of the `[Desktop Entry]` group of a
//! freedesktop `.desktop` file, and which files are such files.

use vstd::prelude::*;

use crate::path::{extension, file_stem, path_extension, path_file_stem};
use crate::text::{
    chars_of, string_of, chars_eq, chars_eq_str, lines, slice_chars, split_lines, split_once, split_once_chars, trim,
    trim_chars, views,
};

verus! {

/// A trimmed line that opens a group (`[...]`).
pub open spec fn is_header(l: Seq<char>) -> bool {
    l.len() > 0 && l[0] == '['
}

/// A trimmed line that starts with `#`.
pub open spec fn is_comment(l: Seq<char>) -> bool {
    l.len() > 0 && l[0] == '#'
}

/// One line of a scan: headers switch the group; inside `[Desktop Entry]`, a
/// line with `=` that is not a `#` comment contributes its trimmed key and
/// trimmed value.
pub open spec fn scan_step(
    st: (bool, Seq<(Seq<char>, Seq<char>)>),
    line: Seq<char>,
) -> (bool, Seq<(Seq<char>, Seq<char>)>) {
    let l = trim(line);
    if is_header(l) {
        (l == "[Desktop Entry]"@, st.1)
    } else if !st.0 || is_comment(l) {
        st
    } else {
        match split_once(l, '=') {
            Some((k, v)) => (true, st.1.push((trim(k), trim(v)))),
            None => st,
        }
    }
}

/// The scan state after the given lines: whether the last group opened is
/// `[Desktop Entry]`, and the key/value pairs met inside such groups, in order.
pub open spec fn scan(ls: Seq<Seq<char>>) -> (bool, Seq<(Seq<char>, Seq<char>)>)
    decreases ls.len(),
{
    if ls.len() == 0 {
        (false, seq![])
    } else {
        scan_step(scan(ls.drop_last()), ls.last())
    }
}

/// The key/value pairs of the `[Desktop Entry]` groups of a file, in order.
pub open spec fn entry_pairs(content: Seq<char>) -> Seq<(Seq<char>, Seq<char>)> {
    scan(lines(content)).1
}

/// The value of the last pair with the given key.
pub open spec fn last_value(ps: Seq<(Seq<char>, Seq<char>)>, key: Seq<char>) -> Option<Seq<char>>
    decreases ps.len(),
{
    if ps.len() == 0 {
        None
    } else if ps.last().0 == key {
        Some(ps.last().1)
    } else {
        last_value(ps.drop_last(), key)
    }
}

/// The value a `[Desktop Entry]` file gives a key: the last assignment wins.
pub open spec fn entry_value(content: Seq<char>, key: Seq<char>) -> Option<Seq<char>> {
    last_value(entry_pairs(content), key)
}

/// The view of an optional character vector.
pub open spec fn opt_view(o: Option<Vec<char>>) -> Option<Seq<char>> {
    match o {
        Some(v) => Some(v@),
        None => None,
    }
}

/// The values that a `[Desktop Entry]` file gives each of `keys`.
pub fn entry_values(content: &Vec<char>, keys: &Vec<Vec<char>>) -> (r: Vec<Option<Vec<char>>>)
    ensures
        r.len() == keys.len(),
        forall|j: int| 0 <= j < keys.len() ==> #[trigger] opt_view(r@[j]) == entry_value(content@, keys@[j]@),
{
    let ls = split_lines(content);
    let ghost lv = views(ls@);
    let mut vals: Vec<Option<Vec<char>>> = Vec::new();
    let mut j: usize = 0;
    while j < keys.len()
        invariant
            j <= keys.len(),
            vals.len() == j,
            forall|q: int| 0 <= q < j ==> #[trigger] vals@[q] is None,
        decreases keys.len() - j,
    {
        vals.push(None);
        j += 1;
    }
    let mut in_main = false;
    let mut i: usize = 0;
    assert(lv.take(0) =~= Seq::<Seq<char>>::empty());
    while i < ls.len()
        invariant
            lv == views(ls@),
            lv == lines(content@),
            i <= ls.len(),
            vals.len() == keys.len(),
            in_main == scan(lv.take(i as int)).0,
            forall|q: int| 0 <= q < keys.len() ==> #[trigger] opt_view(vals@[q]) == last_value(scan(lv.take(i as int)).1, keys@[q]@),
        decreases ls.len() - i,
    {
        let ghost st = scan(lv.take(i as int));
        assert(lv.take(i + 1).drop_last() =~= lv.take(i as int));
        assert(lv.take(i + 1).last() == ls@[i as int]@);
        let l = trim_chars(&ls[i]);
        if l.len() > 0 && l[0] == '[' {
            in_main = chars_eq_str(&l, "[Desktop Entry]");
        } else if in_main && !(l.len() > 0 && l[0] == '#') {
            match split_once_chars(&l, '=') {
                Some((k, v)) => {
                    let kt = trim_chars(&k);
                    let vt = trim_chars(&v);
                    let ghost pair = (kt@, vt@);
                    let ghost ps2 = st.1.push(pair);
                    assert(scan(lv.take(i + 1)).1 == ps2);
                    let mut q: usize = 0;
                    while q < keys.len()
                        invariant
                            vals.len() == keys.len(),
                            q <= keys.len(),
                            ps2 == st.1.push(pair),
                            pair == (kt@, vt@),
                            forall|x: int| 0 <= x < q ==> #[trigger] opt_view(vals@[x]) == last_value(ps2, keys@[x]@),
                            forall|x: int| q <= x < keys.len() ==> #[trigger] opt_view(vals@[x]) == last_value(st.1, keys@[x]@),
                        decreases keys.len() - q,
                    {
                        assert(ps2.drop_last() =~= st.1);
                        if chars_eq(&kt, &keys[q]) {
                            let copy = slice_chars(&vt, 0, vt.len());
                            assert(copy@ =~= vt@);
                            vals.set(q, Some(copy));
                        }
                        q += 1;
                    }
                },
                None => {},
            }
        }
        i += 1;
    }
    assert(lv.take(ls.len() as int) =~= lv);
    vals
}


/// A file the directory scans read: its extension is `desktop`.
pub fn is_desktop_file(path: &str) -> (r: bool)
    ensures
        r == (extension(path@) == Some("desktop"@)),
{
    match path_extension(&chars_of(path)) {
        Some(e) => chars_eq_str(&e, "desktop"),
        None => false,
    }
}

/// The stem of a `.desktop` file's path, or nothing when it has none.
pub fn desktop_file_stem(path: &str) -> (r: String)
    ensures
        r@ == (match file_stem(path@) {
            Some(s) => s,
            None => Seq::<char>::empty(),
        }),
{
    match path_file_stem(&chars_of(path)) {
        Some(s) => string_of(&s),
        None => string_of(&Vec::new()),
    }
}

} // verus!
