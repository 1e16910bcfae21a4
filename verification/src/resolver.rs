//! Turning a process into an icon URI: the icon names tried for a process, the
//! icon files tried for a name under the active icon themes, and a cache of
//! the names already resolved. Whether a file exists is asked of a probe that
//! the caller supplies.

use vstd::prelude::*;

use crate::desktop::opt_view;
use crate::icons::{
    candidates, candidates_chars, copy_chars, distinct_keys, first_prefix, lemma_map_of, map_of,
    opt_seq, IconIndex,
};
use crate::path::{path_join, path_join_chars};
use crate::text::{
    append_chars, append_str, chars_of, chars_of_string, ends_with_str, slice_chars, string_of,
    views,
};
use crate::unicode::{lowercase, to_lowercase};

verus! {

// ---------------------------------------------------------------------------
// Icon files tried for a name
// ---------------------------------------------------------------------------

/// Icon sizes, in the order they are searched.
pub open spec fn icon_sizes() -> Seq<Seq<char>> {
    seq![
        "48x48"@,
        "64x64"@,
        "128x128"@,
        "32x32"@,
        "24x24"@,
        "22x22"@,
        "16x16"@,
        "scalable"@,
    ]
}

/// Icon categories, in the order they are searched.
pub open spec fn icon_categories() -> Seq<Seq<char>> {
    seq!["apps"@, "devices"@, "places"@, "categories"@, "status"@, "emblems"@, "mimetypes"@]
}

/// The file names an icon name may have, in the order they are searched.
pub open spec fn icon_files(n: Seq<char>) -> Seq<Seq<char>> {
    seq![n + ".svg"@, n + ".png"@, n + ".xpm"@]
}

/// Each of `xs` joined onto `p`.
pub open spec fn joined_with(p: Seq<char>, xs: Seq<Seq<char>>) -> Seq<Seq<char>> {
    xs.map_values(|x: Seq<char>| path_join(p, x))
}

/// Each of `xs` joined onto each of `ps`, prefix-major.
pub open spec fn join_each(ps: Seq<Seq<char>>, xs: Seq<Seq<char>>) -> Seq<Seq<char>>
    decreases ps.len(),
{
    if ps.len() == 0 {
        seq![]
    } else {
        join_each(ps.drop_last(), xs) + joined_with(ps.last(), xs)
    }
}

/// `dir/size/category/name.ext` for every theme directory, size, category and
/// extension, in search order.
pub open spec fn icon_paths_for(n: Seq<char>, dirs: Seq<Seq<char>>) -> Seq<Seq<char>> {
    join_each(join_each(join_each(dirs, icon_sizes()), icon_categories()), icon_files(n))
}

/// An icon name without a trailing `-symbolic`.
pub open spec fn without_symbolic(n: Seq<char>) -> Seq<char> {
    if "-symbolic"@.is_suffix_of(n) {
        n.take(n.len() - "-symbolic"@.len())
    } else {
        n
    }
}

/// Every icon file tried for a name: those for the name itself, then those for
/// the name without `-symbolic`.
pub open spec fn icon_paths(n: Seq<char>, dirs: Seq<Seq<char>>) -> Seq<Seq<char>> {
    icon_paths_for(n, dirs) + icon_paths_for(without_symbolic(n), dirs)
}

/// The `file://` URI of a path.
pub open spec fn file_uri(p: Seq<char>) -> Seq<char> {
    "file://"@ + p
}

// ---------------------------------------------------------------------------
// What the existence probe answered
// ---------------------------------------------------------------------------

/// The probe answered `b` for a path with the text `p`.
pub open spec fn probed<F: Fn(&str) -> bool>(f: F, p: Seq<char>, b: bool) -> bool {
    exists|s: &str| #[trigger] call_ensures(f, (s,), b) && s@ == p
}

/// `ps[k]` is the first path the probe found.
pub open spec fn first_found<F: Fn(&str) -> bool>(f: F, ps: Seq<Seq<char>>, k: int) -> bool {
    &&& 0 <= k < ps.len()
    &&& probed(f, ps[k], true)
    &&& forall|j: int| 0 <= j < k ==> probed(f, #[trigger] ps[j], false)
}

/// The probe found none of `ps`.
pub open spec fn none_found<F: Fn(&str) -> bool>(f: F, ps: Seq<Seq<char>>) -> bool {
    forall|j: int| 0 <= j < ps.len() ==> probed(f, #[trigger] ps[j], false)
}

/// What resolving an icon name may give: an absolute name is its own file if
/// the probe finds it; any other name is the first icon file the probe finds,
/// confirmed by a second probe.
pub open spec fn resolve_outcome<F: Fn(&str) -> bool>(
    f: F,
    name: Seq<char>,
    dirs: Seq<Seq<char>>,
    r: Option<Seq<char>>,
) -> bool {
    if name.len() > 0 && name[0] == '/' {
        match r {
            Some(u) => u == file_uri(name) && probed(f, name, true),
            None => probed(f, name, false),
        }
    } else {
        let ps = icon_paths(name, dirs);
        match r {
            Some(u) => exists|k: int| #[trigger] first_found(f, ps, k) && u == file_uri(ps[k]),
            None => none_found(f, ps) || exists|k: int| #[trigger] first_found(f, ps, k) && probed(f, ps[k], false),
        }
    }
}

/// A `file://` URI with a non-empty path.
pub open spec fn is_file_uri(u: Seq<char>) -> bool {
    u.len() > 7 && "file://"@.is_prefix_of(u)
}

/// Every icon a cache holds is a `file://` URI.
pub open spec fn cache_holds_uris(c: Map<Seq<char>, Option<Seq<char>>>) -> bool {
    forall|n: Seq<char>| #[trigger] c.contains_key(n) && c[n] is Some ==> is_file_uri(c[n]->0)
}

proof fn lemma_file_uri(p: Seq<char>)
    requires
        p.len() > 0,
    ensures
        is_file_uri(file_uri(p)),
{
    reveal_strlit("file://");
    assert("file://"@ =~= file_uri(p).take(7));
}

proof fn lemma_join_each_nonempty(ps: Seq<Seq<char>>, xs: Seq<Seq<char>>)
    requires
        forall|j: int| 0 <= j < xs.len() ==> (#[trigger] xs[j]).len() > 0,
    ensures
        forall|i: int| 0 <= i < join_each(ps, xs).len() ==> (#[trigger] join_each(ps, xs)[i]).len() > 0,
    decreases ps.len(),
{
    if ps.len() > 0 {
        lemma_join_each_nonempty(ps.drop_last(), xs);
        let a = join_each(ps.drop_last(), xs);
        let b = joined_with(ps.last(), xs);
        let all = join_each(ps, xs);
        assert(all == a + b);
        assert forall|i: int| 0 <= i < all.len() implies (#[trigger] all[i]).len() > 0 by {
            if i < a.len() {
                assert(all[i] == a[i]);
            } else {
                assert(all[i] == b[i - a.len()]);
                assert(xs[i - a.len()].len() > 0);
            }
        }
    }
}

proof fn lemma_icon_paths_nonempty(n: Seq<char>, dirs: Seq<Seq<char>>)
    ensures
        forall|i: int| 0 <= i < icon_paths(n, dirs).len() ==> (#[trigger] icon_paths(n, dirs)[i]).len() > 0,
{
    reveal_strlit(".svg");
    reveal_strlit(".png");
    reveal_strlit(".xpm");
    let m = without_symbolic(n);
    assert forall|j: int| 0 <= j < icon_files(n).len() implies (#[trigger] icon_files(n)[j]).len() > 0 by {}
    assert forall|j: int| 0 <= j < icon_files(m).len() implies (#[trigger] icon_files(m)[j]).len() > 0 by {}
    let inner_n = join_each(join_each(dirs, icon_sizes()), icon_categories());
    lemma_join_each_nonempty(inner_n, icon_files(n));
    lemma_join_each_nonempty(inner_n, icon_files(m));
    let a = icon_paths_for(n, dirs);
    let b = icon_paths_for(m, dirs);
    assert forall|i: int| 0 <= i < icon_paths(n, dirs).len() implies (#[trigger] icon_paths(n, dirs)[i]).len() > 0 by {
        if i < a.len() {
            assert(icon_paths(n, dirs)[i] == a[i]);
        } else {
            assert(icon_paths(n, dirs)[i] == b[i - a.len()]);
        }
    }
}

/// Whatever a lookup found is a `file://` URI.
proof fn lemma_outcome_uri<F: Fn(&str) -> bool>(f: F, name: Seq<char>, dirs: Seq<Seq<char>>, u: Seq<char>)
    requires
        resolve_outcome(f, name, dirs, Some(u)),
    ensures
        is_file_uri(u),
{
    if name.len() > 0 && name[0] == '/' {
        lemma_file_uri(name);
    } else {
        let ps = icon_paths(name, dirs);
        let k = choose|k: int| #[trigger] first_found(f, ps, k) && u == file_uri(ps[k]);
        lemma_icon_paths_nonempty(name, dirs);
        lemma_file_uri(ps[k]);
    }
}

/// Every found icon among cached pairs is a `file://` URI.
pub open spec fn uris_only(ps: Seq<(Seq<char>, Option<Seq<char>>)>) -> bool {
    forall|i: int| 0 <= i < ps.len() && (#[trigger] ps[i]).1 is Some ==> is_file_uri(ps[i].1->0)
}

fn joined_each(ps: &Vec<Vec<char>>, xs: &Vec<Vec<char>>) -> (r: Vec<Vec<char>>)
    ensures
        views(r@) == join_each(views(ps@), views(xs@)),
{
    let ghost vps = views(ps@);
    let ghost vxs = views(xs@);
    let mut r: Vec<Vec<char>> = Vec::new();
    let mut i: usize = 0;
    assert(vps.take(0) =~= Seq::<Seq<char>>::empty());
    while i < ps.len()
        invariant
            vps == views(ps@),
            vxs == views(xs@),
            i <= ps.len(),
            views(r@) == join_each(vps.take(i as int), vxs),
        decreases ps.len() - i,
    {
        let ghost before = views(r@);
        let mut j: usize = 0;
        assert(before + joined_with(vps[i as int], vxs.take(0)) =~= before);
        while j < xs.len()
            invariant
                vps == views(ps@),
                vxs == views(xs@),
                i < ps.len(),
                j <= xs.len(),
                views(r@) == before + joined_with(vps[i as int], vxs.take(j as int)),
            decreases xs.len() - j,
        {
            let pth = path_join_chars(&ps[i], &xs[j]);
            let ghost prev = r@;
            r.push(pth);
            proof {
                assert(r@.drop_last() =~= prev);
                assert(joined_with(vps[i as int], vxs.take(j + 1)) =~= joined_with(
                    vps[i as int],
                    vxs.take(j as int),
                ).push(path_join(vps[i as int], vxs[j as int])));
                assert(views(r@) =~= views(prev).push(pth@));
            }
            j += 1;
        }
        proof {
            assert(vxs.take(xs.len() as int) =~= vxs);
            assert(vps.take(i + 1).drop_last() =~= vps.take(i as int));
            assert(vps.take(i + 1).last() == vps[i as int]);
        }
        i += 1;
    }
    assert(vps.take(ps.len() as int) =~= vps);
    r
}

fn chars_list(items: &Vec<&str>) -> (r: Vec<Vec<char>>)
    ensures
        r.len() == items.len(),
        forall|i: int| 0 <= i < items.len() ==> #[trigger] r@[i]@ == items@[i]@,
{
    let mut r: Vec<Vec<char>> = Vec::new();
    let mut i: usize = 0;
    while i < items.len()
        invariant
            i <= items.len(),
            r.len() == i,
            forall|q: int| 0 <= q < i ==> #[trigger] r@[q]@ == items@[q]@,
        decreases items.len() - i,
    {
        r.push(chars_of(items[i]));
        i += 1;
    }
    r
}

fn icon_paths_for_exec(n: &Vec<char>, dirs: &Vec<Vec<char>>) -> (r: Vec<Vec<char>>)
    ensures
        views(r@) == icon_paths_for(n@, views(dirs@)),
{
    let sizes = chars_list(
        &vec!["48x48", "64x64", "128x128", "32x32", "24x24", "22x22", "16x16", "scalable"],
    );
    assert(views(sizes@) =~= icon_sizes());
    let cats = chars_list(
        &vec!["apps", "devices", "places", "categories", "status", "emblems", "mimetypes"],
    );
    assert(views(cats@) =~= icon_categories());
    let mut files: Vec<Vec<char>> = Vec::new();
    let mut svg = slice_chars(n, 0, n.len());
    append_str(&mut svg, ".svg");
    let mut png = slice_chars(n, 0, n.len());
    append_str(&mut png, ".png");
    let mut xpm = slice_chars(n, 0, n.len());
    append_str(&mut xpm, ".xpm");
    assert(n@.subrange(0, n@.len() as int) =~= n@);
    files.push(svg);
    files.push(png);
    files.push(xpm);
    assert(views(files@) =~= icon_files(n@));
    let a = joined_each(dirs, &sizes);
    let b = joined_each(&a, &cats);
    joined_each(&b, &files)
}

/// The icon files tried for `name`, in order.
pub fn icon_paths_exec(name: &Vec<char>, dirs: &Vec<Vec<char>>) -> (r: Vec<Vec<char>>)
    ensures
        views(r@) == icon_paths(name@, views(dirs@)),
{
    let stripped = if ends_with_str(name, "-symbolic") {
        let k = name.len() - chars_of("-symbolic").len();
        slice_chars(name, 0, k)
    } else {
        slice_chars(name, 0, name.len())
    };
    assert(stripped@ =~= without_symbolic(name@));
    let mut r = icon_paths_for_exec(name, dirs);
    let mut rest = icon_paths_for_exec(&stripped, dirs);
    let ghost a = views(r@);
    let ghost b = views(rest@);
    r.append(&mut rest);
    assert(views(r@) =~= a + b);
    r
}

/// Index of the first of `ps` that the probe finds.
fn first_existing<F: Fn(&str) -> bool>(ps: &Vec<Vec<char>>, file_exists: &F) -> (r: Option<usize>)
    requires
        forall|s: &str| call_requires(*file_exists, (s,)),
    ensures
        match r {
            Some(k) => k < ps.len() && first_found(*file_exists, views(ps@), k as int),
            None => none_found(*file_exists, views(ps@)),
        },
{
    let ghost vps = views(ps@);
    let mut i: usize = 0;
    while i < ps.len()
        invariant
            vps == views(ps@),
            i <= ps.len(),
            forall|s: &str| call_requires(*file_exists, (s,)),
            forall|j: int| 0 <= j < i ==> probed(*file_exists, #[trigger] vps[j], false),
        decreases ps.len() - i,
    {
        let s = string_of(&ps[i]);
        let st = s.as_str();
        let found = file_exists(st);
        assert(call_ensures(*file_exists, (st,), found));
        assert(probed(*file_exists, vps[i as int], found));
        if found {
            return Some(i);
        }
        i += 1;
    }
    None
}

/// Asks the probe about a path given as characters.
fn probe<F: Fn(&str) -> bool>(p: &Vec<char>, file_exists: &F) -> (b: bool)
    requires
        forall|s: &str| call_requires(*file_exists, (s,)),
    ensures
        probed(*file_exists, p@, b),
{
    let s = string_of(p);
    let st = s.as_str();
    let b = file_exists(st);
    assert(call_ensures(*file_exists, (st,), b));
    b
}

fn file_uri_exec(p: &Vec<char>) -> (r: Vec<char>)
    ensures
        r@ == file_uri(p@),
{
    let mut r = chars_of("file://");
    append_chars(&mut r, p);
    r
}

/// The file that the first probed icon path names, as `lookup_icon` finds it,
/// then turned into a URI if a second probe still finds it.
fn resolve_fresh<F: Fn(&str) -> bool>(
    name: &Vec<char>,
    dirs: &Vec<Vec<char>>,
    file_exists: &F,
) -> (r: Option<Vec<char>>)
    requires
        forall|s: &str| call_requires(*file_exists, (s,)),
    ensures
        resolve_outcome(*file_exists, name@, views(dirs@), opt_view(r)),
{
    if name.len() > 0 && name[0] == '/' {
        if probe(name, file_exists) {
            Some(file_uri_exec(name))
        } else {
            None
        }
    } else {
        let ps = icon_paths_exec(name, dirs);
        let ghost vps = views(ps@);
        match first_existing(&ps, file_exists) {
            Some(k) => {
                assert(first_found(*file_exists, vps, k as int));
                assert(vps[k as int] == ps@[k as int]@);
                if probe(&ps[k], file_exists) {
                    Some(file_uri_exec(&ps[k]))
                } else {
                    None
                }
            },
            None => None,
        }
    }
}

// ---------------------------------------------------------------------------
// Cache of resolved names
// ---------------------------------------------------------------------------

/// The views of cached name/result pairs.
pub open spec fn cache_views(es: Seq<(Vec<char>, Option<Vec<char>>)>) -> Seq<(Seq<char>, Option<Seq<char>>)> {
    es.map_values(|e: (Vec<char>, Option<Vec<char>>)| (e.0@, opt_view(e.1)))
}

/// Icon names already resolved, with what they resolved to.
pub struct IconCache {
    entries: Vec<(Vec<char>, Option<Vec<char>>)>,
}

impl View for IconCache {
    type V = Map<Seq<char>, Option<Seq<char>>>;

    closed spec fn view(&self) -> Map<Seq<char>, Option<Seq<char>>> {
        map_of(cache_views(self.entries@))
    }
}

impl IconCache {
    #[verifier::type_invariant]
    closed spec fn names_distinct(self) -> bool {
        &&& distinct_keys(cache_views(self.entries@))
        &&& uris_only(cache_views(self.entries@))
    }

    /// An empty cache.
    pub fn new() -> (r: Self)
        ensures
            r@ == Map::<Seq<char>, Option<Seq<char>>>::empty(),
    {
        let r = IconCache { entries: Vec::new() };
        assert(cache_views(r.entries@) =~= Seq::<(Seq<char>, Option<Seq<char>>)>::empty());
        r
    }

    /// The cached result for `name`, if it was resolved before.
    pub fn get(&self, name: &Vec<char>) -> (r: Option<Option<Vec<char>>>)
        ensures
            match r {
                Some(v) => self@.contains_key(name@) && self@[name@] == opt_view(v),
                None => !self@.contains_key(name@),
            },
            cache_holds_uris(self@),
    {
        proof {
            use_type_invariant(self);
            let ps = cache_views(self.entries@);
            lemma_map_of(ps);
            assert forall|n: Seq<char>| #[trigger] self@.contains_key(n) && self@[n] is Some implies is_file_uri(
                self@[n]->0,
            ) by {
                assert(map_of(ps).contains_key(n));
                let i = choose|i: int| 0 <= i < ps.len() && ps[i].0 == n;
                assert(map_of(ps)[ps[i].0] == ps[i].1);
                assert(ps[i].1 is Some);
                assert(uris_only(ps));
                assert(is_file_uri(ps[i].1->0));
            }
        }
        proof {
            use_type_invariant(self);
            lemma_map_of(cache_views(self.entries@));
        }
        let ghost ps = cache_views(self.entries@);
        let mut i: usize = 0;
        while i < self.entries.len()
            invariant
                ps == cache_views(self.entries@),
                distinct_keys(ps),
                cache_holds_uris(self@),
                i <= self.entries.len(),
                forall|j: int| 0 <= j < i ==> #[trigger] ps[j].0 != name@,
            decreases self.entries.len() - i,
        {
            if crate::text::chars_eq(&self.entries[i].0, name) {
                let v = match &self.entries[i].1 {
                    Some(u) => Some(slice_chars(u, 0, u.len())),
                    None => None,
                };
                proof {
                    lemma_map_of(ps);
                    assert(ps[i as int].0 == name@);
                    if v is Some {
                        assert(v->0@ =~= ps[i as int].1->0);
                    }
                }
                return Some(v);
            }
            i += 1;
        }
        proof {
            lemma_map_of(ps);
            if self@.contains_key(name@) {
                let j = choose|j: int| 0 <= j < ps.len() && ps[j].0 == name@;
            }
        }
        None
    }

    /// Records the result for a name not cached yet.
    fn add(&mut self, name: Vec<char>, result: Option<Vec<char>>)
        requires
            !old(self)@.contains_key(name@),
            result matches Some(u) ==> is_file_uri(u@),
        ensures
            final(self)@ == old(self)@.insert(name@, opt_view(result)),
    {
        proof {
            use_type_invariant(&*self);
        }
        let ghost old_ps = cache_views(self.entries@);
        let ghost kv = name@;
        let ghost rv = opt_view(result);
        proof {
            lemma_map_of(old_ps);
            assert forall|i: int| 0 <= i < old_ps.len() implies old_ps[i].0 != kv by {
                assert(map_of(old_ps).contains_key(old_ps[i].0));
            }
        }
        let mut entries = Vec::new();
        std::mem::swap(&mut entries, &mut self.entries);
        entries.push((name, result));
        proof {
            let ps = cache_views(entries@);
            assert(ps.drop_last() =~= old_ps);
            assert(ps.last() == (kv, rv));
            assert forall|i: int, j: int| 0 <= i < ps.len() && 0 <= j < ps.len() && i != j implies ps[i].0 != ps[j].0 by {
                if i < old_ps.len() {
                    assert(ps[i] == old_ps[i]);
                }
                if j < old_ps.len() {
                    assert(ps[j] == old_ps[j]);
                }
            }
            assert forall|i: int| 0 <= i < ps.len() && (#[trigger] ps[i]).1 is Some implies is_file_uri(ps[i].1->0) by {
                if i < old_ps.len() {
                    assert(ps[i] == old_ps[i]);
                }
            }
        }
        self.entries = entries;
        proof {
            let ps = cache_views(self.entries@);
            assert(ps.drop_last() =~= old_ps);
        }
    }
}


// ---------------------------------------------------------------------------
// Resolver
// ---------------------------------------------------------------------------

/// The view of an optional string.
pub open spec fn opt_str_view(o: Option<String>) -> Option<Seq<char>> {
    match o {
        Some(s) => Some(s@),
        None => None,
    }
}

/// The icons that the index gives the non-empty candidate names, in order.
pub open spec fn indexed_icons(m: Map<Seq<char>, Seq<char>>, cands: Seq<Seq<char>>) -> Seq<Seq<char>>
    decreases cands.len(),
{
    if cands.len() == 0 {
        seq![]
    } else {
        let rest = indexed_icons(m, cands.drop_last());
        let c = cands.last();
        if c.len() > 0 && m.contains_key(c) {
            rest.push(m[c])
        } else {
            rest
        }
    }
}

/// The icon names tried for a process, in order: the icons the index gives its
/// candidate names, the icon of the first indexed name prefix-related to its
/// lowercased name, its lowercased name itself, and the generic executable icon.
pub open spec fn names_to_try(
    m: Map<Seq<char>, Seq<char>>,
    order: Seq<(Seq<char>, Seq<char>)>,
    proc_name: Seq<char>,
    exe_path: Seq<char>,
) -> Seq<Seq<char>> {
    let pl = lowercase(proc_name);
    indexed_icons(m, candidates(proc_name, exe_path)) + opt_seq(first_prefix(order, pl)) + seq![
        pl,
        "application-x-executable"@,
    ]
}

/// The answer `r` is the result cached for the first of `names` whose cached
/// result is an icon, every earlier name being cached as unresolved; `None`
/// when every name is cached as unresolved.
pub open spec fn first_resolved(
    c: Map<Seq<char>, Option<Seq<char>>>,
    names: Seq<Seq<char>>,
    r: Option<Seq<char>>,
) -> bool {
    exists|k: int| #[trigger] resolved_at(c, names, r, k)
}

/// Every one of the first `k` names is cached as unresolved.
pub open spec fn unresolved_prefix(c: Map<Seq<char>, Option<Seq<char>>>, names: Seq<Seq<char>>, k: int) -> bool {
    forall|j: int| 0 <= j < k ==> #[trigger] c.contains_key(names[j]) && c[names[j]] is None
}

/// `names[k]` gives the answer `r` (or `k` is past the end and `r` is `None`),
/// every earlier name being cached as unresolved.
pub open spec fn resolved_at(
    c: Map<Seq<char>, Option<Seq<char>>>,
    names: Seq<Seq<char>>,
    r: Option<Seq<char>>,
    k: int,
) -> bool {
    &&& 0 <= k <= names.len()
    &&& forall|j: int| 0 <= j < k ==> #[trigger] c.contains_key(names[j]) && c[names[j]] is None
    &&& k < names.len() ==> c.contains_key(names[k]) && c[names[k]] == r && r is Some
    &&& k == names.len() ==> r is None
}

/// Resolves processes to icon URIs through an index of desktop files, the
/// directories of the active icon themes, and a cache of resolved icon names.
pub struct Resolver {
    name_to_icon: IconIndex,
    index_ready: bool,
    theme_dirs: Vec<Vec<char>>,
    theme_ready: bool,
    cache: IconCache,
}

impl Resolver {
    /// The desktop index.
    pub closed spec fn index_map(&self) -> Map<Seq<char>, Seq<char>> {
        self.name_to_icon@
    }

    /// The desktop index in the order its names were added.
    pub closed spec fn index_order(&self) -> Seq<(Seq<char>, Seq<char>)> {
        self.name_to_icon.order()
    }

    /// Whether the desktop index was loaded.
    pub closed spec fn has_index(&self) -> bool {
        self.index_ready
    }

    /// The icon theme directories searched, in order.
    pub closed spec fn dirs(&self) -> Seq<Seq<char>> {
        views(self.theme_dirs@)
    }

    /// Whether the icon theme directories were set.
    pub closed spec fn has_dirs(&self) -> bool {
        self.theme_ready
    }

    /// The icon names resolved so far, with their results.
    pub closed spec fn cached(&self) -> Map<Seq<char>, Option<Seq<char>>> {
        self.cache@
    }

    /// A resolver with nothing loaded and nothing cached.
    pub fn new() -> (r: Self)
        ensures
            r.index_map() == Map::<Seq<char>, Seq<char>>::empty(),
            r.index_order() == Seq::<(Seq<char>, Seq<char>)>::empty(),
            !r.has_index(),
            r.dirs() == Seq::<Seq<char>>::empty(),
            !r.has_dirs(),
            r.cached() == Map::<Seq<char>, Option<Seq<char>>>::empty(),
    {
        let r = Resolver {
            name_to_icon: IconIndex::new(),
            index_ready: false,
            theme_dirs: Vec::new(),
            theme_ready: false,
            cache: IconCache::new(),
        };
        assert(views(r.theme_dirs@) =~= Seq::<Seq<char>>::empty());
        r
    }

    /// A resolver whose desktop index is already loaded.
    pub fn with_index(index: IconIndex) -> (r: Self)
        ensures
            r.index_map() == index@,
            r.index_order() == index.order(),
            r.has_index(),
            r.dirs() == Seq::<Seq<char>>::empty(),
            !r.has_dirs(),
            r.cached() == Map::<Seq<char>, Option<Seq<char>>>::empty(),
    {
        let r = Resolver {
            name_to_icon: index,
            index_ready: true,
            theme_dirs: Vec::new(),
            theme_ready: false,
            cache: IconCache::new(),
        };
        assert(views(r.theme_dirs@) =~= Seq::<Seq<char>>::empty());
        r
    }

    /// Whether the desktop index was loaded.
    pub fn index_loaded(&self) -> (b: bool)
        ensures
            b == self.has_index(),
    {
        self.index_ready
    }

    /// Loads the desktop index unless one is loaded already; the first index
    /// loaded stays.
    pub fn load_index(&mut self, index: IconIndex)
        ensures
            old(self).has_index() ==> *final(self) == *old(self),
            !old(self).has_index() ==> final(self).index_map() == index@ && final(self).index_order()
                == index.order() && final(self).has_index() && final(self).dirs() == old(self).dirs()
                && final(self).has_dirs() == old(self).has_dirs() && final(self).cached()
                == old(self).cached(),
    {
        if !self.index_ready {
            self.name_to_icon = index;
            self.index_ready = true;
        }
    }

    /// The desktop index.
    pub fn index(&self) -> (r: &IconIndex)
        ensures
            r@ == self.index_map(),
            r.order() == self.index_order(),
    {
        &self.name_to_icon
    }

    /// Whether the icon theme directories were set.
    pub fn theme_dirs_loaded(&self) -> (b: bool)
        ensures
            b == self.has_dirs(),
    {
        self.theme_ready
    }

    /// Sets the icon theme directories unless they are set already; the first
    /// ones set stay.
    pub fn load_theme_dirs(&mut self, dirs: &Vec<String>)
        ensures
            old(self).has_dirs() ==> *final(self) == *old(self),
            !old(self).has_dirs() ==> final(self).dirs() == crate::text::string_views(dirs@)
                && final(self).has_dirs() && final(self).index_map() == old(self).index_map()
                && final(self).index_order() == old(self).index_order() && final(self).has_index()
                == old(self).has_index() && final(self).cached() == old(self).cached(),
    {
        if !self.theme_ready {
            let mut v: Vec<Vec<char>> = Vec::new();
            let mut i: usize = 0;
            while i < dirs.len()
                invariant
                    i <= dirs.len(),
                    v.len() == i,
                    views(v@) == crate::text::string_views(dirs@).take(i as int),
                decreases dirs.len() - i,
            {
                let ghost prev = v@;
                v.push(chars_of_string(&dirs[i]));
                assert(v@.drop_last() =~= prev);
                assert(views(v@) =~= crate::text::string_views(dirs@).take(i + 1));
                i += 1;
            }
            assert(crate::text::string_views(dirs@).take(dirs.len() as int) =~= crate::text::string_views(dirs@));
            self.theme_dirs = v;
            self.theme_ready = true;
        }
    }

    /// Whether some non-empty lookup name of the process is in the desktop index.
    pub fn has_desktop_entry(&self, proc_name: &str, exe_path: &str) -> (r: bool)
        ensures
            r == exists|i: int|
                0 <= i < candidates(proc_name@, exe_path@).len() && #[trigger] candidates(proc_name@, exe_path@)[i].len()
                    > 0 && self.index_map().contains_key(candidates(proc_name@, exe_path@)[i]),
    {
        let p = chars_of(proc_name);
        let e = chars_of(exe_path);
        let cands = candidates_chars(&p, &e);
        let ghost cs = views(cands@);
        let mut i: usize = 0;
        while i < cands.len()
            invariant
                cs == views(cands@),
                cs == candidates(proc_name@, exe_path@),
                i <= cands.len(),
                forall|j: int| 0 <= j < i ==> !(#[trigger] cs[j].len() > 0 && self.index_map().contains_key(cs[j])),
            decreases cands.len() - i,
        {
            if cands[i].len() > 0 && self.name_to_icon.contains_chars(&cands[i]) {
                assert(cs[i as int].len() > 0 && self.index_map().contains_key(cs[i as int]));
                return true;
            }
            i += 1;
        }
        false
    }

    fn resolve_chars<F: Fn(&str) -> bool>(&mut self, icon_name: &Vec<char>, file_exists: &F) -> (r: Option<Vec<char>>)
        requires
            forall|s: &str| call_requires(*file_exists, (s,)),
        ensures
            final(self).index_map() == old(self).index_map(),
            final(self).index_order() == old(self).index_order(),
            final(self).has_index() == old(self).has_index(),
            final(self).dirs() == old(self).dirs(),
            final(self).has_dirs() == old(self).has_dirs(),
            old(self).cached().contains_key(icon_name@) ==> opt_view(r) == old(self).cached()[icon_name@]
                && final(self).cached() == old(self).cached(),
            !old(self).cached().contains_key(icon_name@) ==> resolve_outcome(
                *file_exists,
                icon_name@,
                old(self).dirs(),
                opt_view(r),
            ) && final(self).cached() == old(self).cached().insert(icon_name@, opt_view(r)),
            r matches Some(u) ==> is_file_uri(u@),
            cache_holds_uris(final(self).cached()),
    {
        match self.cache.get(icon_name) {
            Some(v) => v,
            None => {
                let result = resolve_fresh(icon_name, &self.theme_dirs, file_exists);
                proof {
                    if result is Some {
                        lemma_outcome_uri(*file_exists, icon_name@, views(self.theme_dirs@), result->0@);
                    }
                }
                let stored = match &result {
                    Some(u) => Some(copy_chars(u)),
                    None => None,
                };
                assert(opt_view(stored) == opt_view(result));
                self.cache.add(copy_chars(icon_name), stored);
                result
            },
        }
    }

    /// The `file://` URI of an icon name: an absolute name is its own file; any
    /// other name is looked up in the icon themes. Results, found or not, are
    /// cached, and a cached name is answered without probing.
    pub fn resolve_icon<F: Fn(&str) -> bool>(&mut self, icon_name: &str, file_exists: &F) -> (r: Option<String>)
        requires
            forall|s: &str| call_requires(*file_exists, (s,)),
        ensures
            final(self).index_map() == old(self).index_map(),
            final(self).index_order() == old(self).index_order(),
            final(self).has_index() == old(self).has_index(),
            final(self).dirs() == old(self).dirs(),
            final(self).has_dirs() == old(self).has_dirs(),
            old(self).cached().contains_key(icon_name@) ==> opt_str_view(r) == old(self).cached()[icon_name@]
                && final(self).cached() == old(self).cached(),
            !old(self).cached().contains_key(icon_name@) ==> resolve_outcome(
                *file_exists,
                icon_name@,
                old(self).dirs(),
                opt_str_view(r),
            ) && final(self).cached() == old(self).cached().insert(icon_name@, opt_str_view(r)),
            r matches Some(u) ==> is_file_uri(u@),
            cache_holds_uris(final(self).cached()),
    {
        let n = chars_of(icon_name);
        match self.resolve_chars(&n, file_exists) {
            Some(u) => Some(string_of(&u)),
            None => None,
        }
    }

    /// The icon URI for a process: each name of `names_to_try` is resolved in
    /// turn, and the first that resolves to a file gives the answer.
    pub fn icon_uri<F: Fn(&str) -> bool>(&mut self, proc_name: &str, exe_path: &str, file_exists: &F) -> (r: Option<String>)
        requires
            forall|s: &str| call_requires(*file_exists, (s,)),
        ensures
            final(self).index_map() == old(self).index_map(),
            final(self).index_order() == old(self).index_order(),
            final(self).has_index() == old(self).has_index(),
            final(self).dirs() == old(self).dirs(),
            final(self).has_dirs() == old(self).has_dirs(),
            forall|n: Seq<char>| #[trigger] old(self).cached().contains_key(n) ==> final(self).cached().contains_key(n)
                && final(self).cached()[n] == old(self).cached()[n],
            forall|n: Seq<char>| #[trigger] final(self).cached().contains_key(n) && !old(self).cached().contains_key(n)
                ==> resolve_outcome(*file_exists, n, old(self).dirs(), final(self).cached()[n]),
            first_resolved(
                final(self).cached(),
                names_to_try(old(self).index_map(), old(self).index_order(), proc_name@, exe_path@),
                opt_str_view(r),
            ),
            r matches Some(u) ==> is_file_uri(u@),
            cache_holds_uris(final(self).cached()),
    {
        let p = chars_of(proc_name);
        let e = chars_of(exe_path);
        let cands = candidates_chars(&p, &e);
        let ghost cs = views(cands@);
        let ghost m = self.index_map();
        let mut names: Vec<Vec<char>> = Vec::new();
        let mut i: usize = 0;
        assert(cs.take(0) =~= Seq::<Seq<char>>::empty());
        while i < cands.len()
            invariant
                cs == views(cands@),
                m == self.index_map(),
                i <= cands.len(),
                views(names@) == indexed_icons(m, cs.take(i as int)),
            decreases cands.len() - i,
        {
            assert(cs.take(i + 1).drop_last() =~= cs.take(i as int));
            assert(cs.take(i + 1).last() == cands@[i as int]@);
            if cands[i].len() > 0 {
                match self.name_to_icon.lookup(&cands[i]) {
                    Some(icon) => {
                        let ghost prev = names@;
                        names.push(icon);
                        assert(names@.drop_last() =~= prev);
                        assert(views(names@) =~= views(prev).push(m[cs[i as int]]));
                    },
                    None => {},
                }
            }
            i += 1;
        }
        assert(cs.take(cands.len() as int) =~= cs);
        let pl = to_lowercase(&p);
        let ghost before_prefix = views(names@);
        match self.name_to_icon.prefix_match(&pl) {
            Some(icon) => {
                names.push(icon);
            },
            None => {},
        }
        let ghost prev = names@;
        let plc = copy_chars(&pl);
        names.push(plc);
        names.push(chars_of("application-x-executable"));
        let ghost all = names_to_try(self.index_map(), self.index_order(), proc_name@, exe_path@);
        assert(views(names@) =~= all);
        let ghost c0 = self.cached();
        let ghost dirs0 = self.dirs();
        let mut k: usize = 0;
        while k < names.len()
            invariant
                all == views(names@),
                all == names_to_try(old(self).index_map(), old(self).index_order(), proc_name@, exe_path@),
                k <= names.len(),
                self.index_map() == old(self).index_map(),
                self.index_order() == old(self).index_order(),
                self.has_index() == old(self).has_index(),
                self.dirs() == old(self).dirs(),
                self.has_dirs() == old(self).has_dirs(),
                c0 == old(self).cached(),
                dirs0 == old(self).dirs(),
                forall|s: &str| call_requires(*file_exists, (s,)),
                forall|n: Seq<char>| #[trigger] c0.contains_key(n) ==> self.cached().contains_key(n) && self.cached()[n] == c0[n],
                forall|n: Seq<char>| #[trigger] self.cached().contains_key(n) && !c0.contains_key(n) ==> resolve_outcome(*file_exists, n, dirs0, self.cached()[n]),
                unresolved_prefix(self.cached(), all, k as int),
                k > 0 ==> cache_holds_uris(self.cached()),
                names.len() >= 2,
            decreases names.len() - k,
        {
            let ghost before = self.cached();
            assert(unresolved_prefix(before, all, k as int));
            let res = self.resolve_chars(&names[k], file_exists);
            assert(self.cached().contains_key(all[k as int]) && self.cached()[all[k as int]] == opt_view(res));
            assert forall|j: int| 0 <= j < k implies #[trigger] self.cached().contains_key(all[j]) && self.cached()[all[j]] is None by {
                assert(before.contains_key(all[j]) && before[all[j]] is None);
                if before.contains_key(all[k as int]) {
                    assert(self.cached() == before);
                } else {
                    assert(all[j] != all[k as int]);
                    assert(self.cached() == before.insert(all[k as int], opt_view(res)));
                }
            }
            assert(unresolved_prefix(self.cached(), all, k as int));
            if let Some(u) = res {
                let out = string_of(&u);
                assert(resolved_at(self.cached(), all, opt_str_view(Some(out)), k as int));
                return Some(out);
            }
            assert(self.cached()[all[k as int]] is None);
            assert(unresolved_prefix(self.cached(), all, k + 1));
            k += 1;
        }
        assert(resolved_at(self.cached(), all, None::<Seq<char>>, all.len() as int));
        None
    }
}


impl Default for Resolver {
    /// A resolver with nothing loaded and nothing cached.
    fn default() -> (r: Self)
        ensures
            r.index_map() == Map::<Seq<char>, Seq<char>>::empty(),
            r.index_order() == Seq::<(Seq<char>, Seq<char>)>::empty(),
            !r.has_index(),
            r.dirs() == Seq::<Seq<char>>::empty(),
            !r.has_dirs(),
            r.cached() == Map::<Seq<char>, Option<Seq<char>>>::empty(),
    {
        Resolver::new()
    }
}

} // verus!
