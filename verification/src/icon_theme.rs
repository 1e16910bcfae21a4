//! Where icons and desktop files are looked for: the active icon theme, the
//! chain of themes it inherits from, the directories searched, and the
//! directories that hold `.desktop` files.

use vstd::prelude::*;

use crate::path::{path_join, path_join_chars};
use crate::text::{
    append_new, append_new_exec, law_append_new,
    chars_of, chars_of_string, lines, split_char, split_lines, split_on_char, starts_with_str,
    strip_char_both, strip_leading, strip_trailing, string_of, string_views, slice_chars, trim,
    trim_chars, views,
};

verus! {

// ---------------------------------------------------------------------------
// Active theme
// ---------------------------------------------------------------------------

/// The theme named by the output of
/// `gsettings get org.gnome.desktop.interface icon-theme`: trimmed, with the
/// single quotes around it removed; `hicolor` when that leaves nothing or when
/// there is no output.
pub open spec fn theme_from_output(out: Option<Seq<char>>) -> Seq<char> {
    match out {
        Some(o) => {
            let s = strip_trailing(strip_leading(trim(o), '\''), '\'');
            if s.len() > 0 {
                s
            } else {
                "hicolor"@
            }
        },
        None => "hicolor"@,
    }
}

/// The active icon theme, from the `gsettings` output if the command ran.
pub fn active_theme(output: Option<&str>) -> (r: String)
    ensures
        r@ == theme_from_output(
            match output {
                Some(o) => Some(o@),
                None => None,
            },
        ),
{
    match output {
        Some(o) => {
            let t = trim_chars(&chars_of(o));
            let s = strip_char_both(&t, '\'');
            if s.len() > 0 {
                string_of(&s)
            } else {
                string_of(&chars_of("hicolor"))
            }
        },
        None => string_of(&chars_of("hicolor")),
    }
}

// ---------------------------------------------------------------------------
// Theme inheritance
// ---------------------------------------------------------------------------

/// The parent themes that one line of an `index.theme` names:
/// `Inherits=a,b,...`, each name trimmed.
pub open spec fn inherits_line(l: Seq<char>) -> Seq<Seq<char>> {
    if "Inherits="@.is_prefix_of(l) {
        split_char(l.skip("Inherits="@.len() as int), ',').map_values(|p: Seq<char>| trim(p))
    } else {
        seq![]
    }
}

/// The parent themes that the lines of an `index.theme` name, in order.
pub open spec fn inherited_themes(ls: Seq<Seq<char>>) -> Seq<Seq<char>>
    decreases ls.len(),
{
    if ls.len() == 0 {
        seq![]
    } else {
        inherited_themes(ls.drop_last()) + inherits_line(ls.last())
    }
}

fn inherited_exec(content: &str) -> (r: Vec<Vec<char>>)
    ensures
        views(r@) == inherited_themes(lines(content@)),
{
    let ls = split_lines(&chars_of(content));
    let ghost vls = views(ls@);
    let mut out: Vec<Vec<char>> = Vec::new();
    let mut i: usize = 0;
    assert(vls.take(0) =~= Seq::<Seq<char>>::empty());
    while i < ls.len()
        invariant
            vls == views(ls@),
            i <= ls.len(),
            views(out@) == inherited_themes(vls.take(i as int)),
        decreases ls.len() - i,
    {
        assert(vls.take(i + 1).drop_last() =~= vls.take(i as int));
        assert(vls.take(i + 1).last() == ls@[i as int]@);
        let l = &ls[i];
        if starts_with_str(l, "Inherits=") {
            let k = chars_of("Inherits=").len();
            let rest = slice_chars(l, k, l.len());
            assert(rest@ =~= l@.skip("Inherits="@.len() as int));
            let parts = split_on_char(&rest, ',');
            let ghost vparts = views(parts@);
            let ghost before = views(out@);
            let mut j: usize = 0;
            while j < parts.len()
                invariant
                    vparts == views(parts@),
                    j <= parts.len(),
                    views(out@) == before + vparts.take(j as int).map_values(|p: Seq<char>| trim(p)),
                decreases parts.len() - j,
            {
                let ghost prev = out@;
                let t = trim_chars(&parts[j]);
                out.push(t);
                proof {
                    assert(out@.drop_last() =~= prev);
                    assert(vparts.take(j + 1).map_values(|p: Seq<char>| trim(p)) =~= vparts.take(
                        j as int,
                    ).map_values(|p: Seq<char>| trim(p)).push(trim(vparts[j as int])));
                    assert(views(out@) =~= views(prev).push(t@));
                }
                j += 1;
            }
            assert(vparts.take(parts.len() as int) =~= vparts);
        } else {
            assert(inherits_line(vls[i as int]) =~= Seq::<Seq<char>>::empty());
            assert(views(out@) =~= views(out@) + Seq::<Seq<char>>::empty());
        }
        i += 1;
    }
    assert(vls.take(ls.len() as int) =~= vls);
    out
}

fn copy_names(list: &Vec<Vec<char>>) -> (r: Vec<Vec<char>>)
    ensures
        views(r@) == views(list@),
{
    let mut out: Vec<Vec<char>> = Vec::new();
    let mut i: usize = 0;
    while i < list.len()
        invariant
            i <= list.len(),
            out.len() == i,
            views(out@) == views(list@).take(i as int),
        decreases list.len() - i,
    {
        let ghost prev = out@;
        out.push(slice_chars(&list[i], 0, list[i].len()));
        proof {
            assert(out@.drop_last() =~= prev);
            assert(out@.last()@ =~= list@[i as int]@);
            assert(views(out@) =~= views(list@).take(i + 1));
        }
        i += 1;
    }
    assert(views(list@).take(list.len() as int) =~= views(list@));
    out
}

/// The chain of icon themes to search: the active theme, then the themes each
/// theme of the chain inherits from (breadth first, each theme once), then
/// `hicolor` and `Adwaita`. The caller reads each theme's `index.theme` files
/// and hands their text to `read_index_theme`.
pub struct ThemeChain {
    themes: Vec<Vec<char>>,
    next: usize,
}

impl ThemeChain {
    #[verifier::type_invariant]
    closed spec fn wf(self) -> bool {
        &&& views(self.themes@).no_duplicates()
        &&& self.next <= self.themes.len()
        &&& self.themes.len() >= 1
    }

    /// The themes collected so far.
    pub closed spec fn themes(&self) -> Seq<Seq<char>> {
        views(self.themes@)
    }

    /// How many themes of the chain have had their `index.theme` read.
    pub closed spec fn visited(&self) -> nat {
        self.next as nat
    }

    /// A chain holding only the active theme.
    pub fn new(active: &str) -> (r: Self)
        ensures
            r.themes() == seq![active@],
            r.visited() == 0,
    {
        let mut themes: Vec<Vec<char>> = Vec::new();
        themes.push(chars_of(active));
        assert(views(themes@) =~= seq![active@]);
        ThemeChain { themes, next: 0 }
    }

    /// The next theme whose `index.theme` files are to be read, if any is left.
    pub fn next_theme(&self) -> (r: Option<String>)
        ensures
            match r {
                Some(t) => self.visited() < self.themes().len() && t@ == self.themes()[self.visited() as int],
                None => self.visited() >= self.themes().len(),
            },
    {
        if self.next < self.themes.len() {
            Some(string_of(&self.themes[self.next]))
        } else {
            None
        }
    }

    /// Adds the parents that an `index.theme` of the current theme names.
    pub fn read_index_theme(&mut self, content: &str)
        ensures
            final(self).themes() == append_new(old(self).themes(), inherited_themes(lines(content@))),
            final(self).visited() == old(self).visited(),
    {
        proof {
            use_type_invariant(&*self);
        }
        let ps = inherited_exec(content);
        let ghost t0 = views(self.themes@);
        proof {
            law_append_new(t0, views(ps@));
        }
        let mut themes = copy_names(&self.themes);
        append_new_exec(&mut themes, &ps);
        proof {
            assert(t0.len() <= views(themes@).len());
        }
        self.themes = themes;
    }

    /// Moves on to the next theme of the chain.
    pub fn advance(&mut self)
        ensures
            final(self).themes() == old(self).themes(),
            final(self).visited() == (if old(self).visited() < old(self).themes().len() {
                old(self).visited() + 1int
            } else {
                old(self).visited() as int
            }),
    {
        proof {
            use_type_invariant(&*self);
        }
        if self.next < self.themes.len() {
            self.next = self.next + 1;
        }
    }

    /// The whole chain: the themes collected, then `hicolor` and `Adwaita`
    /// unless already in it. No theme occurs twice, the active theme comes
    /// first, and both fallbacks are in it.
    pub fn finish(&self) -> (r: Vec<String>)
        ensures
            string_views(r@) == append_new(self.themes(), seq!["hicolor"@, "Adwaita"@]),
            string_views(r@).no_duplicates(),
            self.themes().is_prefix_of(string_views(r@)),
            string_views(r@).contains("hicolor"@),
            string_views(r@).contains("Adwaita"@),
    {
        proof {
            use_type_invariant(self);
        }
        let mut themes = copy_names(&self.themes);
        let mut fallbacks: Vec<Vec<char>> = Vec::new();
        fallbacks.push(chars_of("hicolor"));
        fallbacks.push(chars_of("Adwaita"));
        let ghost fb = seq!["hicolor"@, "Adwaita"@];
        assert(views(fallbacks@) =~= fb);
        append_new_exec(&mut themes, &fallbacks);
        proof {
            law_append_new(views(self.themes@), fb);
            reveal_strlit("hicolor");
            reveal_strlit("Adwaita");
            assert(fb[0].len() > 0);
            assert(fb[1].len() > 0);
        }
        let r = crate::icons::strings_of(&themes);
        r
    }
}

/// `base/theme/index.theme`.
pub fn index_theme_path(base: &str, theme: &str) -> (r: String)
    ensures
        r@ == path_join(path_join(base@, theme@), "index.theme"@),
{
    let a = path_join_chars(&chars_of(base), &chars_of(theme));
    string_of(&path_join_chars(&a, &chars_of("index.theme")))
}

// ---------------------------------------------------------------------------
// Search directories
// ---------------------------------------------------------------------------

/// Every base directory joined with each theme, theme-major.
pub open spec fn theme_search_dirs(themes: Seq<Seq<char>>, bases: Seq<Seq<char>>) -> Seq<Seq<char>>
    decreases themes.len(),
{
    if themes.len() == 0 {
        seq![]
    } else {
        theme_search_dirs(themes.drop_last(), bases) + bases.map_values(
            |b: Seq<char>| path_join(b, themes.last()),
        )
    }
}

/// The directories searched for icons: each base directory of each theme of
/// the chain, theme by theme.
pub fn search_dirs(themes: &Vec<String>, bases: &Vec<String>) -> (r: Vec<String>)
    ensures
        string_views(r@) == theme_search_dirs(string_views(themes@), string_views(bases@)),
{
    let ghost vt = string_views(themes@);
    let ghost vb = string_views(bases@);
    let mut out: Vec<Vec<char>> = Vec::new();
    let mut i: usize = 0;
    assert(vt.take(0) =~= Seq::<Seq<char>>::empty());
    while i < themes.len()
        invariant
            vt == string_views(themes@),
            vb == string_views(bases@),
            i <= themes.len(),
            views(out@) == theme_search_dirs(vt.take(i as int), vb),
        decreases themes.len() - i,
    {
        let t = chars_of_string(&themes[i]);
        let ghost before = views(out@);
        let mut j: usize = 0;
        assert(vb.take(0).map_values(|b: Seq<char>| path_join(b, t@)) =~= Seq::<Seq<char>>::empty());
        while j < bases.len()
            invariant
                vb == string_views(bases@),
                j <= bases.len(),
                views(out@) == before + vb.take(j as int).map_values(|b: Seq<char>| path_join(b, t@)),
            decreases bases.len() - j,
        {
            let ghost prev = out@;
            let d = path_join_chars(&chars_of_string(&bases[j]), &t);
            out.push(d);
            proof {
                assert(out@.drop_last() =~= prev);
                assert(vb.take(j + 1).map_values(|b: Seq<char>| path_join(b, t@)) =~= vb.take(
                    j as int,
                ).map_values(|b: Seq<char>| path_join(b, t@)).push(path_join(vb[j as int], t@)));
                assert(views(out@) =~= views(prev).push(d@));
            }
            j += 1;
        }
        proof {
            assert(vb.take(bases.len() as int) =~= vb);
            assert(vt.take(i + 1).drop_last() =~= vt.take(i as int));
            assert(vt.take(i + 1).last() == t@);
        }
        i += 1;
    }
    assert(vt.take(themes.len() as int) =~= vt);
    crate::icons::strings_of(&out)
}

/// Joins `rel` onto an optional home directory.
fn home_join(home: &Vec<char>, rel: &str) -> (r: Vec<char>)
    ensures
        r@ == path_join(home@, rel@),
{
    path_join_chars(home, &chars_of(rel))
}

/// The base directories of icon themes: the system ones, then those under the
/// home directory when it is known.
pub open spec fn icon_base_dirs(home: Option<Seq<char>>) -> Seq<Seq<char>> {
    seq!["/usr/share/icons"@, "/usr/local/share/icons"@] + match home {
        Some(h) => seq![path_join(h, ".local/share/icons"@), path_join(h, ".icons"@)],
        None => seq![],
    }
}

/// The directories that hold `.desktop` files: the system ones, then those
/// under the home directory when it is known.
pub open spec fn desktop_dir_list(home: Option<Seq<char>>) -> Seq<Seq<char>> {
    seq![
        "/usr/share/applications"@,
        "/usr/local/share/applications"@,
        "/var/lib/flatpak/exports/share/applications"@,
        "/var/lib/snapd/desktop/applications"@,
    ] + match home {
        Some(h) => seq![
            path_join(h, ".local/share/applications"@),
            path_join(h, ".local/share/flatpak/exports/share/applications"@),
        ],
        None => seq![],
    }
}

/// The view of an optional text.
pub open spec fn opt_str(o: Option<&str>) -> Option<Seq<char>> {
    match o {
        Some(s) => Some(s@),
        None => None,
    }
}

/// The base directories of icon themes for the given home directory.
pub fn icon_bases(home: Option<&str>) -> (r: Vec<String>)
    ensures
        string_views(r@) == icon_base_dirs(opt_str(home)),
{
    let mut out: Vec<Vec<char>> = Vec::new();
    out.push(chars_of("/usr/share/icons"));
    out.push(chars_of("/usr/local/share/icons"));
    if let Some(h) = home {
        let hv = chars_of(h);
        out.push(home_join(&hv, ".local/share/icons"));
        out.push(home_join(&hv, ".icons"));
    }
    assert(views(out@) =~= icon_base_dirs(opt_str(home)));
    crate::icons::strings_of(&out)
}

/// The directories that hold `.desktop` files for the given home directory.
pub fn desktop_dirs(home: Option<&str>) -> (r: Vec<String>)
    ensures
        string_views(r@) == desktop_dir_list(opt_str(home)),
{
    let mut out: Vec<Vec<char>> = Vec::new();
    out.push(chars_of("/usr/share/applications"));
    out.push(chars_of("/usr/local/share/applications"));
    out.push(chars_of("/var/lib/flatpak/exports/share/applications"));
    out.push(chars_of("/var/lib/snapd/desktop/applications"));
    if let Some(h) = home {
        let hv = chars_of(h);
        out.push(home_join(&hv, ".local/share/applications"));
        out.push(home_join(&hv, ".local/share/flatpak/exports/share/applications"));
    }
    assert(views(out@) =~= desktop_dir_list(opt_str(home)));
    crate::icons::strings_of(&out)
}

} // verus!
