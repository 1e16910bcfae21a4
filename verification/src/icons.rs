//! Resolving a process to an icon: splitting `Exec=` command lines, finding the
//! binary they run, indexing `.desktop` files by the names a process may carry,
//! and the order in which icon names and icon files are tried.

use vstd::prelude::*;

use crate::path::{file_name, path_file_name};
use crate::desktop::{entry_value, entry_values, opt_view};
use crate::text::{
    count_char, chars_eq_ignore_ascii_case, chars_eq_str, chars_of, eq_ignore_ascii_case, find, find_char,
    is_whitespace, is_ws, slice_chars, string_of, string_views, views,
};
use crate::unicode::{alphanumeric, is_alphanumeric, lowercase, to_lowercase};

verus! {

// ---------------------------------------------------------------------------
// Command-line splitting
// ---------------------------------------------------------------------------

/// One character of `shell_split`: a double quote toggles quoting; unquoted
/// whitespace ends the current word; anything else extends it.
pub open spec fn split_step(
    st: (Seq<Seq<char>>, Seq<char>, bool),
    c: char,
) -> (Seq<Seq<char>>, Seq<char>, bool) {
    if c == '"' {
        (st.0, st.1, !st.2)
    } else if is_ws(c) && !st.2 {
        if st.1.len() > 0 {
            (st.0.push(st.1), seq![], st.2)
        } else {
            st
        }
    } else {
        (st.0, st.1.push(c), st.2)
    }
}

/// The words finished, the word under way and the quoting state after `s`.
pub open spec fn split_state(s: Seq<char>) -> (Seq<Seq<char>>, Seq<char>, bool)
    decreases s.len(),
{
    if s.len() == 0 {
        (seq![], seq![], false)
    } else {
        split_step(split_state(s.drop_last()), s.last())
    }
}

/// The words of a command line: split at unquoted whitespace, double quotes
/// removed, no empty words.
pub open spec fn shell_words(s: Seq<char>) -> Seq<Seq<char>> {
    let st = split_state(s);
    if st.1.len() > 0 {
        st.0.push(st.1)
    } else {
        st.0
    }
}

/// The characters of `s` that make up its words: all but double quotes and
/// whitespace outside quotes (a character is inside quotes when an odd
/// number of double quotes precede it).
pub open spec fn word_chars(s: Seq<char>) -> Seq<char>
    decreases s.len(),
{
    if s.len() == 0 {
        seq![]
    } else {
        let c = s.last();
        let quoted = count_char(s.drop_last(), '"') % 2 == 1;
        if c == '"' || (is_ws(c) && !quoted) {
            word_chars(s.drop_last())
        } else {
            word_chars(s.drop_last()).push(c)
        }
    }
}

proof fn lemma_split_state(s: Seq<char>)
    ensures
        split_state(s).2 == (count_char(s, '"') % 2 == 1),
        split_state(s).0.flatten() + split_state(s).1 == word_chars(s),
        forall|i: int|
            0 <= i < split_state(s).0.len() ==> (#[trigger] split_state(s).0[i]).len() > 0 && !split_state(s).0[i].contains(
                '"',
            ),
        !split_state(s).1.contains('"'),
    decreases s.len(),
{
    if s.len() > 0 {
        let p = s.drop_last();
        let c = s.last();
        lemma_split_state(p);
        let st = split_state(p);
        let st2 = split_state(s);
        if c == '"' {
        } else if is_ws(c) && !st.2 {
            if st.1.len() > 0 {
                st.0.lemma_flatten_push(st.1);
                assert(st2.0.flatten() + st2.1 =~= st.0.flatten() + st.1);
                assert forall|i: int| 0 <= i < st2.0.len() implies (#[trigger] st2.0[i]).len() > 0 && !st2.0[i].contains('"') by {
                    if i < st.0.len() {
                        assert(st2.0[i] == st.0[i]);
                    }
                }
            }
        } else {
            assert(st2.0.flatten() + st2.1 =~= (st.0.flatten() + st.1).push(c));
            assert(!st2.1.contains('"')) by {
                if st2.1.contains('"') {
                    let j = choose|j: int| 0 <= j < st2.1.len() && st2.1[j] == '"';
                    if j < st.1.len() {
                        assert(st.1[j] == '"');
                    }
                }
            }
        }
    }
}

/// The words of a command line directly: none is empty or holds a double
/// quote, and run together they are exactly the text without its double
/// quotes and without its whitespace outside quotes.
pub proof fn law_shell_words(s: Seq<char>)
    ensures
        shell_words(s).flatten() == word_chars(s),
        forall|i: int|
            0 <= i < shell_words(s).len() ==> (#[trigger] shell_words(s)[i]).len() > 0 && !shell_words(s)[i].contains('"'),
{
    lemma_split_state(s);
    let st = split_state(s);
    if st.1.len() > 0 {
        st.0.lemma_flatten_push(st.1);
        assert forall|i: int| 0 <= i < shell_words(s).len() implies (#[trigger] shell_words(s)[i]).len() > 0
            && !shell_words(s)[i].contains('"') by {
            if i < st.0.len() {
                assert(shell_words(s)[i] == st.0[i]);
            }
        }
    } else {
        assert(st.0.flatten() + st.1 =~= st.0.flatten());
    }
}

fn shell_words_chars(v: &Vec<char>) -> (r: Vec<Vec<char>>)
    ensures
        views(r@) == shell_words(v@),
{
    let mut out: Vec<Vec<char>> = Vec::new();
    let mut buf: Vec<char> = Vec::new();
    let mut in_quotes = false;
    let mut i: usize = 0;
    assert(v@.take(0) =~= Seq::<char>::empty());
    while i < v.len()
        invariant
            i <= v.len(),
            split_state(v@.take(i as int)) == (views(out@), buf@, in_quotes),
        decreases v.len() - i,
    {
        let c = v[i];
        assert(v@.take(i + 1).drop_last() =~= v@.take(i as int));
        assert(v@.take(i + 1).last() == c);
        if c == '"' {
            in_quotes = !in_quotes;
        } else if is_whitespace(c) && !in_quotes {
            if buf.len() > 0 {
                let ghost prev = out@;
                let ghost b = buf@;
                out.push(buf);
                buf = Vec::new();
                assert(out@.drop_last() =~= prev);
                assert(views(out@) =~= views(prev).push(b));
                assert(buf@ =~= Seq::<char>::empty());
            }
        } else {
            buf.push(c);
        }
        i += 1;
    }
    assert(v@.take(v.len() as int) =~= v@);
    if buf.len() > 0 {
        let ghost prev = out@;
        let ghost b = buf@;
        out.push(buf);
        assert(out@.drop_last() =~= prev);
        assert(views(out@) =~= views(prev).push(b));
    }
    out
}

pub(crate) fn strings_of(vs: &Vec<Vec<char>>) -> (r: Vec<String>)
    ensures
        string_views(r@) == views(vs@),
{
    let mut r: Vec<String> = Vec::new();
    let mut i: usize = 0;
    while i < vs.len()
        invariant
            i <= vs.len(),
            r.len() == i,
            string_views(r@) == views(vs@).take(i as int),
        decreases vs.len() - i,
    {
        let s = string_of(&vs[i]);
        let ghost prev = r@;
        r.push(s);
        assert(r@.drop_last() =~= prev);
        assert(r@[i as int]@ == vs@[i as int]@);
        assert(views(vs@).take(i + 1) =~= views(vs@).take(i as int).push(vs@[i as int]@));
        assert(string_views(r@) =~= string_views(prev).push(r@[i as int]@));
        i += 1;
    }
    assert(views(vs@).take(vs.len() as int) =~= views(vs@));
    r
}

/// Splits a desktop `Exec=` line into words: unquoted whitespace separates
/// words, double quotes group them and are dropped.
pub fn shell_split(s: &str) -> (r: Vec<String>)
    ensures
        string_views(r@) == shell_words(s@),
{
    let v = chars_of(s);
    let w = shell_words_chars(&v);
    strings_of(&w)
}

// ---------------------------------------------------------------------------
// The binary an Exec line runs
// ---------------------------------------------------------------------------

/// Commands that only start another command.
pub open spec fn is_launcher(base: Seq<char>) -> bool {
    base == "env"@ || base == "sh"@ || base == "bash"@ || base == "dbus-run-session"@
}

/// A word of an Exec line that is not the binary: an environment assignment
/// (holds `=` and is not an absolute path) or a launcher.
pub open spec fn skipped_word(tok: Seq<char>) -> bool {
    ||| (find(tok, '=') is Some && !(tok.len() > 0 && tok[0] == '/'))
    ||| is_launcher(
        match file_name(tok) {
            Some(b) => b,
            None => tok,
        },
    )
}

/// The first word that is not skipped.
pub open spec fn first_command(toks: Seq<Seq<char>>) -> Option<Seq<char>>
    decreases toks.len(),
{
    if toks.len() == 0 {
        None
    } else if skipped_word(toks[0]) {
        first_command(toks.drop_first())
    } else {
        Some(toks[0])
    }
}

/// The binary an Exec line runs.
pub open spec fn exec_binary_of(exec: Seq<char>) -> Option<Seq<char>> {
    first_command(shell_words(exec))
}

fn is_skipped_word(tok: &Vec<char>) -> (r: bool)
    ensures
        r == skipped_word(tok@),
{
    let assignment = find_char(tok, '=').is_some() && !(tok.len() > 0 && tok[0] == '/');
    if assignment {
        return true;
    }
    let base = match path_file_name(tok) {
        Some(b) => b,
        None => slice_chars(tok, 0, tok.len()),
    };
    assert(base@ == (match file_name(tok@) {
        Some(b) => b,
        None => tok@,
    })) by {
        if file_name(tok@) is None {
            assert(base@ =~= tok@);
        }
    }
    chars_eq_str(&base, "env") || chars_eq_str(&base, "sh") || chars_eq_str(&base, "bash")
        || chars_eq_str(&base, "dbus-run-session")
}

pub(crate) fn exec_binary_chars(exec: &Vec<char>) -> (r: Option<Vec<char>>)
    ensures
        match r {
            Some(b) => exec_binary_of(exec@) == Some(b@),
            None => exec_binary_of(exec@) is None,
        },
{
    let toks = shell_words_chars(exec);
    let ghost all = views(toks@);
    let mut i: usize = 0;
    assert(all.skip(0) =~= all);
    while i < toks.len()
        invariant
            all == views(toks@),
            all == shell_words(exec@),
            i <= toks.len(),
            first_command(all.skip(i as int)) == first_command(all),
        decreases toks.len() - i,
    {
        assert(all.skip(i as int).len() > 0);
        assert(all.skip(i as int)[0] == toks@[i as int]@);
        assert(all.skip(i as int).drop_first() =~= all.skip(i + 1));
        if !is_skipped_word(&toks[i]) {
            let b = slice_chars(&toks[i], 0, toks[i].len());
            assert(b@ =~= toks@[i as int]@);
            assert(first_command(all.skip(i as int)) == Some(b@));
            assert(exec_binary_of(exec@) == first_command(all));
            return Some(b);
        }
        i += 1;
    }
    None
}

/// The binary that a desktop `Exec=` line runs: its first word that is neither
/// an environment assignment nor `env`, `sh`, `bash` or `dbus-run-session`.
pub fn exec_binary(exec: &str) -> (r: Option<String>)
    ensures
        match r {
            Some(b) => exec_binary_of(exec@) == Some(b@),
            None => exec_binary_of(exec@) is None,
        },
{
    let v = chars_of(exec);
    match exec_binary_chars(&v) {
        Some(b) => Some(string_of(&b)),
        None => None,
    }
}

// ---------------------------------------------------------------------------
// Names under which a process may appear in the index
// ---------------------------------------------------------------------------

/// Length of the leading run of alphanumeric or `_` characters.
pub open spec fn stem_len(s: Seq<char>) -> int
    decreases s.len(),
{
    if s.len() == 0 {
        0
    } else if !(alphanumeric(s[0]) || s[0] == '_') {
        0
    } else {
        1 + stem_len(s.drop_first())
    }
}

/// The lookup names of a process, in order: the lowercased file name of its
/// executable, its lowercased name, the leading word of that name, and the
/// first ten characters of the name when they differ from both.
pub open spec fn candidates(proc_name: Seq<char>, exe_path: Seq<char>) -> Seq<Seq<char>> {
    let exe_base = lowercase(
        match file_name(exe_path) {
            Some(b) => b,
            None => seq![],
        },
    );
    let pl = lowercase(proc_name);
    let stem = pl.take(stem_len(pl));
    let prefix = if pl.len() <= 10 {
        pl
    } else {
        pl.take(10)
    };
    if prefix != stem && prefix != pl {
        seq![exe_base, pl, stem, prefix]
    } else {
        seq![exe_base, pl, stem]
    }
}

proof fn lemma_stem_len_at(s: Seq<char>, k: int)
    requires
        0 <= k <= s.len(),
        forall|j: int| 0 <= j < k ==> alphanumeric(#[trigger] s[j]) || s[j] == '_',
        k < s.len() ==> !(alphanumeric(s[k]) || s[k] == '_'),
    ensures
        stem_len(s) == k,
    decreases k,
{
    if k > 0 {
        assert forall|j: int| 0 <= j < k - 1 implies alphanumeric(#[trigger] s.drop_first()[j])
            || s.drop_first()[j] == '_' by {
            assert(s.drop_first()[j] == s[j + 1]);
        }
        if k < s.len() {
            assert(s.drop_first()[k - 1] == s[k]);
        }
        lemma_stem_len_at(s.drop_first(), k - 1);
    }
}

pub(crate) fn candidates_chars(proc_name: &Vec<char>, exe_path: &Vec<char>) -> (r: Vec<Vec<char>>)
    ensures
        views(r@) == candidates(proc_name@, exe_path@),
{
    let base = match path_file_name(exe_path) {
        Some(b) => b,
        None => Vec::new(),
    };
    assert(base@ == (match file_name(exe_path@) {
        Some(b) => b,
        None => Seq::<char>::empty(),
    }));
    let exe_base = to_lowercase(&base);
    let pl = to_lowercase(proc_name);
    let mut k: usize = 0;
    while k < pl.len() && (is_alphanumeric(pl[k]) || pl[k] == '_')
        invariant
            k <= pl.len(),
            forall|j: int| 0 <= j < k ==> alphanumeric(#[trigger] pl@[j]) || pl@[j] == '_',
        decreases pl.len() - k,
    {
        k += 1;
    }
    proof {
        lemma_stem_len_at(pl@, k as int);
    }
    let stem = slice_chars(&pl, 0, k);
    let plen = if pl.len() <= 10 {
        pl.len()
    } else {
        10
    };
    let prefix = slice_chars(&pl, 0, plen);
    assert(prefix@ == (if pl@.len() <= 10 {
        pl@
    } else {
        pl@.take(10)
    })) by {
        if pl@.len() <= 10 {
            assert(prefix@ =~= pl@);
        }
    }
    let differs = !crate::text::chars_eq(&prefix, &stem) && !crate::text::chars_eq(&prefix, &pl);
    let mut r: Vec<Vec<char>> = Vec::new();
    r.push(exe_base);
    r.push(pl);
    r.push(stem);
    if differs {
        r.push(prefix);
    }
    assert(views(r@) =~= candidates(proc_name@, exe_path@));
    r
}

/// The names under which a process is looked up in the desktop index.
pub fn desktop_candidates(proc_name: &str, exe_path: &str) -> (r: Vec<String>)
    ensures
        string_views(r@) == candidates(proc_name@, exe_path@),
{
    let p = chars_of(proc_name);
    let e = chars_of(exe_path);
    let c = candidates_chars(&p, &e);
    strings_of(&c)
}


// ---------------------------------------------------------------------------
// Index of desktop entries
// ---------------------------------------------------------------------------

/// The views of key/value pairs of character vectors.
pub open spec fn pair_views(es: Seq<(Vec<char>, Vec<char>)>) -> Seq<(Seq<char>, Seq<char>)> {
    es.map_values(|e: (Vec<char>, Vec<char>)| (e.0@, e.1@))
}

/// The map that a list of pairs with distinct keys stands for.
pub open spec fn map_of<V>(ps: Seq<(Seq<char>, V)>) -> Map<Seq<char>, V>
    decreases ps.len(),
{
    if ps.len() == 0 {
        Map::empty()
    } else {
        map_of(ps.drop_last()).insert(ps.last().0, ps.last().1)
    }
}

/// No key occurs twice.
pub open spec fn distinct_keys<V>(ps: Seq<(Seq<char>, V)>) -> bool {
    forall|i: int, j: int| 0 <= i < ps.len() && 0 <= j < ps.len() && i != j ==> ps[i].0 != ps[j].0
}

/// A key is in the map exactly when a pair holds it, and then the map gives
/// that pair's value.
pub proof fn lemma_map_of<V>(ps: Seq<(Seq<char>, V)>)
    requires
        distinct_keys(ps),
    ensures
        forall|k: Seq<char>| #[trigger] map_of(ps).contains_key(k) <==> exists|i: int| 0 <= i < ps.len() && ps[i].0 == k,
        forall|i: int| 0 <= i < ps.len() ==> #[trigger] map_of(ps)[ps[i].0] == ps[i].1,
        map_of(ps).dom().finite(),
        map_of(ps).dom().len() == ps.len(),
    decreases ps.len(),
{
    if ps.len() > 0 {
        let q = ps.drop_last();
        assert(distinct_keys(q));
        lemma_map_of(q);
        assert forall|k: Seq<char>| #[trigger] map_of(ps).contains_key(k) <==> exists|i: int| 0 <= i < ps.len() && ps[i].0 == k by {
            if map_of(ps).contains_key(k) && k != ps.last().0 {
                let i = choose|i: int| 0 <= i < q.len() && q[i].0 == k;
                assert(ps[i].0 == k);
            }
            if exists|i: int| 0 <= i < ps.len() && ps[i].0 == k {
                let i = choose|i: int| 0 <= i < ps.len() && ps[i].0 == k;
                if i < q.len() {
                    assert(q[i].0 == k);
                }
            }
        }
        assert forall|i: int| 0 <= i < ps.len() implies #[trigger] map_of(ps)[ps[i].0] == ps[i].1 by {
            if i < q.len() {
                assert(q[i] == ps[i]);
                assert(ps[i].0 != ps.last().0);
            }
        }
        assert(!map_of(q).contains_key(ps.last().0)) by {
            if map_of(q).contains_key(ps.last().0) {
                let i = choose|i: int| 0 <= i < q.len() && q[i].0 == ps.last().0;
                assert(ps[i].0 == ps[ps.len() - 1].0);
            }
        }
    }
}

/// Lowercased process names mapped to the icon names that desktop entries give
/// them. A name is added once; later entries do not replace it.
pub struct IconIndex {
    entries: Vec<(Vec<char>, Vec<char>)>,
}

impl View for IconIndex {
    type V = Map<Seq<char>, Seq<char>>;

    closed spec fn view(&self) -> Map<Seq<char>, Seq<char>> {
        map_of(pair_views(self.entries@))
    }
}

impl IconIndex {
    /// The names of the index with their icons, in the order they were added.
    pub closed spec fn order(&self) -> Seq<(Seq<char>, Seq<char>)> {
        pair_views(self.entries@)
    }

    #[verifier::type_invariant]
    closed spec fn keys_distinct(self) -> bool {
        distinct_keys(pair_views(self.entries@))
    }

    /// An empty index.
    pub fn new() -> (r: Self)
        ensures
            r@ == Map::<Seq<char>, Seq<char>>::empty(),
            r.order() == Seq::<(Seq<char>, Seq<char>)>::empty(),
    {
        let r = IconIndex { entries: Vec::new() };
        assert(r.order() =~= Seq::<(Seq<char>, Seq<char>)>::empty());
        r
    }

    /// Position of `key` among the entries.
    fn position(&self, key: &Vec<char>) -> (r: Option<usize>)
        ensures
            match r {
                Some(i) => i < self.entries.len() && self.entries@[i as int].0@ == key@,
                None => !self@.contains_key(key@),
            },
    {
        proof {
            use_type_invariant(self);
            lemma_map_of(pair_views(self.entries@));
        }
        let mut i: usize = 0;
        while i < self.entries.len()
            invariant
                i <= self.entries.len(),
                forall|j: int| 0 <= j < i ==> #[trigger] self.entries@[j].0@ != key@,
            decreases self.entries.len() - i,
        {
            if crate::text::chars_eq(&self.entries[i].0, key) {
                return Some(i);
            }
            i += 1;
        }
        proof {
            let ps = pair_views(self.entries@);
            if self@.contains_key(key@) {
                let j = choose|j: int| 0 <= j < ps.len() && ps[j].0 == key@;
                assert(self.entries@[j].0@ == key@);
            }
        }
        None
    }

    /// Number of names in the index.
    pub fn len(&self) -> (r: usize)
        ensures
            r == self@.dom().len(),
            self@.dom().finite(),
    {
        proof {
            use_type_invariant(self);
            lemma_map_of(pair_views(self.entries@));
        }
        self.entries.len()
    }

    /// Whether the index holds no name.
    pub fn is_empty(&self) -> (r: bool)
        ensures
            r == (self@.dom().len() == 0),
    {
        self.len() == 0
    }

    /// The icon that the index gives `key`.
    pub fn get(&self, key: &str) -> (r: Option<String>)
        ensures
            match r {
                Some(icon) => self@.contains_key(key@) && self@[key@] == icon@,
                None => !self@.contains_key(key@),
            },
    {
        let k = chars_of(key);
        match self.lookup(&k) {
            Some(icon) => Some(string_of(&icon)),
            None => None,
        }
    }

    /// The icon that the index gives `key`, as characters.
    pub fn lookup(&self, key: &Vec<char>) -> (r: Option<Vec<char>>)
        ensures
            match r {
                Some(icon) => self@.contains_key(key@) && self@[key@] == icon@,
                None => !self@.contains_key(key@),
            },
    {
        proof {
            use_type_invariant(self);
            lemma_map_of(pair_views(self.entries@));
        }
        match self.position(key) {
            Some(i) => {
                let icon = slice_chars(&self.entries[i].1, 0, self.entries[i].1.len());
                proof {
                    let ps = pair_views(self.entries@);
                    assert(ps[i as int].0 == key@);
                    assert(icon@ =~= ps[i as int].1);
                }
                Some(icon)
            },
            None => None,
        }
    }

    /// Whether the index holds `key`.
    pub fn contains_key(&self, key: &str) -> (r: bool)
        ensures
            r == self@.contains_key(key@),
    {
        let k = chars_of(key);
        self.contains_chars(&k)
    }

    /// Whether the index holds `key`, given as characters.
    pub fn contains_chars(&self, key: &Vec<char>) -> (r: bool)
        ensures
            r == self@.contains_key(key@),
    {
        proof {
            use_type_invariant(self);
            lemma_map_of(pair_views(self.entries@));
        }
        match self.position(key) {
            Some(i) => {
                assert(pair_views(self.entries@)[i as int].0 == key@);
                true
            },
            None => false,
        }
    }

    /// Adds `key` with `icon` unless the index already holds `key`
    /// (`HashMap::entry(..).or_insert(..)`).
    pub fn insert_if_absent(&mut self, key: Vec<char>, icon: Vec<char>)
        ensures
            final(self)@ == (if old(self)@.contains_key(key@) {
                old(self)@
            } else {
                old(self)@.insert(key@, icon@)
            }),
    {
        proof {
            use_type_invariant(&*self);
        }
        let pos = self.position(&key);
        if pos.is_none() {
            let ghost old_ps = pair_views(self.entries@);
            let ghost kv = key@;
            let ghost iv = icon@;
            proof {
                lemma_map_of(old_ps);
                assert forall|i: int| 0 <= i < old_ps.len() implies old_ps[i].0 != kv by {
                    assert(map_of(old_ps).contains_key(old_ps[i].0));
                }
            }
            let mut entries = Vec::new();
            std::mem::swap(&mut entries, &mut self.entries);
            entries.push((key, icon));
            proof {
                let ps = pair_views(entries@);
                assert(ps.drop_last() =~= old_ps);
                assert(ps.last() == (kv, iv));
                assert(distinct_keys(ps)) by {
                    assert forall|i: int, j: int| 0 <= i < ps.len() && 0 <= j < ps.len() && i != j implies ps[i].0 != ps[j].0 by {
                        if i < old_ps.len() && j < old_ps.len() {
                            assert(ps[i] == old_ps[i] && ps[j] == old_ps[j]);
                        } else if i < old_ps.len() {
                            assert(ps[i] == old_ps[i]);
                        } else if j < old_ps.len() {
                            assert(ps[j] == old_ps[j]);
                        }
                    }
                }
            }
            self.entries = entries;
            proof {
                let ps = pair_views(self.entries@);
                assert(ps.drop_last() =~= old_ps);
                assert(map_of(ps) == map_of(old_ps).insert(kv, iv));
            }
        } else {
            proof {
                let ps = pair_views(self.entries@);
                lemma_map_of(ps);
                let i = pos->0;
                assert(ps[i as int].0 == key@);
            }
        }
    }

    /// Sets the icon of `key`, replacing any earlier one (`HashMap::insert`).
    pub fn insert(&mut self, key: &str, icon: &str)
        ensures
            final(self)@ == old(self)@.insert(key@, icon@),
    {
        proof {
            use_type_invariant(&*self);
        }
        let k = chars_of(key);
        let v = chars_of(icon);
        match self.position(&k) {
            Some(i) => {
                let ghost old_ps = pair_views(self.entries@);
                let mut entries = Vec::new();
                std::mem::swap(&mut entries, &mut self.entries);
                let ghost kv = k@;
                let ghost iv = v@;
                entries.set(i, (k, v));
                proof {
                    let ps = pair_views(entries@);
                    assert(ps =~= old_ps.update(i as int, (kv, iv)));
                    assert(distinct_keys(ps)) by {
                        assert forall|a: int, b: int| 0 <= a < ps.len() && 0 <= b < ps.len() && a != b implies ps[a].0 != ps[b].0 by {
                            assert(ps[a].0 == old_ps[a].0);
                            assert(ps[b].0 == old_ps[b].0);
                        }
                    }
                    lemma_map_of(old_ps);
                    lemma_map_of(ps);
                    assert(map_of(ps) =~= map_of(old_ps).insert(kv, iv)) by {
                        assert forall|x: Seq<char>| #[trigger] map_of(ps).contains_key(x) <==> map_of(old_ps).insert(kv, iv).contains_key(x) by {
                            if map_of(old_ps).contains_key(x) {
                                let j = choose|j: int| 0 <= j < old_ps.len() && old_ps[j].0 == x;
                                assert(ps[j].0 == x);
                            }
                            if map_of(ps).contains_key(x) {
                                let j = choose|j: int| 0 <= j < ps.len() && ps[j].0 == x;
                                assert(old_ps[j].0 == x);
                            }
                            assert(ps[i as int].0 == kv);
                        }
                        assert forall|x: Seq<char>| #[trigger] map_of(ps).contains_key(x) implies map_of(ps)[x] == map_of(old_ps).insert(kv, iv)[x] by {
                            let j = choose|j: int| 0 <= j < ps.len() && ps[j].0 == x;
                            assert(map_of(ps)[ps[j].0] == ps[j].1);
                            assert(ps[i as int] == (kv, iv));
                            if j != i {
                                assert(map_of(old_ps)[old_ps[j].0] == old_ps[j].1);
                            }
                        }
                    }
                }
                self.entries = entries;
            },
            None => {
                self.insert_if_absent(k, v);
            },
        }
    }

    /// An icon whose name starts with `p`, or whose name `p` starts with, if
    /// the index holds such a name.
    pub fn prefix_match(&self, p: &Vec<char>) -> (r: Option<Vec<char>>)
        ensures
            opt_view(r) == first_prefix(self.order(), p@),
            match r {
                Some(icon) => exists|k: Seq<char>| #[trigger] self@.contains_key(k) && prefix_related(k, p@) && self@[k] == icon@,
                None => forall|k: Seq<char>| #[trigger] self@.contains_key(k) ==> !prefix_related(k, p@),
            },
    {
        proof {
            use_type_invariant(self);
            lemma_map_of(pair_views(self.entries@));
        }
        let ghost ps = pair_views(self.entries@);
        let mut i: usize = 0;
        assert(ps.skip(0) =~= ps);
        while i < self.entries.len()
            invariant
                ps == pair_views(self.entries@),
                ps == self.order(),
                distinct_keys(ps),
                first_prefix(ps.skip(i as int), p@) == first_prefix(ps, p@),
                i <= self.entries.len(),
                forall|j: int| 0 <= j < i ==> !prefix_related(#[trigger] ps[j].0, p@),
            decreases self.entries.len() - i,
        {
            assert(ps.skip(i as int).len() > 0);
            assert(ps.skip(i as int)[0] == ps[i as int]);
            assert(ps.skip(i as int).drop_first() =~= ps.skip(i + 1));
            let key = &self.entries[i].0;
            if crate::text::starts_with(key, p) || crate::text::starts_with(p, key) {
                let icon = slice_chars(&self.entries[i].1, 0, self.entries[i].1.len());
                proof {
                    lemma_map_of(ps);
                    assert(ps[i as int].0 == key@);
                    assert(icon@ =~= ps[i as int].1);
                    assert(self@.contains_key(ps[i as int].0));
                    assert(prefix_related(ps[i as int].0, p@));
                }
                return Some(icon);
            }
            i += 1;
        }
        proof {
            lemma_map_of(ps);
            assert(ps.skip(ps.len() as int).len() == 0);
            assert forall|k: Seq<char>| #[trigger] self@.contains_key(k) implies !prefix_related(k, p@) by {
                let j = choose|j: int| 0 <= j < ps.len() && ps[j].0 == k;
            }
        }
        None
    }
}

/// The icon of the first pair whose name is prefix-related to `p`.
pub open spec fn first_prefix(ps: Seq<(Seq<char>, Seq<char>)>, p: Seq<char>) -> Option<Seq<char>>
    decreases ps.len(),
{
    if ps.len() == 0 {
        None
    } else if prefix_related(ps[0].0, p) {
        Some(ps[0].1)
    } else {
        first_prefix(ps.drop_first(), p)
    }
}

/// Prefix matching finds an icon exactly when some indexed name starts with
/// the process name or is a start of it, and then it gives the icon of the
/// first such name in index order.
pub proof fn law_prefix_match(ps: Seq<(Seq<char>, Seq<char>)>, p: Seq<char>)
    ensures
        first_prefix(ps, p) is Some <==> exists|i: int|
            0 <= i < ps.len() && (p.is_prefix_of(#[trigger] ps[i].0) || ps[i].0.is_prefix_of(p)),
        first_prefix(ps, p) matches Some(v) ==> exists|i: int|
            0 <= i < ps.len() && (p.is_prefix_of(#[trigger] ps[i].0) || ps[i].0.is_prefix_of(p)) && v == ps[i].1
                && forall|j: int| 0 <= j < i ==> !(p.is_prefix_of(#[trigger] ps[j].0) || ps[j].0.is_prefix_of(p)),
    decreases ps.len(),
{
    if ps.len() > 0 {
        let q = ps.drop_first();
        law_prefix_match(q, p);
        if p.is_prefix_of(ps[0].0) || ps[0].0.is_prefix_of(p) {
            assert(first_prefix(ps, p) == Some(ps[0].1));
        } else {
            assert(first_prefix(ps, p) == first_prefix(q, p));
            if exists|i: int| 0 <= i < ps.len() && (p.is_prefix_of(#[trigger] ps[i].0) || ps[i].0.is_prefix_of(p)) {
                let i = choose|i: int| 0 <= i < ps.len() && (p.is_prefix_of(#[trigger] ps[i].0) || ps[i].0.is_prefix_of(p));
                assert(i > 0);
                assert(q[i - 1] == ps[i]);
            }
            if exists|i: int| 0 <= i < q.len() && (p.is_prefix_of(#[trigger] q[i].0) || q[i].0.is_prefix_of(p)) {
                let i = choose|i: int| 0 <= i < q.len() && (p.is_prefix_of(#[trigger] q[i].0) || q[i].0.is_prefix_of(p));
                assert(q[i] == ps[i + 1]);
            }
            if first_prefix(q, p) is Some {
                let v = first_prefix(q, p)->0;
                let i = choose|i: int|
                    0 <= i < q.len() && (p.is_prefix_of(#[trigger] q[i].0) || q[i].0.is_prefix_of(p)) && v == q[i].1
                        && forall|j: int| 0 <= j < i ==> !(p.is_prefix_of(#[trigger] q[j].0) || q[j].0.is_prefix_of(p));
                assert(q[i] == ps[i + 1]);
                assert forall|j: int| 0 <= j < i + 1 implies !(p.is_prefix_of(#[trigger] ps[j].0) || ps[j].0.is_prefix_of(p)) by {
                    if j > 0 {
                        assert(ps[j] == q[j - 1]);
                    }
                }
            }
        }
    }
}

/// Two names where one starts with the other.
pub open spec fn prefix_related(k: Seq<char>, p: Seq<char>) -> bool {
    p.is_prefix_of(k) || k.is_prefix_of(p)
}


// ---------------------------------------------------------------------------
// Indexing one desktop file
// ---------------------------------------------------------------------------

/// A one-element sequence for `Some`, an empty one for `None`.
pub open spec fn opt_seq(o: Option<Seq<char>>) -> Seq<Seq<char>> {
    match o {
        Some(x) => seq![x],
        None => seq![],
    }
}

/// Whether a desktop file hides its entry (`Hidden=true`, any ASCII case).
pub open spec fn entry_hidden(content: Seq<char>) -> bool {
    match entry_value(content, "Hidden"@) {
        Some(v) => eq_ignore_ascii_case(v, "true"@),
        None => false,
    }
}

/// The icon a desktop file contributes: none when it is hidden or names no icon.
pub open spec fn entry_icon(content: Seq<char>) -> Option<Seq<char>> {
    if entry_hidden(content) {
        None
    } else {
        entry_value(content, "Icon"@)
    }
}

/// The file name of the binary that the `Exec=` line runs.
pub open spec fn exec_name(content: Seq<char>) -> Option<Seq<char>> {
    match entry_value(content, "Exec"@) {
        Some(e) => match exec_binary_of(e) {
            Some(b) => file_name(b),
            None => None,
        },
        None => None,
    }
}

/// The file name of the `TryExec=` binary.
pub open spec fn try_exec_name(content: Seq<char>) -> Option<Seq<char>> {
    match entry_value(content, "TryExec"@) {
        Some(t) => file_name(t),
        None => None,
    }
}

/// The names a desktop file is indexed under, in order, before lowercasing:
/// its Exec binary, its TryExec binary, its window class and its file stem.
pub open spec fn index_names(content: Seq<char>, stem: Seq<char>) -> Seq<Seq<char>> {
    opt_seq(exec_name(content)) + opt_seq(try_exec_name(content)) + opt_seq(
        entry_value(content, "StartupWMClass"@),
    ) + seq![stem]
}

/// `m` after adding each lowercased, non-empty name that it does not hold yet.
pub open spec fn add_names(
    m: Map<Seq<char>, Seq<char>>,
    names: Seq<Seq<char>>,
    icon: Seq<char>,
) -> Map<Seq<char>, Seq<char>>
    decreases names.len(),
{
    if names.len() == 0 {
        m
    } else {
        let m2 = add_names(m, names.drop_last(), icon);
        let k = lowercase(names.last());
        if k.len() == 0 || m2.contains_key(k) {
            m2
        } else {
            m2.insert(k, icon)
        }
    }
}

/// The index after reading one desktop file with the given file stem.
pub open spec fn index_after(
    m: Map<Seq<char>, Seq<char>>,
    content: Seq<char>,
    stem: Seq<char>,
) -> Map<Seq<char>, Seq<char>> {
    match entry_icon(content) {
        Some(icon) => add_names(m, index_names(content, stem), icon),
        None => m,
    }
}

pub(crate) fn copy_chars(v: &Vec<char>) -> (r: Vec<char>)
    ensures
        r@ == v@,
{
    let r = slice_chars(v, 0, v.len());
    assert(r@ =~= v@);
    r
}

/// Adds to `out` the names under which one `.desktop` file is found, each
/// mapped to the file's icon, unless the file is hidden or has no icon.
pub fn parse_desktop(content: &str, file_stem: &str, out: &mut IconIndex)
    ensures
        final(out)@ == index_after(old(out)@, content@, file_stem@),
        final(out)@.dom().finite(),
        final(out)@.dom().len() >= old(out)@.dom().len(),
{
    proof {
        use_type_invariant(&*out);
        lemma_map_of(pair_views(out.entries@));
        law_index_never_shrinks(out@, content@, file_stem@);
    }
    let c = chars_of(content);
    let keys = vec![
        chars_of("Icon"),
        chars_of("Exec"),
        chars_of("TryExec"),
        chars_of("StartupWMClass"),
        chars_of("Hidden"),
    ];
    let vals = entry_values(&c, &keys);
    assert(opt_view(vals@[0]) == entry_value(c@, "Icon"@));
    assert(opt_view(vals@[1]) == entry_value(c@, "Exec"@));
    assert(opt_view(vals@[2]) == entry_value(c@, "TryExec"@));
    assert(opt_view(vals@[3]) == entry_value(c@, "StartupWMClass"@));
    assert(opt_view(vals@[4]) == entry_value(c@, "Hidden"@));
    let hidden = match &vals[4] {
        Some(h) => {
            let t = chars_of("true");
            chars_eq_ignore_ascii_case(h, &t)
        },
        None => false,
    };
    if hidden {
        return;
    }
    let icon = match &vals[0] {
        Some(i) => copy_chars(i),
        None => {
            return;
        },
    };
    let mut names: Vec<Vec<char>> = Vec::new();
    if let Some(e) = &vals[1] {
        if let Some(bin) = exec_binary_chars(e) {
            if let Some(base) = path_file_name(&bin) {
                names.push(base);
            }
        }
    }
    if let Some(t) = &vals[2] {
        if let Some(base) = path_file_name(t) {
            names.push(base);
        }
    }
    if let Some(w) = &vals[3] {
        names.push(copy_chars(w));
    }
    names.push(chars_of(file_stem));
    let ghost all = index_names(c@, file_stem@);
    assert(views(names@) =~= all);
    let ghost m0 = out@;
    let mut i: usize = 0;
    assert(all.take(0) =~= Seq::<Seq<char>>::empty());
    while i < names.len()
        invariant
            all == views(names@),
            i <= names.len(),
            out@ == add_names(m0, all.take(i as int), icon@),
        decreases names.len() - i,
    {
        assert(all.take(i + 1).drop_last() =~= all.take(i as int));
        assert(all.take(i + 1).last() == names@[i as int]@);
        let k = to_lowercase(&names[i]);
        if k.len() > 0 {
            out.insert_if_absent(k, copy_chars(&icon));
        }
        i += 1;
    }
    assert(all.take(names.len() as int) =~= all);
}

/// Reading a desktop file never changes or drops a name already indexed:
/// the first file that claims a name keeps it.
pub proof fn law_index_keeps_earlier_names(
    m: Map<Seq<char>, Seq<char>>,
    content: Seq<char>,
    stem: Seq<char>,
)
    ensures
        forall|k: Seq<char>| #[trigger] m.contains_key(k) ==> index_after(m, content, stem).contains_key(k)
            && index_after(m, content, stem)[k] == m[k],
{
    if let Some(icon) = entry_icon(content) {
        lemma_add_names_keeps(m, index_names(content, stem), icon);
    }
}

proof fn lemma_add_names_keeps(m: Map<Seq<char>, Seq<char>>, names: Seq<Seq<char>>, icon: Seq<char>)
    ensures
        forall|k: Seq<char>| #[trigger] m.contains_key(k) ==> add_names(m, names, icon).contains_key(k)
            && add_names(m, names, icon)[k] == m[k],
        forall|k: Seq<char>| #[trigger] add_names(m, names, icon).contains_key(k) && !m.contains_key(k)
            ==> add_names(m, names, icon)[k] == icon,
    decreases names.len(),
{
    if names.len() > 0 {
        lemma_add_names_keeps(m, names.drop_last(), icon);
        let m2 = add_names(m, names.drop_last(), icon);
        assert forall|k: Seq<char>| #[trigger] add_names(m, names, icon).contains_key(k) && !m.contains_key(k)
            implies add_names(m, names, icon)[k] == icon by {
            if m2.contains_key(k) {
                assert(m2[k] == icon);
            }
        }
    }
}

/// Every name that a desktop file adds maps to that file's icon, and a hidden
/// file or one without an icon adds nothing.
pub proof fn law_index_adds_only_entry_icon(
    m: Map<Seq<char>, Seq<char>>,
    content: Seq<char>,
    stem: Seq<char>,
)
    ensures
        entry_icon(content) is None ==> index_after(m, content, stem) == m,
        forall|k: Seq<char>| #[trigger] index_after(m, content, stem).contains_key(k) && !m.contains_key(k)
            ==> entry_icon(content) == Some(index_after(m, content, stem)[k]),
{
    if let Some(icon) = entry_icon(content) {
        lemma_add_names_keeps(m, index_names(content, stem), icon);
    }
}

/// A visible desktop file with an icon is always found under its lowercased
/// file stem (unless that is empty).
pub proof fn law_index_holds_file_stem(
    m: Map<Seq<char>, Seq<char>>,
    content: Seq<char>,
    stem: Seq<char>,
)
    requires
        entry_icon(content) is Some,
        lowercase(stem).len() > 0,
    ensures
        index_after(m, content, stem).contains_key(lowercase(stem)),
{
    let names = index_names(content, stem);
    let icon = entry_icon(content)->0;
    lemma_add_names_keeps(add_names(m, names.drop_last(), icon), seq![], icon);
    assert(names.last() == stem);
}


proof fn lemma_add_names_finite(m: Map<Seq<char>, Seq<char>>, names: Seq<Seq<char>>, icon: Seq<char>)
    requires
        m.dom().finite(),
    ensures
        add_names(m, names, icon).dom().finite(),
    decreases names.len(),
{
    if names.len() > 0 {
        lemma_add_names_finite(m, names.drop_last(), icon);
    }
}

/// Reading a desktop file never shrinks the index: it stays finite and holds
/// at least as many names as before.
pub proof fn law_index_never_shrinks(m: Map<Seq<char>, Seq<char>>, content: Seq<char>, stem: Seq<char>)
    requires
        m.dom().finite(),
    ensures
        index_after(m, content, stem).dom().finite(),
        index_after(m, content, stem).dom().len() >= m.dom().len(),
{
    let after = index_after(m, content, stem);
    if let Some(icon) = entry_icon(content) {
        lemma_add_names_finite(m, index_names(content, stem), icon);
    }
    law_index_keeps_earlier_names(m, content, stem);
    assert(m.dom().subset_of(after.dom())) by {
        assert forall|k: Seq<char>| m.dom().contains(k) implies after.dom().contains(k) by {
            assert(m.contains_key(k));
        }
    }
    vstd::set_lib::lemma_len_subset(m.dom(), after.dom());
}

} // verus!
