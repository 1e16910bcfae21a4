//! Character-level text primitives shared by the parsers: conversions between
//! `str` and `Vec<char>`, whitespace trimming, line splitting, searching and
//! word splitting. Every operation is stated over `Seq<char>`.

use vstd::prelude::*;
use vstd::std_specs::iter::IteratorSpec;

verus! {

broadcast use vstd::string::group_string_axioms;

// ---------------------------------------------------------------------------
// Specifications
// ---------------------------------------------------------------------------

/// Unicode `White_Space`, the property that `char::is_whitespace`, `str::trim`
/// and `str::split_whitespace` are defined by.
pub open spec fn is_ws(c: char) -> bool {
    ||| c == ' '
    ||| ('\t' <= c && c <= '\r')
    ||| c == '\u{85}'
    ||| c == '\u{a0}'
    ||| c == '\u{1680}'
    ||| ('\u{2000}' <= c && c <= '\u{200a}')
    ||| c == '\u{2028}'
    ||| c == '\u{2029}'
    ||| c == '\u{202f}'
    ||| c == '\u{205f}'
    ||| c == '\u{3000}'
}

/// `s` without its leading whitespace.
pub open spec fn trim_start(s: Seq<char>) -> Seq<char>
    decreases s.len(),
{
    if s.len() > 0 && is_ws(s[0]) {
        trim_start(s.drop_first())
    } else {
        s
    }
}

/// `s` without its trailing whitespace.
pub open spec fn trim_end(s: Seq<char>) -> Seq<char>
    decreases s.len(),
{
    if s.len() > 0 && is_ws(s.last()) {
        trim_end(s.drop_last())
    } else {
        s
    }
}

/// `s` without leading and trailing whitespace.
pub open spec fn trim(s: Seq<char>) -> Seq<char> {
    trim_end(trim_start(s))
}

/// Index of the first occurrence of `c` in `s`.
pub open spec fn find(s: Seq<char>, c: char) -> Option<int>
    decreases s.len(),
{
    if s.len() == 0 {
        None
    } else if s[0] == c {
        Some(0)
    } else {
        match find(s.drop_first(), c) {
            Some(i) => Some(i + 1),
            None => None,
        }
    }
}

/// Index of the last occurrence of `c` in `s`.
pub open spec fn rfind(s: Seq<char>, c: char) -> Option<int>
    decreases s.len(),
{
    if s.len() == 0 {
        None
    } else if s.last() == c {
        Some(s.len() - 1)
    } else {
        rfind(s.drop_last(), c)
    }
}

/// `s` split at the first `c`, the separator dropped (`str::split_once`).
pub open spec fn split_once(s: Seq<char>, c: char) -> Option<(Seq<char>, Seq<char>)> {
    match find(s, c) {
        Some(i) => Some((s.take(i), s.skip(i + 1))),
        None => None,
    }
}

/// `s` split at the last `c`, the separator dropped (`str::rsplit_once`).
pub open spec fn rsplit_once(s: Seq<char>, c: char) -> Option<(Seq<char>, Seq<char>)> {
    match rfind(s, c) {
        Some(i) => Some((s.take(i), s.skip(i + 1))),
        None => None,
    }
}

/// A line read up to a `\n`: one `\r` right before the `\n` belongs to the ending.
pub open spec fn strip_cr(l: Seq<char>) -> Seq<char> {
    if l.len() > 0 && l.last() == '\r' {
        l.drop_last()
    } else {
        l
    }
}

/// The lines of `s` as `str::lines` yields them: split at `\n` or `\r\n`; a final
/// line ending adds no empty line; a `\r` not followed by `\n` is kept.
pub open spec fn lines(s: Seq<char>) -> Seq<Seq<char>>
    decreases s.len(),
{
    if s.len() == 0 {
        seq![]
    } else {
        match find(s, '\n') {
            None => seq![s],
            Some(i) => {
                proof {
                    lemma_find_bounds(s, '\n');
                }
                seq![strip_cr(s.take(i))] + lines(s.skip(i + 1))
            },
        }
    }
}

/// Index of the first whitespace character of `s`, or its length.
pub open spec fn first_ws(s: Seq<char>) -> int
    decreases s.len(),
{
    if s.len() == 0 {
        0
    } else if is_ws(s[0]) {
        0
    } else {
        1 + first_ws(s.drop_first())
    }
}

/// The maximal runs of non-whitespace characters of `s`, in order
/// (`str::split_whitespace`).
pub open spec fn words(s: Seq<char>) -> Seq<Seq<char>>
    decreases s.len(),
{
    let t = trim_start(s);
    if t.len() == 0 {
        seq![]
    } else {
        proof {
            lemma_trim_start_shape(s);
            lemma_first_ws_bounds(t);
        }
        seq![t.take(first_ws(t))] + words(t.skip(first_ws(t)))
    }
}

/// The items of `parts` with `sep` between each two of them (`[T]::join`).
pub open spec fn join(parts: Seq<Seq<char>>, sep: Seq<char>) -> Seq<char>
    decreases parts.len(),
{
    if parts.len() == 0 {
        seq![]
    } else if parts.len() == 1 {
        parts[0]
    } else {
        join(parts.drop_last(), sep) + sep + parts.last()
    }
}

/// `p` occurs in `s` as a contiguous run (`str::contains` with a `&str` pattern).
pub open spec fn contains_sub(s: Seq<char>, p: Seq<char>) -> bool {
    exists|i: int| 0 <= i <= s.len() - p.len() && #[trigger] s.subrange(i, i + p.len()) == p
}

/// The views of a vector of character vectors.
pub open spec fn views(v: Seq<Vec<char>>) -> Seq<Seq<char>> {
    v.map_values(|x: Vec<char>| x@)
}

/// The views of a vector of strings.
pub open spec fn string_views(v: Seq<String>) -> Seq<Seq<char>> {
    v.map_values(|x: String| x@)
}

/// The decimal digits of `n`, most significant first, without leading zeros
/// (`u64::to_string`).
pub open spec fn decimal(n: nat) -> Seq<char>
    decreases n,
{
    if n < 10 {
        seq![digit_char(n)]
    } else {
        decimal(n / 10).push(digit_char(n % 10))
    }
}

/// The ASCII digit for `d < 10`.
pub open spec fn digit_char(d: nat) -> char {
    if d == 0 { '0' }
    else if d == 1 { '1' }
    else if d == 2 { '2' }
    else if d == 3 { '3' }
    else if d == 4 { '4' }
    else if d == 5 { '5' }
    else if d == 6 { '6' }
    else if d == 7 { '7' }
    else if d == 8 { '8' }
    else { '9' }
}

/// ASCII decimal digit.
pub open spec fn is_digit(c: char) -> bool {
    '0' <= c && c <= '9'
}

/// ASCII case folding of one character (`char::to_ascii_lowercase`).
pub open spec fn ascii_lower(c: char) -> char {
    if 'A' <= c && c <= 'Z' {
        ((c as u32) + 32) as char
    } else {
        c
    }
}

/// Equality up to ASCII case (`str::eq_ignore_ascii_case`).
pub open spec fn eq_ignore_ascii_case(a: Seq<char>, b: Seq<char>) -> bool {
    a.len() == b.len() && forall|i: int| 0 <= i < a.len() ==> #[trigger] ascii_lower(a[i]) == ascii_lower(b[i])
}

// ---------------------------------------------------------------------------
// Lemmas
// ---------------------------------------------------------------------------

pub proof fn lemma_find_bounds(s: Seq<char>, c: char)
    ensures
        find(s, c) matches Some(i) ==> 0 <= i < s.len() && s[i] == c,
    decreases s.len(),
{
    if s.len() > 0 && s[0] != c {
        lemma_find_bounds(s.drop_first(), c);
    }
}

/// `find` is the least index holding `c`.
pub proof fn lemma_find_spec(s: Seq<char>, c: char)
    ensures
        match find(s, c) {
            Some(i) => 0 <= i < s.len() && s[i] == c && forall|j: int| 0 <= j < i ==> s[j] != c,
            None => forall|j: int| 0 <= j < s.len() ==> s[j] != c,
        },
    decreases s.len(),
{
    if s.len() > 0 && s[0] != c {
        lemma_find_spec(s.drop_first(), c);
        match find(s.drop_first(), c) {
            Some(i) => {
                assert forall|j: int| 0 <= j < i + 1 implies s[j] != c by {
                    if j > 0 {
                        assert(s[j] == s.drop_first()[j - 1]);
                    }
                }
            },
            None => {
                assert forall|j: int| 0 <= j < s.len() implies s[j] != c by {
                    if j > 0 {
                        assert(s[j] == s.drop_first()[j - 1]);
                    }
                }
            },
        }
    }
}

/// `rfind` is the greatest index holding `c`.
pub proof fn lemma_rfind_spec(s: Seq<char>, c: char)
    ensures
        match rfind(s, c) {
            Some(i) => 0 <= i < s.len() && s[i] == c && forall|j: int| i < j < s.len() ==> s[j] != c,
            None => forall|j: int| 0 <= j < s.len() ==> s[j] != c,
        },
    decreases s.len(),
{
    if s.len() > 0 && s.last() != c {
        lemma_rfind_spec(s.drop_last(), c);
        match rfind(s.drop_last(), c) {
            Some(i) => {
                assert forall|j: int| i < j < s.len() implies s[j] != c by {
                    if j < s.len() - 1 {
                        assert(s[j] == s.drop_last()[j]);
                    }
                }
            },
            None => {
                assert forall|j: int| 0 <= j < s.len() implies s[j] != c by {
                    if j < s.len() - 1 {
                        assert(s[j] == s.drop_last()[j]);
                    }
                }
            },
        }
    }
}

pub proof fn lemma_trim_start_shape(s: Seq<char>)
    ensures
        trim_start(s).len() <= s.len(),
        trim_start(s) == s.skip(s.len() - trim_start(s).len()),
        trim_start(s).len() > 0 ==> !is_ws(trim_start(s)[0]),
        forall|j: int| 0 <= j < s.len() - trim_start(s).len() ==> is_ws(s[j]),
    decreases s.len(),
{
    if s.len() > 0 && is_ws(s[0]) {
        lemma_trim_start_shape(s.drop_first());
        let t = trim_start(s);
        assert(s.drop_first().skip(s.drop_first().len() - t.len()) =~= s.skip(s.len() - t.len()));
        assert forall|j: int| 0 <= j < s.len() - t.len() implies is_ws(s[j]) by {
            if j > 0 {
                assert(s[j] == s.drop_first()[j - 1]);
            }
        }
    } else {
        assert(s.skip(0) =~= s);
    }
}

pub proof fn lemma_trim_end_shape(s: Seq<char>)
    ensures
        trim_end(s).len() <= s.len(),
        trim_end(s) == s.take(trim_end(s).len() as int),
        trim_end(s).len() > 0 ==> !is_ws(trim_end(s).last()),
        forall|j: int| trim_end(s).len() <= j < s.len() ==> is_ws(s[j]),
    decreases s.len(),
{
    if s.len() > 0 && is_ws(s.last()) {
        lemma_trim_end_shape(s.drop_last());
        let t = trim_end(s);
        assert(s.drop_last().take(t.len() as int) =~= s.take(t.len() as int));
        assert forall|j: int| t.len() <= j < s.len() implies is_ws(s[j]) by {
            if j < s.len() - 1 {
                assert(s[j] == s.drop_last()[j]);
            }
        }
    } else {
        assert(s.take(s.len() as int) =~= s);
    }
}

/// Stripping leading whitespace after a whitespace prefix.
pub proof fn lemma_trim_start_skip(s: Seq<char>, k: int)
    requires
        0 <= k <= s.len(),
        forall|j: int| 0 <= j < k ==> is_ws(s[j]),
    ensures
        trim_start(s) == trim_start(s.skip(k)),
    decreases k,
{
    if k > 0 {
        assert(s.drop_first().skip(k - 1) =~= s.skip(k));
        assert forall|j: int| 0 <= j < k - 1 implies is_ws(s.drop_first()[j]) by {
            assert(s.drop_first()[j] == s[j + 1]);
        }
        lemma_trim_start_skip(s.drop_first(), k - 1);
    } else {
        assert(s.skip(0) =~= s);
    }
}

/// Stripping trailing whitespace after a whitespace suffix.
pub proof fn lemma_trim_end_take(s: Seq<char>, k: int)
    requires
        0 <= k <= s.len(),
        forall|j: int| k <= j < s.len() ==> is_ws(s[j]),
    ensures
        trim_end(s) == trim_end(s.take(k)),
    decreases s.len() - k,
{
    if k < s.len() {
        assert(s.drop_last().take(k) =~= s.take(k));
        assert forall|j: int| k <= j < s.len() - 1 implies is_ws(s.drop_last()[j]) by {
            assert(s.drop_last()[j] == s[j]);
        }
        lemma_trim_end_take(s.drop_last(), k);
    } else {
        assert(s.take(k) =~= s);
    }
}

pub proof fn lemma_first_ws_bounds(s: Seq<char>)
    ensures
        0 <= first_ws(s) <= s.len(),
        s.len() > 0 && !is_ws(s[0]) ==> first_ws(s) > 0,
        first_ws(s) < s.len() ==> is_ws(s[first_ws(s)]),
        forall|j: int| 0 <= j < first_ws(s) ==> !is_ws(s[j]),
    decreases s.len(),
{
    if s.len() > 0 && !is_ws(s[0]) {
        lemma_first_ws_bounds(s.drop_first());
        assert forall|j: int| 0 <= j < first_ws(s) implies !is_ws(s[j]) by {
            if j > 0 {
                assert(s[j] == s.drop_first()[j - 1]);
            }
        }
    }
}

/// `first_ws` of a string that starts with `k` non-whitespace characters.
pub proof fn lemma_first_ws_at(s: Seq<char>, k: int)
    requires
        0 <= k <= s.len(),
        forall|j: int| 0 <= j < k ==> !is_ws(s[j]),
        k == s.len() || is_ws(s[k]),
    ensures
        first_ws(s) == k,
    decreases k,
{
    if k > 0 {
        assert forall|j: int| 0 <= j < k - 1 implies !is_ws(s.drop_first()[j]) by {
            assert(s.drop_first()[j] == s[j + 1]);
        }
        if k < s.len() {
            assert(s.drop_first()[k - 1] == s[k]);
        }
        lemma_first_ws_at(s.drop_first(), k - 1);
    }
}

/// `find` on a string whose first `c` is at `k`.
pub proof fn lemma_find_at(s: Seq<char>, c: char, k: int)
    requires
        0 <= k <= s.len(),
        forall|j: int| 0 <= j < k ==> s[j] != c,
        k < s.len() ==> s[k] == c,
    ensures
        find(s, c) == (if k < s.len() { Some(k) } else { None::<int> }),
{
    lemma_find_spec(s, c);
}

/// `rfind` on a string whose last `c` is at `k` (or that holds none if `k == -1`).
pub proof fn lemma_rfind_at(s: Seq<char>, c: char, k: int)
    requires
        -1 <= k < s.len(),
        forall|j: int| k < j < s.len() ==> s[j] != c,
        k >= 0 ==> s[k] == c,
    ensures
        rfind(s, c) == (if k >= 0 { Some(k) } else { None::<int> }),
{
    lemma_rfind_spec(s, c);
}

pub proof fn lemma_decimal_len(n: nat)
    ensures
        decimal(n).len() >= 1,
    decreases n,
{
    if n >= 10 {
        lemma_decimal_len(n / 10);
    }
}

// ---------------------------------------------------------------------------
// Executable operations
// ---------------------------------------------------------------------------

/// The characters of `s`, in order.
pub fn chars_of(s: &str) -> (v: Vec<char>)
    ensures
        v@ == s@,
{
    let mut v: Vec<char> = Vec::new();
    let mut it = s.chars();
    loop
        invariant
            v@ + it.remaining() == s@,
        ensures
            v@ == s@,
        decreases s@.len() - v@.len(),
    {
        match it.next() {
            Some(c) => {
                v.push(c);
            },
            None => {
                break;
            },
        }
    }
    v
}

/// A `String` holding exactly the characters of `v`.
/// Trusted: `String: FromIterator<char>` collects the characters in order.
#[verifier::external_body]
pub(crate) fn string_of(v: &Vec<char>) -> (s: String)
    ensures
        s@ == v@,
{
    v.iter().collect::<String>()
}

/// The characters of `s`.
pub fn chars_of_string(s: &String) -> (v: Vec<char>)
    ensures
        v@ == s@,
{
    chars_of(s.as_str())
}

/// `char::is_whitespace`.
pub fn is_whitespace(c: char) -> (b: bool)
    ensures
        b == is_ws(c),
{
    c == ' ' || ('\t' <= c && c <= '\r') || c == '\u{85}' || c == '\u{a0}' || c == '\u{1680}' || (
    '\u{2000}' <= c && c <= '\u{200a}') || c == '\u{2028}' || c == '\u{2029}' || c == '\u{202f}'
        || c == '\u{205f}' || c == '\u{3000}'
}

/// The characters of `v` from `a` up to (not including) `b`.
pub fn slice_chars(v: &Vec<char>, a: usize, b: usize) -> (r: Vec<char>)
    requires
        a <= b <= v.len(),
    ensures
        r@ == v@.subrange(a as int, b as int),
{
    let mut r: Vec<char> = Vec::new();
    let mut i = a;
    while i < b
        invariant
            a <= i <= b <= v.len(),
            r@ == v@.subrange(a as int, i as int),
        decreases b - i,
    {
        r.push(v[i]);
        i += 1;
        assert(r@ =~= v@.subrange(a as int, i as int));
    }
    r
}

/// Index where the leading whitespace of `v` ends.
pub fn trim_start_index(v: &Vec<char>) -> (a: usize)
    ensures
        a <= v.len(),
        trim_start(v@) == v@.skip(a as int),
{
    let n = v.len();
    let mut a: usize = 0;
    while a < n && is_whitespace(v[a])
        invariant
            a <= n == v.len(),
            forall|j: int| 0 <= j < a ==> is_ws(v@[j]),
        decreases n - a,
    {
        a += 1;
    }
    proof {
        lemma_trim_start_skip(v@, a as int);
        let t = v@.skip(a as int);
        if t.len() > 0 {
            assert(!is_ws(t[0]));
        }
    }
    a
}

/// `str::trim_start`.
pub fn trim_start_chars(v: &Vec<char>) -> (r: Vec<char>)
    ensures
        r@ == trim_start(v@),
{
    let a = trim_start_index(v);
    let r = slice_chars(v, a, v.len());
    assert(r@ =~= v@.skip(a as int));
    r
}

/// `str::trim_end`.
pub fn trim_end_chars(v: &Vec<char>) -> (r: Vec<char>)
    ensures
        r@ == trim_end(v@),
{
    let mut b = v.len();
    while b > 0 && is_whitespace(v[b - 1])
        invariant
            b <= v.len(),
            forall|j: int| b <= j < v.len() ==> is_ws(v@[j]),
        decreases b,
    {
        b -= 1;
    }
    proof {
        lemma_trim_end_take(v@, b as int);
        let t = v@.take(b as int);
        if t.len() > 0 {
            assert(t.last() == v@[b - 1]);
        }
    }
    let r = slice_chars(v, 0, b);
    assert(r@ =~= v@.take(b as int));
    r
}

/// `str::trim`.
pub fn trim_chars(v: &Vec<char>) -> (r: Vec<char>)
    ensures
        r@ == trim(v@),
{
    let t = trim_start_chars(v);
    trim_end_chars(&t)
}

/// `str::trim` on a `&str`, as characters.
pub fn trim_str(s: &str) -> (r: Vec<char>)
    ensures
        r@ == trim(s@),
{
    let v = chars_of(s);
    trim_chars(&v)
}

/// Equality of two character sequences.
pub fn chars_eq(a: &Vec<char>, b: &Vec<char>) -> (r: bool)
    ensures
        r == (a@ == b@),
{
    if a.len() != b.len() {
        return false;
    }
    let mut i: usize = 0;
    while i < a.len()
        invariant
            a.len() == b.len(),
            i <= a.len(),
            forall|j: int| 0 <= j < i ==> a@[j] == b@[j],
        decreases a.len() - i,
    {
        if a[i] != b[i] {
            return false;
        }
        i += 1;
    }
    assert(a@ =~= b@);
    true
}

/// `a` equals the text of `s`.
pub fn chars_eq_str(a: &Vec<char>, s: &str) -> (r: bool)
    ensures
        r == (a@ == s@),
{
    let b = chars_of(s);
    chars_eq(a, &b)
}

/// `p` is a prefix of `s` (`str::starts_with`).
pub fn starts_with(s: &Vec<char>, p: &Vec<char>) -> (r: bool)
    ensures
        r == p@.is_prefix_of(s@),
{
    if p.len() > s.len() {
        return false;
    }
    let mut i: usize = 0;
    while i < p.len()
        invariant
            p.len() <= s.len(),
            i <= p.len(),
            forall|j: int| 0 <= j < i ==> p@[j] == s@[j],
        decreases p.len() - i,
    {
        if p[i] != s[i] {
            assert(p@ != s@.subrange(0, p@.len() as int));
            return false;
        }
        i += 1;
    }
    assert(p@ =~= s@.subrange(0, p@.len() as int));
    true
}

/// `s` starts with the text `p`.
pub fn starts_with_str(s: &Vec<char>, p: &str) -> (r: bool)
    ensures
        r == p@.is_prefix_of(s@),
{
    let pv = chars_of(p);
    starts_with(s, &pv)
}

/// `p` is a suffix of `s` (`str::ends_with`).
pub fn ends_with(s: &Vec<char>, p: &Vec<char>) -> (r: bool)
    ensures
        r == p@.is_suffix_of(s@),
{
    if p.len() > s.len() {
        return false;
    }
    let off = s.len() - p.len();
    let mut i: usize = 0;
    while i < p.len()
        invariant
            p.len() <= s.len(),
            off == s.len() - p.len(),
            i <= p.len(),
            forall|j: int| 0 <= j < i ==> p@[j] == s@[off + j],
        decreases p.len() - i,
    {
        if p[i] != s[off + i] {
            assert(p@[i as int] != s@.subrange(off as int, s@.len() as int)[i as int]);
            return false;
        }
        i += 1;
    }
    assert(p@ =~= s@.subrange(off as int, s@.len() as int));
    true
}

/// `s` ends with the text `p`.
pub fn ends_with_str(s: &Vec<char>, p: &str) -> (r: bool)
    ensures
        r == p@.is_suffix_of(s@),
{
    let pv = chars_of(p);
    ends_with(s, &pv)
}

/// Whether `p` occurs in `s` starting at `i`.
fn occurs_at(s: &Vec<char>, p: &Vec<char>, i: usize) -> (r: bool)
    requires
        i + p.len() <= s.len(),
    ensures
        r == (s@.subrange(i as int, i + p.len()) == p@),
{
    let mut k: usize = 0;
    while k < p.len()
        invariant
            i + p.len() <= s.len(),
            k <= p.len(),
            forall|j: int| 0 <= j < k ==> p@[j] == s@[i + j],
        decreases p.len() - k,
    {
        if p[k] != s[i + k] {
            assert(s@.subrange(i as int, i + p.len())[k as int] != p@[k as int]);
            return false;
        }
        k += 1;
    }
    assert(s@.subrange(i as int, i + p.len()) =~= p@);
    true
}

/// `p` occurs in `s` (`str::contains`).
pub fn contains(s: &Vec<char>, p: &Vec<char>) -> (r: bool)
    ensures
        r == contains_sub(s@, p@),
{
    if p.len() > s.len() {
        return false;
    }
    let last = s.len() - p.len();
    let mut i: usize = 0;
    loop
        invariant
            p.len() <= s.len(),
            last == s.len() - p.len(),
            i <= last,
            forall|j: int| 0 <= j < i ==> #[trigger] s@.subrange(j, j + p.len()) != p@,
        decreases last - i,
    {
        if occurs_at(s, p, i) {
            return true;
        }
        if i == last {
            return false;
        }
        i += 1;
    }
}

/// First index of `c` in `v`.
pub fn find_char(v: &Vec<char>, c: char) -> (r: Option<usize>)
    ensures
        r matches Some(i) ==> i < v.len() && find(v@, c) == Some(i as int),
        r is None ==> find(v@, c) is None,
{
    let mut i: usize = 0;
    while i < v.len()
        invariant
            i <= v.len(),
            forall|j: int| 0 <= j < i ==> v@[j] != c,
        decreases v.len() - i,
    {
        if v[i] == c {
            proof {
                lemma_find_at(v@, c, i as int);
            }
            return Some(i);
        }
        i += 1;
    }
    proof {
        lemma_find_at(v@, c, v.len() as int);
    }
    None
}

/// Last index of `c` in `v`.
pub fn rfind_char(v: &Vec<char>, c: char) -> (r: Option<usize>)
    ensures
        r matches Some(i) ==> i < v.len() && rfind(v@, c) == Some(i as int),
        r is None ==> rfind(v@, c) is None,
{
    let mut i: usize = v.len();
    while i > 0
        invariant
            i <= v.len(),
            forall|j: int| i <= j < v.len() ==> v@[j] != c,
        decreases i,
    {
        if v[i - 1] == c {
            proof {
                lemma_rfind_at(v@, c, i - 1);
            }
            return Some(i - 1);
        }
        i -= 1;
    }
    proof {
        lemma_rfind_at(v@, c, -1);
    }
    None
}

/// `str::split_once` with a character separator.
pub fn split_once_chars(v: &Vec<char>, c: char) -> (r: Option<(Vec<char>, Vec<char>)>)
    ensures
        match r {
            Some((a, b)) => split_once(v@, c) == Some((a@, b@)),
            None => split_once(v@, c) is None,
        },
{
    match find_char(v, c) {
        Some(i) => {
            let a = slice_chars(v, 0, i);
            let b = slice_chars(v, i + 1, v.len());
            assert(a@ =~= v@.take(i as int));
            assert(b@ =~= v@.skip(i + 1));
            Some((a, b))
        },
        None => None,
    }
}

/// `str::rsplit_once` with a character separator.
pub fn rsplit_once_chars(v: &Vec<char>, c: char) -> (r: Option<(Vec<char>, Vec<char>)>)
    ensures
        match r {
            Some((a, b)) => rsplit_once(v@, c) == Some((a@, b@)),
            None => rsplit_once(v@, c) is None,
        },
{
    match rfind_char(v, c) {
        Some(i) => {
            let a = slice_chars(v, 0, i);
            let b = slice_chars(v, i + 1, v.len());
            assert(a@ =~= v@.take(i as int));
            assert(b@ =~= v@.skip(i + 1));
            Some((a, b))
        },
        None => None,
    }
}

/// `str::lines`.
pub fn split_lines(v: &Vec<char>) -> (r: Vec<Vec<char>>)
    ensures
        views(r@) == lines(v@),
{
    let n = v.len();
    let mut out: Vec<Vec<char>> = Vec::new();
    let mut start: usize = 0;
    let mut i: usize = 0;
    assert(v@.skip(0) =~= v@);
    assert(views(out@) + lines(v@) =~= lines(v@));
    while i < n
        invariant
            n == v.len(),
            start <= i <= n,
            forall|j: int| start <= j < i ==> v@[j] != '\n',
            views(out@) + lines(v@.skip(start as int)) == lines(v@),
        decreases n - i,
    {
        if v[i] == '\n' {
            let ghost rest = v@.skip(start as int);
            proof {
                lemma_find_at(rest, '\n', i - start);
                assert(rest.take(i - start) =~= v@.subrange(start as int, i as int));
                assert(rest.skip(i - start + 1) =~= v@.skip(i + 1));
            }
            let mut line = slice_chars(v, start, i);
            if line.len() > 0 && line[line.len() - 1] == '\r' {
                line.pop();
            }
            assert(line@ == strip_cr(v@.subrange(start as int, i as int)));
            let ghost prev = out@;
            out.push(line);
            proof {
                assert(out@.drop_last() =~= prev);
                assert(views(out@) =~= views(prev).push(line@));
            }
            start = i + 1;
        }
        i += 1;
    }
    let ghost rest = v@.skip(start as int);
    if start < n {
        proof {
            lemma_find_at(rest, '\n', rest.len() as int);
        }
        let line = slice_chars(v, start, n);
        assert(line@ =~= rest);
        let ghost prev = out@;
        out.push(line);
        assert(out@.drop_last() =~= prev);
        assert(views(out@) =~= views(prev).push(line@));
    } else {
        assert(rest.len() == 0);
    }
    out
}

/// Index of the first whitespace character of `v` at or after `a`, or `v.len()`.
fn first_ws_from(v: &Vec<char>, a: usize) -> (k: usize)
    requires
        a <= v.len(),
    ensures
        a <= k <= v.len(),
        first_ws(v@.skip(a as int)) == k - a,
{
    let mut k = a;
    while k < v.len() && !is_whitespace(v[k])
        invariant
            a <= k <= v.len(),
            forall|j: int| a <= j < k ==> !is_ws(v@[j]),
        decreases v.len() - k,
    {
        k += 1;
    }
    proof {
        let t = v@.skip(a as int);
        assert forall|j: int| 0 <= j < k - a implies !is_ws(t[j]) by {
            assert(t[j] == v@[a + j]);
        }
        if k < v.len() {
            assert(t[k - a] == v@[k as int]);
        }
        lemma_first_ws_at(t, k - a);
    }
    k
}

/// `str::split_whitespace`.
pub fn split_words(v: &Vec<char>) -> (r: Vec<Vec<char>>)
    ensures
        views(r@) == words(v@),
{
    let n = v.len();
    let mut out: Vec<Vec<char>> = Vec::new();
    let mut i: usize = 0;
    assert(v@.skip(0) =~= v@);
    assert(views(out@) + words(v@) =~= words(v@));
    while i < n
        invariant
            n == v.len(),
            i <= n,
            views(out@) + words(v@.skip(i as int)) == words(v@),
        decreases n - i,
    {
        let ghost s = v@.skip(i as int);
        if is_whitespace(v[i]) {
            proof {
                assert(s.drop_first() =~= v@.skip(i + 1));
                assert(trim_start(s) == trim_start(s.drop_first()));
                lemma_trim_start_shape(s);
                lemma_trim_start_shape(s.drop_first());
                // both have the same trimmed form, hence the same words
                assert(words(s) == words(s.drop_first()));
            }
            i += 1;
        } else {
            let k = first_ws_from(v, i);
            let w = slice_chars(v, i, k);
            proof {
                assert(trim_start(s) == s);
                lemma_first_ws_bounds(s);
                assert(w@ =~= s.take(first_ws(s)));
                assert(s.skip(first_ws(s)) =~= v@.skip(k as int));
                assert(views(out@.push(w)) =~= views(out@).push(w@));
            }
            out.push(w);
            i = k;
        }
    }
    proof {
        assert(v@.skip(n as int).len() == 0);
        assert(views(out@) =~= views(out@) + Seq::<Seq<char>>::empty());
    }
    out
}

/// The items of `parts` with `sep` between each two of them.
pub fn join_chars(parts: &Vec<Vec<char>>, sep: &Vec<char>) -> (r: Vec<char>)
    ensures
        r@ == join(views(parts@), sep@),
{
    let mut r: Vec<char> = Vec::new();
    let mut i: usize = 0;
    while i < parts.len()
        invariant
            i <= parts.len(),
            r@ == join(views(parts@).take(i as int), sep@),
        decreases parts.len() - i,
    {
        let ghost before = r@;
        if i > 0 {
            let mut k: usize = 0;
            while k < sep.len()
                invariant
                    k <= sep.len(),
                    r@ == before + sep@.take(k as int),
                decreases sep.len() - k,
            {
                r.push(sep[k]);
                k += 1;
                assert(r@ =~= before + sep@.take(k as int));
            }
        }
        let ghost mid = r@;
        let p = &parts[i];
        let mut k: usize = 0;
        while k < p.len()
            invariant
                k <= p.len(),
                r@ == mid + p@.take(k as int),
            decreases p.len() - k,
        {
            r.push(p[k]);
            k += 1;
            assert(r@ =~= mid + p@.take(k as int));
        }
        proof {
            let vs = views(parts@);
            assert(vs.take(i + 1).drop_last() =~= vs.take(i as int));
            assert(vs.take(i + 1).last() == p@);
            assert(sep@.take(sep@.len() as int) =~= sep@);
            assert(p@.take(p@.len() as int) =~= p@);
            if i == 0 {
                assert(before.len() == 0);
                assert(r@ =~= p@);
            }
        }
        i += 1;
    }
    assert(views(parts@).take(parts.len() as int) =~= views(parts@));
    r
}

/// Decimal text of `n` (`u64::to_string`).
pub fn decimal_chars(n: u64) -> (r: Vec<char>)
    ensures
        r@ == decimal(n as nat),
    decreases n,
{
    let d = n % 10;
    let c = if d == 0 { '0' }
        else if d == 1 { '1' }
        else if d == 2 { '2' }
        else if d == 3 { '3' }
        else if d == 4 { '4' }
        else if d == 5 { '5' }
        else if d == 6 { '6' }
        else if d == 7 { '7' }
        else if d == 8 { '8' }
        else { '9' };
    if n < 10 {
        let mut r: Vec<char> = Vec::new();
        r.push(c);
        assert(r@ =~= seq![digit_char(n as nat)]);
        r
    } else {
        let mut r = decimal_chars(n / 10);
        r.push(c);
        r
    }
}

/// Appends the characters of `b` to `a`.
pub fn append_chars(a: &mut Vec<char>, b: &Vec<char>)
    ensures
        final(a)@ == old(a)@ + b@,
{
    let mut k: usize = 0;
    let ghost start = a@;
    while k < b.len()
        invariant
            k <= b.len(),
            a@ == start + b@.take(k as int),
        decreases b.len() - k,
    {
        a.push(b[k]);
        k += 1;
        assert(a@ =~= start + b@.take(k as int));
    }
    assert(b@.take(b@.len() as int) =~= b@);
}

/// Appends the text `s` to `a`.
pub fn append_str(a: &mut Vec<char>, s: &str)
    ensures
        final(a)@ == old(a)@ + s@,
{
    let b = chars_of(s);
    append_chars(a, &b);
}

/// ASCII case-insensitive equality.
pub fn chars_eq_ignore_ascii_case(a: &Vec<char>, b: &Vec<char>) -> (r: bool)
    ensures
        r == eq_ignore_ascii_case(a@, b@),
{
    if a.len() != b.len() {
        return false;
    }
    let mut i: usize = 0;
    while i < a.len()
        invariant
            a.len() == b.len(),
            i <= a.len(),
            forall|j: int| 0 <= j < i ==> #[trigger] ascii_lower(a@[j]) == ascii_lower(b@[j]),
        decreases a.len() - i,
    {
        let x = a[i];
        let y = b[i];
        let lx = if 'A' <= x && x <= 'Z' { ((x as u32) + 32) as u8 as char } else { x };
        let ly = if 'A' <= y && y <= 'Z' { ((y as u32) + 32) as u8 as char } else { y };
        assert(lx == ascii_lower(x)) by {
            if 'A' <= x && x <= 'Z' {
                assert(((x as u32) + 32) as u8 as char == ((x as u32) + 32) as char);
            }
        }
        assert(ly == ascii_lower(y)) by {
            if 'A' <= y && y <= 'Z' {
                assert(((y as u32) + 32) as u8 as char == ((y as u32) + 32) as char);
            }
        }
        if lx != ly {
            return false;
        }
        i += 1;
    }
    true
}


/// `s` without the copies of `c` it starts with.
pub open spec fn strip_leading(s: Seq<char>, c: char) -> Seq<char>
    decreases s.len(),
{
    if s.len() > 0 && s[0] == c {
        strip_leading(s.drop_first(), c)
    } else {
        s
    }
}

/// `s` without the copies of `c` it ends with (`str::trim_end_matches`).
pub open spec fn strip_trailing(s: Seq<char>, c: char) -> Seq<char>
    decreases s.len(),
{
    if s.len() > 0 && s.last() == c {
        strip_trailing(s.drop_last(), c)
    } else {
        s
    }
}

/// The pieces of `s` between occurrences of `c`, empty ones included
/// (`str::split` with a character).
pub open spec fn split_char(s: Seq<char>, c: char) -> Seq<Seq<char>>
    decreases s.len(),
{
    match find(s, c) {
        None => seq![s],
        Some(i) => {
            proof {
                lemma_find_bounds(s, c);
            }
            seq![s.take(i)] + split_char(s.skip(i + 1), c)
        },
    }
}

proof fn lemma_strip_leading_skip(s: Seq<char>, c: char, k: int)
    requires
        0 <= k <= s.len(),
        forall|j: int| 0 <= j < k ==> s[j] == c,
    ensures
        strip_leading(s, c) == strip_leading(s.skip(k), c),
    decreases k,
{
    if k > 0 {
        assert(s.drop_first().skip(k - 1) =~= s.skip(k));
        assert forall|j: int| 0 <= j < k - 1 implies s.drop_first()[j] == c by {
            assert(s.drop_first()[j] == s[j + 1]);
        }
        lemma_strip_leading_skip(s.drop_first(), c, k - 1);
    } else {
        assert(s.skip(0) =~= s);
    }
}

proof fn lemma_strip_trailing_take(s: Seq<char>, c: char, k: int)
    requires
        0 <= k <= s.len(),
        forall|j: int| k <= j < s.len() ==> s[j] == c,
    ensures
        strip_trailing(s, c) == strip_trailing(s.take(k), c),
    decreases s.len() - k,
{
    if k < s.len() {
        assert(s.drop_last().take(k) =~= s.take(k));
        assert forall|j: int| k <= j < s.len() - 1 implies s.drop_last()[j] == c by {
            assert(s.drop_last()[j] == s[j]);
        }
        lemma_strip_trailing_take(s.drop_last(), c, k);
    } else {
        assert(s.take(k) =~= s);
    }
}

/// `s` without leading and trailing copies of `c` (`str::trim_matches`).
pub fn strip_char_both(v: &Vec<char>, c: char) -> (r: Vec<char>)
    ensures
        r@ == strip_trailing(strip_leading(v@, c), c),
{
    let n = v.len();
    let mut a: usize = 0;
    while a < n && v[a] == c
        invariant
            a <= n == v.len(),
            forall|j: int| 0 <= j < a ==> v@[j] == c,
        decreases n - a,
    {
        a += 1;
    }
    proof {
        lemma_strip_leading_skip(v@, c, a as int);
    }
    let t = slice_chars(v, a, n);
    assert(t@ =~= v@.skip(a as int));
    strip_char_end(&t, c)
}

/// `s` without trailing copies of `c` (`str::trim_end_matches`).
pub fn strip_char_end(v: &Vec<char>, c: char) -> (r: Vec<char>)
    ensures
        r@ == strip_trailing(v@, c),
{
    let mut b = v.len();
    while b > 0 && v[b - 1] == c
        invariant
            b <= v.len(),
            forall|j: int| b <= j < v.len() ==> v@[j] == c,
        decreases b,
    {
        b -= 1;
    }
    proof {
        lemma_strip_trailing_take(v@, c, b as int);
        let t = v@.take(b as int);
        if t.len() > 0 {
            assert(t.last() == v@[b - 1]);
        }
    }
    let r = slice_chars(v, 0, b);
    assert(r@ =~= v@.take(b as int));
    r
}

/// `str::split` with a character separator.
pub fn split_on_char(v: &Vec<char>, c: char) -> (r: Vec<Vec<char>>)
    ensures
        views(r@) == split_char(v@, c),
{
    let n = v.len();
    let mut out: Vec<Vec<char>> = Vec::new();
    let mut start: usize = 0;
    let mut i: usize = 0;
    assert(v@.skip(0) =~= v@);
    assert(views(out@) + split_char(v@, c) =~= split_char(v@, c));
    while i < n
        invariant
            n == v.len(),
            start <= i <= n,
            forall|j: int| start <= j < i ==> v@[j] != c,
            views(out@) + split_char(v@.skip(start as int), c) == split_char(v@, c),
        decreases n - i,
    {
        if v[i] == c {
            let ghost rest = v@.skip(start as int);
            proof {
                lemma_find_at(rest, c, i - start);
                assert(rest.take(i - start) =~= v@.subrange(start as int, i as int));
                assert(rest.skip(i - start + 1) =~= v@.skip(i + 1));
            }
            let piece = slice_chars(v, start, i);
            let ghost prev = out@;
            out.push(piece);
            proof {
                assert(out@.drop_last() =~= prev);
                assert(views(out@) =~= views(prev).push(v@.subrange(start as int, i as int)));
            }
            start = i + 1;
        }
        i += 1;
    }
    let ghost rest = v@.skip(start as int);
    proof {
        lemma_find_at(rest, c, rest.len() as int);
    }
    let piece = slice_chars(v, start, n);
    assert(piece@ =~= rest);
    let ghost prev = out@;
    out.push(piece);
    assert(out@.drop_last() =~= prev);
    assert(views(out@) =~= views(prev).push(rest));
    out
}

/// `themes` followed by each non-empty item of `ps` not met before.
pub open spec fn append_new(themes: Seq<Seq<char>>, ps: Seq<Seq<char>>) -> Seq<Seq<char>>
    decreases ps.len(),
{
    if ps.len() == 0 {
        themes
    } else {
        let t = append_new(themes, ps.drop_last());
        let p = ps.last();
        if p.len() > 0 && !t.contains(p) {
            t.push(p)
        } else {
            t
        }
    }
}

/// Adding names keeps what was there, adds no duplicate, and leaves every
/// non-empty added name in the list.
pub proof fn law_append_new(themes: Seq<Seq<char>>, ps: Seq<Seq<char>>)
    requires
        themes.no_duplicates(),
    ensures
        append_new(themes, ps).no_duplicates(),
        themes.is_prefix_of(append_new(themes, ps)),
        forall|i: int| 0 <= i < ps.len() && #[trigger] ps[i].len() > 0 ==> append_new(themes, ps).contains(ps[i]),
        forall|x: Seq<char>| #[trigger] append_new(themes, ps).contains(x) ==> themes.contains(x) || ps.contains(x),
    decreases ps.len(),
{
    if ps.len() > 0 {
        let q = ps.drop_last();
        law_append_new(themes, q);
        let t = append_new(themes, q);
        let p = ps.last();
        if p.len() > 0 && !t.contains(p) {
            let t2 = t.push(p);
            assert forall|i: int, j: int| 0 <= i < t2.len() && 0 <= j < t2.len() && i != j implies t2[i] != t2[j] by {
                if i < t.len() && j < t.len() {
                } else if i < t.len() {
                    assert(t.contains(t[i]));
                } else if j < t.len() {
                    assert(t.contains(t[j]));
                }
            }
            assert(themes =~= t2.subrange(0, themes.len() as int)) by {
                assert(themes =~= t.subrange(0, themes.len() as int));
            }
            assert forall|i: int| 0 <= i < ps.len() && #[trigger] ps[i].len() > 0 implies t2.contains(ps[i]) by {
                if i < q.len() {
                    assert(q[i] == ps[i]);
                    let k = choose|k: int| 0 <= k < t.len() && t[k] == q[i];
                    assert(t2[k] == ps[i]);
                } else {
                    assert(t2[t.len() as int] == ps[i]);
                }
            }
            assert forall|x: Seq<char>| #[trigger] t2.contains(x) implies themes.contains(x) || ps.contains(x) by {
                let k = choose|k: int| 0 <= k < t2.len() && t2[k] == x;
                if k < t.len() {
                    assert(t.contains(x));
                    if q.contains(x) {
                        let m = choose|m: int| 0 <= m < q.len() && q[m] == x;
                        assert(ps[m] == x);
                    }
                } else {
                    assert(ps[ps.len() - 1] == x);
                }
            }
        } else {
            assert forall|i: int| 0 <= i < ps.len() && #[trigger] ps[i].len() > 0 implies t.contains(ps[i]) by {
                if i < q.len() {
                    assert(q[i] == ps[i]);
                }
            }
            assert forall|x: Seq<char>| #[trigger] t.contains(x) implies themes.contains(x) || ps.contains(x) by {
                if q.contains(x) {
                    let m = choose|m: int| 0 <= m < q.len() && q[m] == x;
                    assert(ps[m] == x);
                }
            }
        }
    }
}

pub fn contains_name(list: &Vec<Vec<char>>, x: &Vec<char>) -> (r: bool)
    ensures
        r == views(list@).contains(x@),
{
    let mut i: usize = 0;
    while i < list.len()
        invariant
            i <= list.len(),
            forall|j: int| 0 <= j < i ==> #[trigger] list@[j]@ != x@,
        decreases list.len() - i,
    {
        if crate::text::chars_eq(&list[i], x) {
            assert(views(list@)[i as int] == x@);
            return true;
        }
        i += 1;
    }
    proof {
        if views(list@).contains(x@) {
            let k = choose|k: int| 0 <= k < views(list@).len() && views(list@)[k] == x@;
            assert(list@[k]@ == x@);
        }
    }
    false
}

pub fn append_new_exec(themes: &mut Vec<Vec<char>>, ps: &Vec<Vec<char>>)
    ensures
        views(final(themes)@) == append_new(views(old(themes)@), views(ps@)),
{
    let ghost t0 = views(themes@);
    let ghost vps = views(ps@);
    let mut i: usize = 0;
    assert(vps.take(0) =~= Seq::<Seq<char>>::empty());
    while i < ps.len()
        invariant
            vps == views(ps@),
            i <= ps.len(),
            views(themes@) == append_new(t0, vps.take(i as int)),
        decreases ps.len() - i,
    {
        assert(vps.take(i + 1).drop_last() =~= vps.take(i as int));
        assert(vps.take(i + 1).last() == ps@[i as int]@);
        if ps[i].len() > 0 && !contains_name(themes, &ps[i]) {
            let ghost prev = themes@;
            let p = slice_chars(&ps[i], 0, ps[i].len());
            assert(p@ =~= ps@[i as int]@);
            themes.push(p);
            assert(themes@.drop_last() =~= prev);
            assert(views(themes@) =~= views(prev).push(p@));
        }
        i += 1;
    }
    assert(vps.take(ps.len() as int) =~= vps);
}



/// How many times `c` occurs in `s`.
pub open spec fn count_char(s: Seq<char>, c: char) -> nat
    decreases s.len(),
{
    if s.len() == 0 {
        0
    } else {
        count_char(s.drop_last(), c) + if s.last() == c {
            1nat
        } else {
            0nat
        }
    }
}

} // verus!
