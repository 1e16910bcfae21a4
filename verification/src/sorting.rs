//! Stable sorting by a total preorder on keys, and the lexicographic order on
//! text that `String`'s `Ord` implements.

use vstd::prelude::*;

verus! {

/// A key with a total preorder.
pub trait OrderKey: Sized {
    /// `self` may come before `other`.
    spec fn key_le(self, other: Self) -> bool;

    proof fn lemma_key_le_total(a: Self, b: Self)
        ensures
            a.key_le(b) || b.key_le(a),
    ;

    proof fn lemma_key_le_trans(a: Self, b: Self, c: Self)
        requires
            a.key_le(b),
            b.key_le(c),
        ensures
            a.key_le(c),
    ;

    /// Decides `key_le`.
    fn le(&self, other: &Self) -> (r: bool)
        ensures
            r == self.key_le(*other),
    ;
}

/// `order` lists every index below `n` exactly once.
pub open spec fn is_permutation(order: Seq<usize>, n: nat) -> bool {
    &&& order.len() == n
    &&& forall|a: int| 0 <= a < order.len() ==> #[trigger] order[a] < n
    &&& forall|a: int, b: int| 0 <= a < b < order.len() ==> order[a] != order[b]
}

/// `order` arranges `keys` in key order, keeping the input order of equal
/// keys: each pair of positions is ordered by key, then by input position.
pub open spec fn sorted_stably<K: OrderKey>(keys: Seq<K>, order: Seq<usize>) -> bool {
    forall|a: int, b: int|
        0 <= a < b < order.len() ==> (#[trigger] keys[order[a] as int]).key_le(#[trigger] keys[order[b] as int])
            && (keys[order[b] as int].key_le(keys[order[a] as int]) ==> order[a] < order[b])
}

/// The stable sort of `keys`, as the positions of its items in sorted order.
pub fn stable_order<K: OrderKey>(keys: &Vec<K>) -> (order: Vec<usize>)
    ensures
        is_permutation(order@, keys.len() as nat),
        sorted_stably(keys@, order@),
{
    let mut order: Vec<usize> = Vec::new();
    let mut i: usize = 0;
    while i < keys.len()
        invariant
            i <= keys.len(),
            is_permutation(order@, i as nat),
            sorted_stably(keys@, order@),
        decreases keys.len() - i,
    {
        let mut p = order.len();
        while p > 0 && !keys[order[p - 1]].le(&keys[i])
            invariant
                p <= order.len(),
                i < keys.len(),
                is_permutation(order@, i as nat),
                forall|q: int| p <= q < order.len() ==> !(#[trigger] keys@[order@[q] as int]).key_le(keys@[i as int]),
            decreases p,
        {
            p -= 1;
        }
        let ghost before = order@;
        let ghost ki = keys@[i as int];
        proof {
            // everything before `p` may come before item `i`
            assert forall|q: int| 0 <= q < p implies (#[trigger] keys@[before[q] as int]).key_le(ki) by {
                if p > 0 {
                    let top = keys@[before[p - 1] as int];
                    assert(top.key_le(ki));
                    if q < p - 1 {
                        assert(keys@[before[q] as int].key_le(top));
                        K::lemma_key_le_trans(keys@[before[q] as int], top, ki);
                    }
                }
            }
            assert forall|q: int| p <= q < before.len() implies ki.key_le(#[trigger] keys@[before[q] as int]) by {
                K::lemma_key_le_total(keys@[before[q] as int], ki);
            }
        }
        order.insert(p, i);
        proof {
            let o = order@;
            assert(o =~= before.subrange(0, p as int).push(i).add(before.subrange(p as int, before.len() as int)));
            assert forall|a: int| 0 <= a < o.len() implies #[trigger] o[a] < i + 1 by {
                if a < p {
                    assert(o[a] == before[a]);
                } else if a > p {
                    assert(o[a] == before[a - 1]);
                }
            }
            assert forall|a: int, b: int| 0 <= a < b < o.len() implies o[a] != o[b] by {
                if a < p && b < p {
                    assert(o[a] == before[a] && o[b] == before[b]);
                } else if a < p && b == p {
                    assert(o[a] == before[a]);
                } else if a < p && b > p {
                    assert(o[a] == before[a] && o[b] == before[b - 1]);
                } else if a == p {
                    assert(o[b] == before[b - 1]);
                } else {
                    assert(o[a] == before[a - 1] && o[b] == before[b - 1]);
                }
            }
            assert forall|a: int, b: int| 0 <= a < b < o.len() implies (#[trigger] keys@[o[a] as int]).key_le(
                #[trigger] keys@[o[b] as int],
            ) && (keys@[o[b] as int].key_le(keys@[o[a] as int]) ==> o[a] < o[b]) by {
                if a < p && b < p {
                    assert(o[a] == before[a] && o[b] == before[b]);
                } else if a < p && b == p {
                    assert(o[a] == before[a]);
                    assert(keys@[before[a] as int].key_le(ki));
                } else if a < p && b > p {
                    assert(o[a] == before[a] && o[b] == before[b - 1]);
                } else if a == p {
                    assert(o[b] == before[b - 1]);
                    assert(ki.key_le(keys@[before[b - 1] as int]));
                    assert(!keys@[before[b - 1] as int].key_le(ki));
                } else {
                    assert(o[a] == before[a - 1] && o[b] == before[b - 1]);
                }
            }
        }
        i += 1;
    }
    order
}

/// The items of `items` at the positions of `order`.
pub open spec fn permuted<T>(items: Seq<T>, order: Seq<usize>) -> Seq<T> {
    order.map_values(|i: usize| items[i as int])
}

// ---------------------------------------------------------------------------
// Lexicographic order on text
// ---------------------------------------------------------------------------

/// Lexicographic order by character code (`Ord` for `str` and `String`,
/// whose byte order is the code point order).
pub open spec fn lex_le(a: Seq<char>, b: Seq<char>) -> bool
    decreases a.len(),
{
    if a.len() == 0 {
        true
    } else if b.len() == 0 {
        false
    } else if a[0] < b[0] {
        true
    } else if a[0] > b[0] {
        false
    } else {
        lex_le(a.drop_first(), b.drop_first())
    }
}

pub proof fn lemma_lex_le_total(a: Seq<char>, b: Seq<char>)
    ensures
        lex_le(a, b) || lex_le(b, a),
    decreases a.len(),
{
    if a.len() > 0 && b.len() > 0 && a[0] == b[0] {
        lemma_lex_le_total(a.drop_first(), b.drop_first());
    }
}

pub proof fn lemma_lex_le_trans(a: Seq<char>, b: Seq<char>, c: Seq<char>)
    requires
        lex_le(a, b),
        lex_le(b, c),
    ensures
        lex_le(a, c),
    decreases a.len(),
{
    if a.len() > 0 && b.len() > 0 && c.len() > 0 && a[0] == b[0] && b[0] == c[0] {
        lemma_lex_le_trans(a.drop_first(), b.drop_first(), c.drop_first());
    }
}

/// Decides `lex_le`.
pub fn lex_le_exec(a: &Vec<char>, b: &Vec<char>) -> (r: bool)
    ensures
        r == lex_le(a@, b@),
{
    let mut i: usize = 0;
    assert(a@.skip(0) =~= a@);
    assert(b@.skip(0) =~= b@);
    while i < a.len() && i < b.len() && a[i] == b[i]
        invariant
            i <= a.len(),
            i <= b.len(),
            lex_le(a@, b@) == lex_le(a@.skip(i as int), b@.skip(i as int)),
        decreases a.len() - i,
    {
        assert(a@.skip(i as int).drop_first() =~= a@.skip(i + 1));
        assert(b@.skip(i as int).drop_first() =~= b@.skip(i + 1));
        i += 1;
    }
    let ghost sa = a@.skip(i as int);
    let ghost sb = b@.skip(i as int);
    if i == a.len() {
        assert(sa.len() == 0);
        true
    } else if i == b.len() {
        assert(sb.len() == 0);
        false
    } else {
        assert(sa[0] == a@[i as int] && sb[0] == b@[i as int]);
        a[i] < b[i]
    }
}


/// A text key ordered by `lex_le`.
pub struct TextKey {
    pub text: Vec<char>,
}

impl OrderKey for TextKey {
    open spec fn key_le(self, other: Self) -> bool {
        lex_le(self.text@, other.text@)
    }

    proof fn lemma_key_le_total(a: Self, b: Self) {
        lemma_lex_le_total(a.text@, b.text@);
    }

    proof fn lemma_key_le_trans(a: Self, b: Self, c: Self) {
        lemma_lex_le_trans(a.text@, b.text@, c.text@);
    }

    fn le(&self, other: &Self) -> (r: bool) {
        lex_le_exec(&self.text, &other.text)
    }
}


pub proof fn lemma_lex_le_antisym(a: Seq<char>, b: Seq<char>)
    requires
        lex_le(a, b),
        lex_le(b, a),
    ensures
        a == b,
    decreases a.len(),
{
    if a.len() == 0 {
        assert(b.len() == 0);
        assert(a =~= b);
    } else {
        lemma_lex_le_antisym(a.drop_first(), b.drop_first());
        assert(a =~= seq![a[0]] + a.drop_first());
        assert(b =~= seq![b[0]] + b.drop_first());
    }
}

/// Ordered by text first (`lex_le`), then by number.
pub open spec fn text_num_le(x: (Seq<char>, int), y: (Seq<char>, int)) -> bool {
    lex_le(x.0, y.0) && (lex_le(y.0, x.0) ==> x.1 <= y.1)
}

/// `text_num_le`, reversed when `desc`.
pub open spec fn directed_le(desc: bool, x: (Seq<char>, int), y: (Seq<char>, int)) -> bool {
    if desc {
        text_num_le(y, x)
    } else {
        text_num_le(x, y)
    }
}

pub proof fn lemma_text_num_le_total(x: (Seq<char>, int), y: (Seq<char>, int))
    ensures
        text_num_le(x, y) || text_num_le(y, x),
{
    lemma_lex_le_total(x.0, y.0);
}

pub proof fn lemma_text_num_le_trans(x: (Seq<char>, int), y: (Seq<char>, int), z: (Seq<char>, int))
    requires
        text_num_le(x, y),
        text_num_le(y, z),
    ensures
        text_num_le(x, z),
{
    lemma_lex_le_trans(x.0, y.0, z.0);
    if lex_le(z.0, x.0) {
        lemma_lex_le_trans(z.0, x.0, y.0);
        lemma_lex_le_antisym(y.0, z.0);
        lemma_lex_le_antisym(x.0, y.0);
    }
}

/// An item sorted by a text and a number, ascending or descending. Items
/// sorted together share the direction; ascending ones come first otherwise.
pub struct SortItem {
    pub text: Vec<char>,
    pub num: u128,
    pub desc: bool,
}

impl OrderKey for SortItem {
    open spec fn key_le(self, other: Self) -> bool {
        if self.desc != other.desc {
            !self.desc
        } else {
            directed_le(self.desc, (self.text@, self.num as int), (other.text@, other.num as int))
        }
    }

    proof fn lemma_key_le_total(a: Self, b: Self) {
        lemma_text_num_le_total((a.text@, a.num as int), (b.text@, b.num as int));
    }

    proof fn lemma_key_le_trans(a: Self, b: Self, c: Self) {
        let x = (a.text@, a.num as int);
        let y = (b.text@, b.num as int);
        let z = (c.text@, c.num as int);
        if a.desc == b.desc && b.desc == c.desc {
            if a.desc {
                lemma_text_num_le_trans(z, y, x);
            } else {
                lemma_text_num_le_trans(x, y, z);
            }
        }
    }

    fn le(&self, other: &Self) -> (r: bool) {
        if self.desc != other.desc {
            !self.desc
        } else {
            let (x, y) = if self.desc {
                (other, self)
            } else {
                (self, other)
            };
            let a = lex_le_exec(&x.text, &y.text);
            let b = lex_le_exec(&y.text, &x.text);
            a && (!b || x.num <= y.num)
        }
    }
}


/// Strictly before in `lex_le` order.
pub open spec fn lex_lt(a: Seq<char>, b: Seq<char>) -> bool {
    lex_le(a, b) && a != b
}

pub proof fn lemma_lex_lt_trans(a: Seq<char>, b: Seq<char>, c: Seq<char>)
    requires
        lex_lt(a, b),
        lex_le(b, c),
    ensures
        lex_lt(a, c),
{
    lemma_lex_le_trans(a, b, c);
    if a == c {
        lemma_lex_le_antisym(a, b);
    }
}

} // verus!
