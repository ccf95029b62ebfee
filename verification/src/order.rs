//! Putting things in order.
use vstd::prelude::*;
use vstd::relations::total_ordering;
use vstd::seq_lib::{lemma_sorted_unique, to_multiset_build, to_multiset_remove};
use crate::text::{
    chars_le, lemma_lex_antisym, lemma_lex_refl, lemma_lex_total, lemma_lex_trans, lex_le, str_eq, strs, to_chars,
};

verus! {

/// What a line is ordered by. Numbers come before texts.
pub enum Key {
    Number(i64),
    Text(Vec<char>),
}

pub open spec fn key_le(a: Key, b: Key) -> bool {
    match (a, b) {
        (Key::Number(x), Key::Number(y)) => x <= y,
        (Key::Number(_), Key::Text(_)) => true,
        (Key::Text(_), Key::Number(_)) => false,
        (Key::Text(x), Key::Text(y)) => lex_le(x@, y@),
    }
}

/// Whether line `a` is put before line `b`: by its key, and by its place where the
/// keys are alike.
pub open spec fn before(keys: Seq<Key>, reverse: bool, a: int, b: int) -> bool {
    let (x, y) = if reverse {
        (keys[b], keys[a])
    } else {
        (keys[a], keys[b])
    };
    key_le(x, y) && (key_le(y, x) ==> a < b)
}

/// Whether `o` lists each of the numbers from `lo` to `hi` once, in order.
pub open spec fn arranges(o: Seq<usize>, keys: Seq<Key>, reverse: bool, lo: int, hi: int) -> bool {
    &&& o.len() == hi - lo
    &&& forall|i: int| 0 <= i < o.len() ==> lo <= #[trigger] o[i] < hi
    &&& forall|i: int, j: int|
        0 <= i < j < o.len() ==> before(keys, reverse, #[trigger] o[i] as int, #[trigger] o[j] as int)
    &&& forall|k: int| lo <= k < hi ==> #[trigger] o.contains(k as usize)
}

fn le(a: &Key, b: &Key) -> (r: bool)
    ensures
        r == key_le(*a, *b),
{
    match (a, b) {
        (Key::Number(x), Key::Number(y)) => *x <= *y,
        (Key::Number(_), Key::Text(_)) => true,
        (Key::Text(_), Key::Number(_)) => false,
        (Key::Text(x), Key::Text(y)) => chars_le(x, y),
    }
}

proof fn lemma_key_total(a: Key, b: Key)
    ensures
        key_le(a, b) || key_le(b, a),
{
    match (a, b) {
        (Key::Text(x), Key::Text(y)) => lemma_lex_total(x@, y@),
        _ => {},
    }
}

proof fn lemma_key_trans(a: Key, b: Key, c: Key)
    requires
        key_le(a, b),
        key_le(b, c),
    ensures
        key_le(a, c),
{
    match (a, b, c) {
        (Key::Text(x), Key::Text(y), Key::Text(z)) => lemma_lex_trans(x@, y@, z@),
        _ => {},
    }
}

proof fn lemma_before_total(keys: Seq<Key>, reverse: bool, a: int, b: int)
    requires
        a != b,
        !before(keys, reverse, a, b),
    ensures
        before(keys, reverse, b, a),
{
    lemma_key_total(keys[a], keys[b]);
}

proof fn lemma_before_trans(keys: Seq<Key>, reverse: bool, a: int, b: int, c: int)
    requires
        before(keys, reverse, a, b),
        before(keys, reverse, b, c),
    ensures
        before(keys, reverse, a, c),
{
    if reverse {
        lemma_key_trans(keys[c], keys[b], keys[a]);
        if key_le(keys[a], keys[c]) {
            lemma_key_trans(keys[a], keys[c], keys[b]);
            lemma_key_trans(keys[b], keys[a], keys[c]);
        }
    } else {
        lemma_key_trans(keys[a], keys[b], keys[c]);
        if key_le(keys[c], keys[a]) {
            lemma_key_trans(keys[c], keys[a], keys[b]);
            lemma_key_trans(keys[b], keys[c], keys[a]);
        }
    }
}

fn comes_before(keys: &Vec<Key>, reverse: bool, a: usize, b: usize) -> (r: bool)
    requires
        a < keys@.len(),
        b < keys@.len(),
    ensures
        r == before(keys@, reverse, a as int, b as int),
{
    if reverse {
        le(&keys[b], &keys[a]) && (!le(&keys[a], &keys[b]) || a < b)
    } else {
        le(&keys[a], &keys[b]) && (!le(&keys[b], &keys[a]) || a < b)
    }
}

fn merge(
    keys: &Vec<Key>,
    reverse: bool,
    a: &Vec<usize>,
    b: &Vec<usize>,
    lo: usize,
    mid: usize,
    hi: usize,
) -> (r: Vec<usize>)
    requires
        lo <= mid <= hi <= keys@.len(),
        arranges(a@, keys@, reverse, lo as int, mid as int),
        arranges(b@, keys@, reverse, mid as int, hi as int),
    ensures
        arranges(r@, keys@, reverse, lo as int, hi as int),
{
    let mut out: Vec<usize> = Vec::new();
    let mut i: usize = 0;
    let mut j: usize = 0;
    while i < a.len() || j < b.len()
        invariant
            lo <= mid <= hi <= keys@.len(),
            arranges(a@, keys@, reverse, lo as int, mid as int),
            arranges(b@, keys@, reverse, mid as int, hi as int),
            i <= a@.len(),
            j <= b@.len(),
            out@.len() == i + j,
            forall|k: int| 0 <= k < out@.len() ==> lo <= #[trigger] out@[k] < hi,
            forall|x: int, y: int|
                0 <= x < y < out@.len() ==> before(
                    keys@,
                    reverse,
                    #[trigger] out@[x] as int,
                    #[trigger] out@[y] as int,
                ),
            forall|x: int, y: int|
                0 <= x < out@.len() && i <= y < a@.len() ==> before(
                    keys@,
                    reverse,
                    #[trigger] out@[x] as int,
                    #[trigger] a@[y] as int,
                ),
            forall|x: int, y: int|
                0 <= x < out@.len() && j <= y < b@.len() ==> before(
                    keys@,
                    reverse,
                    #[trigger] out@[x] as int,
                    #[trigger] b@[y] as int,
                ),
            forall|x: int| 0 <= x < i ==> out@.contains(#[trigger] a@[x]),
            forall|x: int| 0 <= x < j ==> out@.contains(#[trigger] b@[x]),
        decreases a@.len() + b@.len() - i - j,
    {
        let ghost prev = out@;
        let left = if i >= a.len() {
            false
        } else if j >= b.len() {
            true
        } else {
            comes_before(keys, reverse, a[i], b[j])
        };
        if left {
            out.push(a[i]);
            proof {
                if j < b@.len() {
                    assert forall|y: int| j <= y < b@.len() implies before(
                        keys@,
                        reverse,
                        a@[i as int] as int,
                        #[trigger] b@[y] as int,
                    ) by {
                        if y > j {
                            lemma_before_trans(
                                keys@,
                                reverse,
                                a@[i as int] as int,
                                b@[j as int] as int,
                                b@[y] as int,
                            );
                        }
                    }
                }
                lemma_contains_push(prev, a@[i as int]);
            }
            i += 1;
        } else {
            out.push(b[j]);
            proof {
                if i < a@.len() {
                    lemma_before_total(keys@, reverse, a@[i as int] as int, b@[j as int] as int);
                    assert forall|y: int| i <= y < a@.len() implies before(
                        keys@,
                        reverse,
                        b@[j as int] as int,
                        #[trigger] a@[y] as int,
                    ) by {
                        if y > i {
                            lemma_before_trans(
                                keys@,
                                reverse,
                                b@[j as int] as int,
                                a@[i as int] as int,
                                a@[y] as int,
                            );
                        }
                    }
                }
                lemma_contains_push(prev, b@[j as int]);
            }
            j += 1;
        }
    }
    proof {
        assert forall|k: int| lo <= k < hi implies #[trigger] out@.contains(k as usize) by {
            if k < mid {
                assert(a@.contains(k as usize));
                let x = choose|x: int| 0 <= x < a@.len() && a@[x] == k as usize;
                assert(out@.contains(a@[x]));
            } else {
                assert(b@.contains(k as usize));
                let x = choose|x: int| 0 <= x < b@.len() && b@[x] == k as usize;
                assert(out@.contains(b@[x]));
            }
        }
    }
    out
}

proof fn lemma_contains_push(s: Seq<usize>, v: usize)
    ensures
        s.push(v).contains(v),
        forall|x: usize| s.contains(x) ==> #[trigger] s.push(v).contains(x),
{
    assert(s.push(v)[s.len() as int] == v);
    assert forall|x: usize| s.contains(x) implies #[trigger] s.push(v).contains(x) by {
        let i = choose|i: int| 0 <= i < s.len() && s[i] == x;
        assert(s.push(v)[i] == x);
    }
}

fn arrange(keys: &Vec<Key>, reverse: bool, lo: usize, hi: usize) -> (r: Vec<usize>)
    requires
        lo <= hi <= keys@.len(),
    ensures
        arranges(r@, keys@, reverse, lo as int, hi as int),
    decreases hi - lo,
{
    let mut out: Vec<usize> = Vec::new();
    if hi - lo == 0 {
        return out;
    }
    if hi - lo == 1 {
        out.push(lo);
        proof {
            assert(out@[0] == lo);
        }
        return out;
    }
    let mid = lo + (hi - lo) / 2;
    let a = arrange(keys, reverse, lo, mid);
    let b = arrange(keys, reverse, mid, hi);
    merge(keys, reverse, &a, &b, lo, mid, hi)
}

/// The order of some lines by their keys. Lines whose keys are alike stay in the
/// order that they came in.
pub fn order(keys: &Vec<Key>, reverse: bool) -> (r: Vec<usize>)
    ensures
        arranges(r@, keys@, reverse, 0, keys@.len() as int),
{
    arrange(keys, reverse, 0, keys.len())
}

/// Whether `o` lists each of the numbers below `n` once.
pub open spec fn permutes(o: Seq<usize>, n: int) -> bool {
    &&& o.len() == n
    &&& forall|i: int| 0 <= i < o.len() ==> 0 <= #[trigger] o[i] < n
    &&& forall|i: int, j: int| 0 <= i < j < o.len() ==> #[trigger] o[i] != #[trigger] o[j]
}

pub open spec fn picked<T>(s: Seq<T>, o: Seq<usize>) -> Seq<T> {
    Seq::new(o.len(), |i: int| s[o[i] as int])
}

/// Whether `a` holds what `b` holds, each as often, in an order that may differ.
pub open spec fn rearranged<T>(a: Seq<T>, b: Seq<T>) -> bool {
    exists|o: Seq<usize>| #[trigger] permutes(o, b.len() as int) && a == picked(b, o)
}

/// Whether the texts stand in the order of their characters.
pub open spec fn ascending(s: Seq<Seq<char>>) -> bool {
    forall|i: int, j: int| 0 <= i < j < s.len() ==> lex_le(#[trigger] s[i], #[trigger] s[j])
}

/// The order of texts.
pub open spec fn text_order() -> spec_fn(Seq<char>, Seq<char>) -> bool {
    |a: Seq<char>, b: Seq<char>| lex_le(a, b)
}

/// Texts in order.
pub open spec fn sorted(s: Seq<Seq<char>>) -> Seq<Seq<char>> {
    s.sort_by(text_order())
}

proof fn lemma_text_order()
    ensures
        total_ordering(text_order()),
{
    let leq = text_order();
    assert forall|a: Seq<char>| #[trigger] leq(a, a) by {
        lemma_lex_refl(a);
    }
    assert forall|a: Seq<char>, b: Seq<char>| #[trigger] leq(a, b) && #[trigger] leq(b, a) implies a
        == b by {
        lemma_lex_antisym(a, b);
    }
    assert forall|a: Seq<char>, b: Seq<char>, c: Seq<char>| #[trigger]
        leq(a, b) && #[trigger] leq(b, c) implies leq(a, c) by {
        lemma_lex_trans(a, b, c);
    }
    assert forall|a: Seq<char>, b: Seq<char>| #[trigger] leq(a, b) || #[trigger] leq(b, a) by {
        lemma_lex_total(a, b);
    }
}

/// What is picked in a list of all places is what was there.
proof fn lemma_picked_all<T>(s: Seq<T>, o: Seq<usize>)
    requires
        permutes(o, s.len() as int),
        forall|k: int| 0 <= k < s.len() ==> #[trigger] o.contains(k as usize),
        s.len() <= usize::MAX,
    ensures
        picked(s, o).to_multiset() == s.to_multiset(),
    decreases s.len(),
{
    if s.len() == 0 {
        assert(picked(s, o) =~= s);
    } else {
        let n = s.len() - 1;
        assert(o.contains(n as usize));
        let p = choose|p: int| 0 <= p < o.len() && o[p] == n as usize;
        let less = o.remove(p);
        let front = s.drop_last();
        assert forall|i: int| 0 <= i < less.len() implies 0 <= #[trigger] less[i] < n by {
            let j = if i < p { i } else { i + 1 };
            assert(less[i] == o[j]);
            assert(o[j] != o[p]);
        }
        assert forall|i: int, j: int| 0 <= i < j < less.len() implies #[trigger] less[i]
            != #[trigger] less[j] by {
            let a = if i < p { i } else { i + 1 };
            let b = if j < p { j } else { j + 1 };
            assert(less[i] == o[a] && less[j] == o[b]);
        }
        assert forall|k: int| 0 <= k < n implies #[trigger] less.contains(k as usize) by {
            assert(o.contains(k as usize));
            let j = choose|j: int| 0 <= j < o.len() && o[j] == k as usize;
            let i = if j < p { j } else { j - 1 };
            assert(less[i] == o[j]);
        }
        lemma_picked_all(front, less);
        assert(picked(s, o).remove(p) =~= picked(front, less));
        to_multiset_remove(picked(s, o), p);
        to_multiset_build(front, s.last());
        assert(front.push(s.last()) =~= s);
        let m = picked(s, o).to_multiset();
        assert(picked(s, o).contains(s.last())) by {
            assert(picked(s, o)[p] == s.last());
        }
        vstd::seq_lib::to_multiset_contains(picked(s, o), s.last());
        assert(m =~= m.remove(s.last()).insert(s.last()));
    }
}

/// Sorting brings no text twice that was there once.
pub proof fn lemma_sorted_once(s: Seq<Seq<char>>)
    requires
        s.no_duplicates(),
    ensures
        sorted(s).no_duplicates(),
{
    lemma_text_order();
    s.lemma_sort_by_ensures(text_order());
    s.lemma_multiset_has_no_duplicates();
    sorted(s).lemma_multiset_has_no_duplicates_conv();
}

/// Sorts texts by their characters.
pub fn sort_strings(v: &Vec<String>) -> (r: Vec<String>)
    ensures
        strs(r@) == sorted(strs(v@)),
{
    let mut keys: Vec<Key> = Vec::new();
    let mut i: usize = 0;
    while i < v.len()
        invariant
            i <= v@.len(),
            keys@.len() == i,
            forall|k: int|
                0 <= k < i ==> (#[trigger] keys@[k] matches Key::Text(t) && t@ == v@[k]@),
        decreases v@.len() - i,
    {
        keys.push(Key::Text(to_chars(v[i].as_str())));
        i += 1;
    }
    let o = order(&keys, false);
    let mut out: Vec<String> = Vec::new();
    let mut i: usize = 0;
    while i < o.len()
        invariant
            i <= o@.len(),
            o@.len() == v@.len(),
            forall|k: int| 0 <= k < o@.len() ==> 0 <= #[trigger] o@[k] < v@.len(),
            out@.len() == i,
            forall|k: int| 0 <= k < i ==> (#[trigger] out@[k])@ == v@[o@[k] as int]@,
        decreases o@.len() - i,
    {
        out.push(v[o[i]].clone());
        i += 1;
    }
    proof {
        let a = strs(out@);
        let s = strs(v@);
        let leq = text_order();
        assert forall|a: int, b: int| 0 <= a < b < o@.len() implies #[trigger] o@[a]
            != #[trigger] o@[b] by {
            assert(before(keys@, false, o@[a] as int, o@[b] as int));
        }
        assert(permutes(o@, s.len() as int));
        assert(a =~= picked(s, o@));
        assert(s.len() == v.len());
        lemma_picked_all(s, o@);
        assert forall|i: int, j: int| 0 <= i < j < a.len() implies #[trigger] leq(a[i], a[j]) by {
            assert(before(keys@, false, o@[i] as int, o@[j] as int));
            assert(keys@[o@[i] as int] is Text);
            assert(keys@[o@[j] as int] is Text);
        }
        lemma_text_order();
        s.lemma_sort_by_ensures(leq);
        lemma_sorted_unique(a, sorted(s), leq);
    }
    out
}

/// The key of a text as it is.
pub open spec fn plain_keys(s: Seq<Seq<char>>, keys: Seq<Key>) -> bool {
    keys.len() == s.len() && forall|k: int|
        0 <= k < s.len() ==> (#[trigger] keys[k] matches Key::Text(t) && t@ == s[k])
}

proof fn lemma_repeat(s: Seq<Seq<char>>, keys: Seq<Key>, o: Seq<usize>, p: int)
    requires
        plain_keys(s, keys),
        arranges(o, keys, false, 0, s.len() as int),
        s.len() <= usize::MAX,
        0 <= p < o.len(),
    ensures
        (p > 0 && s[o[p - 1] as int] == s[o[p] as int]) == s.take(o[p] as int).contains(
            s[o[p] as int],
        ),
{
    let i = o[p] as int;
    let earlier = s.take(i);
    if p > 0 {
        let h = o[p - 1] as int;
        assert(before(keys, false, h, i));
        assert(keys[h] is Text && keys[i] is Text);
        if s[h] == s[i] {
            lemma_lex_refl(s[i]);
            assert(earlier[h] == s[h]);
        }
    }
    if earlier.contains(s[i]) {
        let k = choose|k: int| 0 <= k < earlier.len() && earlier[k] == s[i];
        assert(s[k] == s[i]);
        assert(o.contains(k as usize));
        let q = choose|q: int| 0 <= q < o.len() && o[q] == k as usize;
        assert(keys[k] is Text && keys[i] is Text);
        lemma_lex_refl(s[i]);
        if q > p {
            assert(before(keys, false, i, k));
        }
        assert(q < p);
        let h = o[p - 1] as int;
        assert(keys[h] is Text);
        assert(before(keys, false, h, i));
        if q < p - 1 {
            assert(before(keys, false, k, h));
            lemma_lex_antisym(s[h], s[i]);
        }
    }
}

/// Finds the texts that repeat an earlier one.
pub fn repeats(v: &Vec<String>) -> (r: Vec<bool>)
    ensures
        r@.len() == v@.len(),
        forall|i: int|
            0 <= i < v@.len() ==> #[trigger] r@[i] == strs(v@).take(i).contains(strs(v@)[i]),
{
    let ghost s = strs(v@);
    let mut keys: Vec<Key> = Vec::new();
    let mut table: Vec<bool> = Vec::new();
    let mut i: usize = 0;
    while i < v.len()
        invariant
            s == strs(v@),
            i <= v@.len(),
            table@.len() == i,
            keys@.len() == i,
            forall|k: int| 0 <= k < i ==> (#[trigger] keys@[k] matches Key::Text(t) && t@ == s[k]),
        decreases v@.len() - i,
    {
        keys.push(Key::Text(to_chars(v[i].as_str())));
        table.push(false);
        i += 1;
    }
    let o = order(&keys, false);
    let mut p: usize = 0;
    while p < o.len()
        invariant
            s == strs(v@),
            s.len() == v@.len(),
            table@.len() == v@.len(),
            plain_keys(s, keys@),
            arranges(o@, keys@, false, 0, s.len() as int),
            p <= o@.len(),
            forall|m: int|
                0 <= m < p ==> table@[#[trigger] o@[m] as int] == s.take(o@[m] as int).contains(
                    s[o@[m] as int],
                ),
        decreases o@.len() - p,
    {
        let at = o[p];
        proof {
            lemma_repeat(s, keys@, o@, p as int);
            assert(s[at as int] == v@[at as int]@);
            if p > 0 {
                assert(s[o@[p - 1] as int] == v@[o@[p - 1] as int]@);
            }
            assert forall|m: int| 0 <= m < p implies #[trigger] o@[m] != at by {
                assert(before(keys@, false, o@[m] as int, o@[p as int] as int));
            }
        }
        let again = p > 0 && str_eq(v[o[p - 1]].as_str(), v[at].as_str());
        table.set(at, again);
        p += 1;
    }
    proof {
        assert forall|i: int| 0 <= i < v@.len() implies #[trigger] table@[i] == s.take(i).contains(
            s[i],
        ) by {
            assert(o@.contains(i as usize));
            let m = choose|m: int| 0 <= m < o@.len() && o@[m] == i as usize;
            assert(table@[o@[m] as int] == s.take(o@[m] as int).contains(s[o@[m] as int]));
        }
    }
    table
}

/// Sorted texts are the same texts, each as often, in the order of their characters.
pub proof fn law_sorted(s: Seq<Seq<char>>)
    ensures
        ascending(sorted(s)),
        forall|i: int, j: int|
            0 <= i < j < s.len() ==> lex_le(#[trigger] sorted(s)[i], #[trigger] sorted(s)[j]),
        sorted(s).to_multiset() == s.to_multiset(),
        sorted(s).len() == s.len(),
        forall|x: Seq<char>| #[trigger] sorted(s).contains(x) == s.contains(x),
{
    lemma_text_order();
    s.lemma_sort_by_ensures(text_order());
    let r = sorted(s);
    assert(r.len() == s.len()) by {
        s.to_multiset_ensures();
        r.to_multiset_ensures();
    }
    assert forall|x: Seq<char>| #[trigger] r.contains(x) == s.contains(x) by {
        s.to_multiset_ensures();
        r.to_multiset_ensures();
        assert(r.contains(x) <==> r.to_multiset().count(x) > 0);
        assert(s.contains(x) <==> s.to_multiset().count(x) > 0);
    }
    let leq = text_order();
    assert forall|i: int, j: int| 0 <= i < j < r.len() implies lex_le(
        #[trigger] r[i],
        #[trigger] r[j],
    ) by {
        assert(leq(r[i], r[j]));
    }
}

} // verus!
