//! Ordering by key, and the stable sort the crate uses wherever it sorts.
use vstd::prelude::*;

use crate::text::to_chars;

verus! {

broadcast use vstd::seq_lib::to_multiset_build;

/// Values ordered by a key of their views: `view_le` is a total preorder on views, and
/// `le` computes it.
pub trait SortKey: View + Sized {
    spec fn view_le(a: Self::V, b: Self::V) -> bool;

    proof fn lemma_view_le_total(a: Self::V, b: Self::V)
        ensures
            Self::view_le(a, b) || Self::view_le(b, a),
    ;

    proof fn lemma_view_le_trans(a: Self::V, b: Self::V, c: Self::V)
        requires
            Self::view_le(a, b),
            Self::view_le(b, c),
        ensures
            Self::view_le(a, c),
    ;

    fn le(&self, other: &Self) -> (r: bool)
        ensures
            r == Self::view_le(self@, other@),
    ;
}

/// The views of a sequence.
pub open spec fn seq_views<T: View>(s: Seq<T>) -> Seq<T::V> {
    s.map_values(|x: T| x@)
}

/// Lexicographic order on characters compared as code points, the order `str` compares
/// in (UTF-8 keeps the order of code points).
pub open spec fn chars_le(a: Seq<char>, b: Seq<char>) -> bool
    decreases a.len(),
{
    if a.len() == 0 {
        true
    } else if b.len() == 0 {
        false
    } else if a[0] == b[0] {
        chars_le(a.drop_first(), b.drop_first())
    } else {
        a[0] < b[0]
    }
}

pub proof fn lemma_chars_le_total(a: Seq<char>, b: Seq<char>)
    ensures
        chars_le(a, b) || chars_le(b, a),
    decreases a.len(),
{
    if a.len() > 0 && b.len() > 0 {
        if a[0] == b[0] {
            lemma_chars_le_total(a.drop_first(), b.drop_first());
        } else {
        }
    }
}

pub proof fn lemma_chars_le_trans(a: Seq<char>, b: Seq<char>, c: Seq<char>)
    requires
        chars_le(a, b),
        chars_le(b, c),
    ensures
        chars_le(a, c),
    decreases a.len(),
{
    if a.len() > 0 && b.len() > 0 && c.len() > 0 && a[0] == b[0] && b[0] == c[0] {
        lemma_chars_le_trans(a.drop_first(), b.drop_first(), c.drop_first());
    }
}

pub proof fn lemma_chars_le_antisym(a: Seq<char>, b: Seq<char>)
    requires
        chars_le(a, b),
        chars_le(b, a),
    ensures
        a == b,
    decreases a.len(),
{
    if a.len() == 0 {
        assert(b.len() == 0);
        assert(a =~= b);
    } else {
        assert(b.len() > 0);
        assert(a[0] == b[0]);
        lemma_chars_le_antisym(a.drop_first(), b.drop_first());
        assert(a =~= seq![a[0]] + a.drop_first());
        assert(b =~= seq![b[0]] + b.drop_first());
    }
}

/// Whether `a` comes no later than `b` in lexicographic order.
pub fn chars_le_exec(a: &Vec<char>, b: &Vec<char>) -> (r: bool)
    ensures
        r == chars_le(a@, b@),
{
    let mut i: usize = 0;
    assert(a@.skip(0) =~= a@);
    assert(b@.skip(0) =~= b@);
    while i < a.len() && i < b.len() && a[i] == b[i]
        invariant
            i <= a.len(),
            i <= b.len(),
            chars_le(a@, b@) == chars_le(a@.skip(i as int), b@.skip(i as int)),
        decreases a.len() - i,
    {
        assert(a@.skip(i as int).drop_first() =~= a@.skip(i + 1));
        assert(b@.skip(i as int).drop_first() =~= b@.skip(i + 1));
        i = i + 1;
    }
    if i == a.len() {
        true
    } else if i == b.len() {
        false
    } else {
        a[i] < b[i]
    }
}

/// Whether string `a` comes no later than string `b`.
pub fn str_le(a: &str, b: &str) -> (r: bool)
    ensures
        r == chars_le(a@, b@),
{
    let a = to_chars(a);
    let b = to_chars(b);
    chars_le_exec(&a, &b)
}

impl SortKey for String {
    open spec fn view_le(a: Seq<char>, b: Seq<char>) -> bool {
        chars_le(a, b)
    }

    proof fn lemma_view_le_total(a: Seq<char>, b: Seq<char>) {
        lemma_chars_le_total(a, b);
    }

    proof fn lemma_view_le_trans(a: Seq<char>, b: Seq<char>, c: Seq<char>) {
        lemma_chars_le_trans(a, b, c);
    }

    fn le(&self, other: &Self) -> (r: bool) {
        str_le(self.as_str(), other.as_str())
    }
}

/// `s` with `x` placed after the last element whose key is no greater than `x`'s.
pub open spec fn insert_sorted<T: SortKey>(s: Seq<T::V>, x: T::V) -> Seq<T::V>
    decreases s.len(),
{
    if s.len() == 0 {
        seq![x]
    } else if T::view_le(s.last(), x) {
        s.push(x)
    } else {
        insert_sorted::<T>(s.drop_last(), x).push(s.last())
    }
}

/// `s` sorted by key, stably (insertion sort): elements with equal keys keep their order.
pub open spec fn sort_by_key<T: SortKey>(s: Seq<T::V>) -> Seq<T::V>
    decreases s.len(),
{
    if s.len() == 0 {
        s
    } else {
        insert_sorted::<T>(sort_by_key::<T>(s.drop_last()), s.last())
    }
}

/// `s` is in key order.
pub open spec fn is_sorted<T: SortKey>(s: Seq<T::V>) -> bool {
    forall|i: int, j: int| #![trigger s[i], s[j]] 0 <= i < j < s.len() ==> T::view_le(s[i], s[j])
}

proof fn lemma_insert_sorted_at<T: SortKey>(s: Seq<T::V>, x: T::V, j: int)
    requires
        0 <= j <= s.len(),
        j == 0 || T::view_le(s[j - 1], x),
        forall|k: int| j <= k < s.len() ==> !T::view_le(#[trigger] s[k], x),
    ensures
        insert_sorted::<T>(s, x) == s.insert(j, x),
    decreases s.len(),
{
    if s.len() == 0 {
        assert(s.insert(j, x) =~= seq![x]);
    } else if j == s.len() {
        assert(s.insert(j, x) =~= s.push(x));
    } else {
        assert(!T::view_le(s.last(), x));
        let t = s.drop_last();
        assert forall|k: int| j <= k < t.len() implies !T::view_le(#[trigger] t[k], x) by {
            assert(t[k] == s[k]);
        }
        lemma_insert_sorted_at::<T>(t, x, j);
        assert(s.insert(j, x) =~= t.insert(j, x).push(s.last()));
    }
}

proof fn lemma_insert_sorted_props<T: SortKey>(s: Seq<T::V>, x: T::V)
    ensures
        insert_sorted::<T>(s, x).to_multiset() == s.to_multiset().insert(x),
        insert_sorted::<T>(s, x).len() == s.len() + 1,
        forall|i: int|
            0 <= i < insert_sorted::<T>(s, x).len() ==> #[trigger] insert_sorted::<T>(s, x)[i]
                == x || s.contains(insert_sorted::<T>(s, x)[i]),
        is_sorted::<T>(s) ==> is_sorted::<T>(insert_sorted::<T>(s, x)),
    decreases s.len(),
{
    broadcast use vstd::multiset::group_multiset_axioms;

    if s.len() == 0 {
        assert(Seq::<T::V>::empty().push(x) =~= seq![x]);
        assert(s =~= Seq::<T::V>::empty());
    } else if T::view_le(s.last(), x) {
        if is_sorted::<T>(s) {
            assert forall|i: int, j: int|
                #![trigger s.push(x)[i], s.push(x)[j]]
                0 <= i < j < s.push(x).len() implies T::view_le(s.push(x)[i], s.push(x)[j]) by {
                if j == s.len() && i < s.len() - 1 {
                    T::lemma_view_le_trans(s[i], s.last(), x);
                }
            }
        }
        assert forall|i: int| 0 <= i < s.push(x).len() implies #[trigger] s.push(x)[i] == x
            || s.contains(s.push(x)[i]) by {
            if i < s.len() {
                assert(s[i] == s.push(x)[i]);
            }
        }
    } else {
        let t = s.drop_last();
        lemma_insert_sorted_props::<T>(t, x);
        let u = insert_sorted::<T>(t, x);
        assert(s =~= t.push(s.last()));
        assert forall|i: int| 0 <= i < u.push(s.last()).len() implies #[trigger] u.push(
            s.last(),
        )[i] == x || s.contains(u.push(s.last())[i]) by {
            if i < u.len() {
                if u[i] != x {
                    let k = choose|k: int| 0 <= k < t.len() && t[k] == u[i];
                    assert(s[k] == t[k]);
                }
            } else {
                assert(s[s.len() - 1] == s.last());
            }
        }
        if is_sorted::<T>(s) {
            assert(is_sorted::<T>(t)) by {
                assert forall|i: int, j: int| #![trigger t[i], t[j]]
                    0 <= i < j < t.len() implies T::view_le(t[i], t[j]) by {
                    assert(t[i] == s[i] && t[j] == s[j]);
                }
            }
            assert forall|i: int, j: int|
                #![trigger u.push(s.last())[i], u.push(s.last())[j]]
                0 <= i < j < u.push(s.last()).len() implies T::view_le(
                u.push(s.last())[i],
                u.push(s.last())[j],
            ) by {
                if j == u.len() {
                    if u[i] == x {
                        T::lemma_view_le_total(s.last(), x);
                    } else {
                        let k = choose|k: int| 0 <= k < t.len() && t[k] == u[i];
                        assert(s[k] == t[k]);
                        assert(T::view_le(s[k], s[s.len() - 1]));
                    }
                } else {
                    assert(u.push(s.last())[i] == u[i] && u.push(s.last())[j] == u[j]);
                }
            }
        }
    }
}

/// The stable sort keeps every element and orders them by key.
pub proof fn lemma_sort_by_key<T: SortKey>(s: Seq<T::V>)
    ensures
        sort_by_key::<T>(s).to_multiset() == s.to_multiset(),
        sort_by_key::<T>(s).len() == s.len(),
        is_sorted::<T>(sort_by_key::<T>(s)),
    decreases s.len(),
{
    if s.len() > 0 {
        lemma_sort_by_key::<T>(s.drop_last());
        lemma_insert_sorted_props::<T>(sort_by_key::<T>(s.drop_last()), s.last());
        assert(s =~= s.drop_last().push(s.last()));
    }
}

/// Two views with the same key: each is no greater than the other.
pub open spec fn same_key<T: SortKey>(a: T::V, b: T::V) -> bool {
    T::view_le(a, b) && T::view_le(b, a)
}

/// The elements of `s` whose key is the same as `x`'s, in order.
pub open spec fn with_key_of<T: SortKey>(s: Seq<T::V>, x: T::V) -> Seq<T::V>
    decreases s.len(),
{
    if s.len() == 0 {
        s
    } else {
        let rest = with_key_of::<T>(s.drop_last(), x);
        if same_key::<T>(x, s.last()) {
            rest.push(s.last())
        } else {
            rest
        }
    }
}

proof fn lemma_insert_sorted_stable<T: SortKey>(t: Seq<T::V>, e: T::V, x: T::V)
    ensures
        with_key_of::<T>(insert_sorted::<T>(t, e), x) == if same_key::<T>(x, e) {
            with_key_of::<T>(t, x).push(e)
        } else {
            with_key_of::<T>(t, x)
        },
    decreases t.len(),
{
    if t.len() == 0 {
        assert(seq![e].drop_last() =~= t);
    } else if T::view_le(t.last(), e) {
        assert(t.push(e).drop_last() =~= t);
    } else {
        let init = t.drop_last();
        lemma_insert_sorted_stable::<T>(init, e, x);
        let u = insert_sorted::<T>(init, e);
        assert(u.push(t.last()).drop_last() =~= u);
        if same_key::<T>(x, e) && same_key::<T>(x, t.last()) {
            T::lemma_view_le_trans(t.last(), x, e);
        }
    }
}

/// The sort is stable: the elements with any one key come out in the order they went in.
pub proof fn lemma_sort_by_key_stable<T: SortKey>(s: Seq<T::V>, x: T::V)
    ensures
        with_key_of::<T>(sort_by_key::<T>(s), x) == with_key_of::<T>(s, x),
    decreases s.len(),
{
    if s.len() > 0 {
        lemma_sort_by_key_stable::<T>(s.drop_last(), x);
        lemma_insert_sorted_stable::<T>(sort_by_key::<T>(s.drop_last()), s.last(), x);
    }
}

/// Place `x` after the last element whose key is no greater than its own.
pub fn insert_by_key<T: SortKey>(out: &mut Vec<T>, x: T)
    ensures
        seq_views(final(out)@) == insert_sorted::<T>(seq_views(old(out)@), x@),
{
    let mut j = out.len();
    while j > 0 && !out[j - 1].le(&x)
        invariant
            j <= out.len(),
            out@ == old(out)@,
            forall|k: int| j <= k < out@.len() ==> !T::view_le((#[trigger] out@[k])@, x@),
        decreases j,
    {
        j = j - 1;
    }
    let ghost vs = seq_views(out@);
    proof {
        assert forall|k: int| j <= k < vs.len() implies !T::view_le(#[trigger] vs[k], x@) by {
            assert(vs[k] == out@[k]@);
        }
        lemma_insert_sorted_at::<T>(vs, x@, j as int);
    }
    let ghost xv = x@;
    out.insert(j, x);
    assert(seq_views(out@) =~= vs.insert(j as int, xv));
}

/// `v` sorted by key, stably.
pub fn sort_by<T: SortKey>(v: Vec<T>) -> (r: Vec<T>)
    ensures
        seq_views(r@) == sort_by_key::<T>(seq_views(v@)),
{
    let ghost all = seq_views(v@);
    let mut input = v;
    let mut out: Vec<T> = Vec::new();
    let ghost mut i: int = 0;
    assert(all.skip(0) =~= all);
    assert(all.take(0) =~= Seq::<T::V>::empty());
    assert(seq_views(out@) =~= Seq::<T::V>::empty());
    while input.len() > 0
        invariant
            0 <= i <= all.len(),
            seq_views(input@) == all.skip(i),
            seq_views(out@) == sort_by_key::<T>(all.take(i)),
        decreases input.len(),
    {
        let ghost before = input@;
        let x = input.remove(0);
        proof {
            assert(seq_views(input@) =~= seq_views(before).drop_first());
            assert(all.skip(i).drop_first() =~= all.skip(i + 1));
            assert(all.take(i + 1).drop_last() =~= all.take(i));
            assert(all.take(i + 1).last() == x@) by {
                assert(all.skip(i)[0] == all[i]);
                assert(seq_views(before)[0] == before[0]@);
            }
        }
        insert_by_key(&mut out, x);
        proof {
            i = i + 1;
        }
    }
    assert(all.take(i) =~= all);
    out
}

/// `s` without consecutive repeats, as `Vec::dedup`.
pub open spec fn dedup(s: Seq<Seq<char>>) -> Seq<Seq<char>>
    decreases s.len(),
{
    if s.len() <= 1 {
        s
    } else if s[s.len() - 2] == s.last() {
        dedup(s.drop_last())
    } else {
        dedup(s.drop_last()).push(s.last())
    }
}

/// `v` without consecutive repeats.
pub fn dedup_strings(v: Vec<String>) -> (r: Vec<String>)
    ensures
        seq_views(r@) == dedup(seq_views(v@)),
{
    let ghost all = seq_views(v@);
    let mut out: Vec<String> = Vec::new();
    let mut i: usize = 0;
    assert(all.take(0) =~= Seq::<Seq<char>>::empty());
    assert(seq_views(out@) =~= Seq::<Seq<char>>::empty());
    while i < v.len()
        invariant
            i <= v.len(),
            all == seq_views(v@),
            seq_views(out@) == dedup(all.take(i as int)),
            i > 0 ==> out@.len() > 0 && out@.last()@ == all[i - 1],
        decreases v.len() - i,
    {
        let ghost t = all.take(i + 1);
        assert(t.drop_last() =~= all.take(i as int));
        assert(t.last() == v@[i as int]@);
        let ghost before = out@;
        if i > 0 && out[out.len() - 1] == v[i] {
            assert(t[t.len() - 2] == all[i - 1]);
        } else {
            out.push(v[i].clone());
            assert(seq_views(out@) =~= seq_views(before).push(v@[i as int]@));
            proof {
                if i > 0 {
                    assert(t[t.len() - 2] == all[i - 1]);
                } else {
                    assert(all.take(0) =~= Seq::<Seq<char>>::empty());
                }
            }
        }
        i = i + 1;
    }
    assert(all.take(v.len() as int) =~= all);
    out
}

/// Removing consecutive repeats from a sorted sequence leaves it strictly increasing with the
/// same elements.
pub proof fn lemma_dedup_sorted(s: Seq<Seq<char>>)
    requires
        is_sorted::<String>(s),
    ensures
        forall|i: int, j: int| #![trigger dedup(s)[i], dedup(s)[j]]
            0 <= i < j < dedup(s).len() ==> chars_le(dedup(s)[i], dedup(s)[j]) && dedup(s)[i]
                != dedup(s)[j],
        forall|x: Seq<char>| dedup(s).contains(x) <==> s.contains(x),
        s.len() > 0 ==> dedup(s).len() > 0 && dedup(s).last() == s.last(),
    decreases s.len(),
{
    if s.len() <= 1 {
    } else {
        let t = s.drop_last();
        assert(is_sorted::<String>(t)) by {
            assert forall|i: int, j: int| #![trigger t[i], t[j]]
                0 <= i < j < t.len() implies chars_le(t[i], t[j]) by {
                assert(t[i] == s[i] && t[j] == s[j]);
            }
        }
        lemma_dedup_sorted(t);
        let d = dedup(t);
        assert forall|x: Seq<char>| dedup(s).contains(x) <==> s.contains(x) by {
            if s.contains(x) {
                let k = choose|k: int| 0 <= k < s.len() && s[k] == x;
                if k < t.len() || s[s.len() - 2] == s.last() {
                    if k < t.len() {
                        assert(t[k] == x);
                    } else {
                        assert(t[t.len() - 1] == x);
                    }
                    assert(t.contains(x));
                    assert(d.contains(x));
                    let j = choose|j: int| 0 <= j < d.len() && d[j] == x;
                    assert(dedup(s)[j] == x);
                } else {
                    assert(dedup(s)[dedup(s).len() - 1] == x);
                }
            }
            if dedup(s).contains(x) {
                let k = choose|k: int| 0 <= k < dedup(s).len() && dedup(s)[k] == x;
                if k < d.len() {
                    assert(dedup(s)[k] == d[k]);
                    assert(d.contains(x));
                    assert(t.contains(x));
                    let m = choose|m: int| 0 <= m < t.len() && t[m] == x;
                    assert(s[m] == x);
                } else {
                    assert(s[s.len() - 1] == x);
                }
            }
        }
        if s[s.len() - 2] != s.last() {
            let e = d.push(s.last());
            assert forall|i: int, j: int| #![trigger e[i], e[j]]
                0 <= i < j < e.len() implies chars_le(e[i], e[j]) && e[i] != e[j] by {
                if j == e.len() - 1 {
                    assert(d[i] == e[i]);
                    assert(d.contains(e[i]));
                    assert(t.contains(e[i]));
                    let m = choose|m: int| 0 <= m < t.len() && t[m] == e[i];
                    assert(s[m] == t[m]);
                    assert(chars_le(s[m], s[s.len() - 1]));
                    if e[i] == s.last() {
                        // e[i] is no later than the element before the last, which is no
                        // later than the last, so they are all equal
                        assert(chars_le(s[m], s[s.len() - 2])) by {
                            if m < s.len() - 2 {
                            }
                        }
                        assert(chars_le(s[s.len() - 2], s[s.len() - 1]));
                        lemma_chars_le_trans(s[s.len() - 1], s[m], s[s.len() - 2]);
                        lemma_chars_le_antisym(s[s.len() - 2], s[s.len() - 1]);
                    }
                } else {
                    assert(e[i] == d[i] && e[j] == d[j]);
                }
            }
        }
    }
}

} // verus!
