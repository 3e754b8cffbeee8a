//! Stable sorting by an integer key.
use vstd::prelude::*;

verus! {

use vstd::seq_lib::to_multiset_build;

/// An item that knows the key it is ordered by.
pub trait Keyed: Sized {
    spec fn sort_key(&self) -> int;

    fn key(&self) -> (k: u64)
        ensures
            k == self.sort_key(),
    ;
}

impl Keyed for u8 {
    open spec fn sort_key(&self) -> int {
        *self as int
    }

    fn key(&self) -> (k: u64) {
        *self as u64
    }
}

impl Keyed for u32 {
    open spec fn sort_key(&self) -> int {
        *self as int
    }

    fn key(&self) -> (k: u64) {
        *self as u64
    }
}

/// The key function of a type that has one.
pub open spec fn own_key<T: Keyed>() -> spec_fn(T) -> int {
    |t: T| t.sort_key()
}

/// No key is larger than a later one.
pub open spec fn ascending<A>(s: Seq<A>, key: spec_fn(A) -> int) -> bool {
    forall|i: int, j: int| 0 <= i <= j < s.len() ==> key(#[trigger] s[i]) <= key(#[trigger] s[j])
}

/// The items of `s` whose key is `k`, in the order they have there.
pub open spec fn with_key<A>(s: Seq<A>, key: spec_fn(A) -> int, k: int) -> Seq<A>
    decreases s.len(),
{
    if s.len() == 0 {
        s
    } else {
        let rest = with_key(s.drop_last(), key, k);
        if key(s.last()) == k {
            rest.push(s.last())
        } else {
            rest
        }
    }
}

/// `s` with `a` set behind the last item whose key is not larger.
pub open spec fn place<A>(s: Seq<A>, a: A, key: spec_fn(A) -> int) -> Seq<A>
    decreases s.len(),
{
    if s.len() == 0 || key(s.last()) <= key(a) {
        s.push(a)
    } else {
        place(s.drop_last(), a, key).push(s.last())
    }
}

/// `s` in ascending order of the key; items with equal keys keep their order.
pub open spec fn sorted_by_key<A>(s: Seq<A>, key: spec_fn(A) -> int) -> Seq<A>
    decreases s.len(),
{
    if s.len() == 0 {
        s
    } else {
        place(sorted_by_key(s.drop_last(), key), s.last(), key)
    }
}

proof fn lemma_with_key_push<A>(s: Seq<A>, a: A, key: spec_fn(A) -> int, k: int)
    ensures
        with_key(s.push(a), key, k) == if key(a) == k {
            with_key(s, key, k).push(a)
        } else {
            with_key(s, key, k)
        },
{
    assert(s.push(a).drop_last() =~= s);
}

proof fn lemma_with_key_add<A>(s: Seq<A>, t: Seq<A>, key: spec_fn(A) -> int, k: int)
    ensures
        with_key(s + t, key, k) == with_key(s, key, k) + with_key(t, key, k),
    decreases t.len(),
{
    if t.len() == 0 {
        assert(s + t =~= s);
    } else {
        lemma_with_key_add(s, t.drop_last(), key, k);
        assert((s + t).drop_last() =~= s + t.drop_last());
    }
}

/// An item is found under its own key, and no other item is.
pub proof fn lemma_with_key_members<A>(s: Seq<A>, key: spec_fn(A) -> int, k: int)
    ensures
        forall|i: int|
            0 <= i < s.len() && key(#[trigger] s[i]) == k ==> with_key(s, key, k).contains(s[i]),
        forall|i: int|
            0 <= i < with_key(s, key, k).len() ==> key(#[trigger] with_key(s, key, k)[i]) == k
                && s.contains(with_key(s, key, k)[i]),
    decreases s.len(),
{
    if s.len() > 0 {
        let rest = s.drop_last();
        let w = with_key(rest, key, k);
        lemma_with_key_members(rest, key, k);
        assert forall|i: int|
            0 <= i < s.len() && key(#[trigger] s[i]) == k implies with_key(s, key, k).contains(
            s[i],
        ) by {
            if i < rest.len() {
                assert(rest[i] == s[i]);
                assert(w.contains(rest[i]));
                let j = choose|j: int| 0 <= j < w.len() && w[j] == rest[i];
                assert(with_key(s, key, k)[j] == s[i]);
            } else {
                assert(with_key(s, key, k)[w.len() as int] == s[i]);
            }
        }
        assert forall|i: int| 0 <= i < with_key(s, key, k).len() implies key(
            #[trigger] with_key(s, key, k)[i],
        ) == k && s.contains(with_key(s, key, k)[i]) by {
            if i < w.len() {
                assert(with_key(s, key, k)[i] == w[i]);
                let j = choose|j: int| 0 <= j < rest.len() && rest[j] == w[i];
                assert(s[j] == w[i]);
            } else {
                assert(s[s.len() - 1] == with_key(s, key, k)[i]);
            }
        }
    }
}

/// Two ascending sequences that hold the same items in the same order under
/// every key are the same sequence.
pub proof fn lemma_ascending_unique<A>(s: Seq<A>, t: Seq<A>, key: spec_fn(A) -> int)
    requires
        ascending(s, key),
        ascending(t, key),
        forall|k: int| #[trigger] with_key(s, key, k) == with_key(t, key, k),
    ensures
        s == t,
    decreases s.len(),
{
    if s.len() == 0 {
        if t.len() > 0 {
            let k = key(t.last());
            assert(with_key(s, key, k) == with_key(t, key, k));
            assert(false);
        }
        assert(s =~= t);
    } else {
        let x = s.last();
        assert(with_key(s, key, key(x)) == with_key(t, key, key(x)));
        if t.len() == 0 {
            assert(false);
        }
        let y = t.last();
        lemma_with_key_members(s, key, key(y));
        lemma_with_key_members(t, key, key(x));
        assert(with_key(s, key, key(y)) == with_key(t, key, key(y)));
        assert(key(y) <= key(x)) by {
            let w = with_key(s, key, key(y));
            assert(w.len() > 0);
            assert(s.contains(w[0]) && key(w[0]) == key(y));
        }
        assert(key(x) <= key(y)) by {
            let w = with_key(t, key, key(x));
            assert(w.len() > 0);
            assert(t.contains(w[0]) && key(w[0]) == key(x));
        }
        assert(with_key(s, key, key(x)).last() == x);
        assert(with_key(t, key, key(x)).last() == y);
        let s1 = s.drop_last();
        let t1 = t.drop_last();
        assert forall|k: int| #[trigger] with_key(s1, key, k) == with_key(t1, key, k) by {
            assert(with_key(s, key, k) == with_key(t, key, k));
            if k == key(x) {
                assert(with_key(s, key, k).drop_last() =~= with_key(s1, key, k));
                assert(with_key(t, key, k).drop_last() =~= with_key(t1, key, k));
            }
        }
        lemma_ascending_unique(s1, t1, key);
        assert(s =~= s1.push(x));
        assert(t =~= t1.push(y));
    }
}

proof fn lemma_place<A>(s: Seq<A>, a: A, key: spec_fn(A) -> int)
    requires
        ascending(s, key),
    ensures
        ascending(place(s, a, key), key),
        place(s, a, key).len() == s.len() + 1,
        s.len() > 0 ==> key(place(s, a, key).last()) == if key(s.last()) <= key(a) {
            key(a)
        } else {
            key(s.last())
        },
        s.len() == 0 ==> place(s, a, key).last() == a,
        forall|k: int| #[trigger]
            with_key(place(s, a, key), key, k) == with_key(s.push(a), key, k),
    decreases s.len(),
{
    if s.len() == 0 || key(s.last()) <= key(a) {
        let p = s.push(a);
        assert forall|i: int, j: int| 0 <= i <= j < p.len() implies key(#[trigger] p[i]) <= key(
            #[trigger] p[j],
        ) by {
            if j == s.len() && i < s.len() {
                assert(key(s[i]) <= key(s[s.len() - 1]));
            }
        }
    } else {
        let rest = s.drop_last();
        let x = s.last();
        lemma_place(rest, a, key);
        let q = place(rest, a, key);
        let p = q.push(x);
        assert(key(q.last()) <= key(x)) by {
            if rest.len() > 0 {
                assert(key(s[s.len() - 2]) <= key(s[s.len() - 1]));
            }
        }
        assert forall|i: int, j: int| 0 <= i <= j < p.len() implies key(#[trigger] p[i]) <= key(
            #[trigger] p[j],
        ) by {
            if j == q.len() && i < q.len() {
                assert(key(q[i]) <= key(q[q.len() - 1]));
            }
        }
        assert forall|k: int| #[trigger] with_key(p, key, k) == with_key(s.push(a), key, k) by {
            lemma_with_key_push(q, x, key, k);
            assert(with_key(q, key, k) == with_key(rest.push(a), key, k));
            lemma_with_key_push(rest, a, key, k);
            lemma_with_key_push(rest, x, key, k);
            assert(rest.push(x) =~= s);
            lemma_with_key_push(s, a, key, k);
        }
    }
}

/// Sorting gives the items in ascending order, loses none, adds none, and keeps
/// the order of the items that share a key.
pub proof fn lemma_sorted_by_key<A>(s: Seq<A>, key: spec_fn(A) -> int)
    ensures
        ascending(sorted_by_key(s, key), key),
        sorted_by_key(s, key).len() == s.len(),
        forall|k: int| #[trigger]
            with_key(sorted_by_key(s, key), key, k) == with_key(s, key, k),
    decreases s.len(),
{
    if s.len() > 0 {
        let rest = s.drop_last();
        let t = sorted_by_key(rest, key);
        lemma_sorted_by_key(rest, key);
        lemma_place(t, s.last(), key);
        assert forall|k: int| #[trigger]
            with_key(sorted_by_key(s, key), key, k) == with_key(s, key, k) by {
            assert(with_key(place(t, s.last(), key), key, k) == with_key(
                t.push(s.last()),
                key,
                k,
            ));
            lemma_with_key_push(t, s.last(), key, k);
            assert(with_key(t, key, k) == with_key(rest, key, k));
        }
    }
}

proof fn lemma_place_keeps_items<A>(s: Seq<A>, a: A, key: spec_fn(A) -> int)
    ensures
        place(s, a, key).to_multiset() == s.push(a).to_multiset(),
    decreases s.len(),
{
    if !(s.len() == 0 || key(s.last()) <= key(a)) {
        let rest = s.drop_last();
        lemma_place_keeps_items(rest, a, key);
        assert(s =~= rest.push(s.last()));
        to_multiset_build(rest, a);
        to_multiset_build(rest, s.last());
        to_multiset_build(s, a);
        to_multiset_build(place(rest, a, key), s.last());
        assert(rest.to_multiset().insert(a).insert(s.last()) =~= rest.to_multiset().insert(
            s.last(),
        ).insert(a));
    }
}

/// Sorting keeps every item as often as it was there.
pub proof fn law_sorting_keeps_items<A>(s: Seq<A>, key: spec_fn(A) -> int)
    ensures
        sorted_by_key(s, key).to_multiset() == s.to_multiset(),
    decreases s.len(),
{
    if s.len() > 0 {
        let rest = s.drop_last();
        let t = sorted_by_key(rest, key);
        law_sorting_keeps_items(rest, key);
        lemma_place_keeps_items(t, s.last(), key);
        assert(s =~= rest.push(s.last()));
        to_multiset_build(rest, s.last());
        to_multiset_build(t, s.last());
    }
}

/// How many items satisfy a condition, with one of them and without.
proof fn lemma_filter_without<A>(s: Seq<A>, i: int, p: spec_fn(A) -> bool)
    requires
        0 <= i < s.len(),
    ensures
        s.filter(p).len() == s.remove(i).filter(p).len() + if p(s[i]) {
            1nat
        } else {
            0
        },
{
    let one = seq![s[i]];
    Seq::filter_distributes_over_add(s.take(i) + one, s.skip(i + 1), p);
    Seq::filter_distributes_over_add(s.take(i), one, p);
    Seq::filter_distributes_over_add(s.take(i), s.skip(i + 1), p);
    assert(s =~= s.take(i) + one + s.skip(i + 1));
    assert(s.remove(i) =~= s.take(i) + s.skip(i + 1));
    reveal(Seq::filter);
    assert(one.drop_last() =~= Seq::empty());
    assert(Seq::<A>::empty().filter(p).len() == 0);
}

/// How many items satisfy a condition does not depend on their order.
pub proof fn lemma_filter_reordered<A>(s: Seq<A>, t: Seq<A>, p: spec_fn(A) -> bool)
    requires
        s.to_multiset() == t.to_multiset(),
    ensures
        s.filter(p).len() == t.filter(p).len(),
    decreases s.len(),
{
    s.to_multiset_ensures();
    t.to_multiset_ensures();
    if s.len() == 0 {
        assert(s =~= t);
    } else {
        let end = s.len() - 1;
        assert(s.contains(s[end]));
        assert(s.to_multiset().count(s[end]) > 0);
        assert(t.contains(s[end]));
        let i = choose|i: int| 0 <= i < t.len() && t[i] == s[end];
        assert(s.remove(end).to_multiset() == t.remove(i).to_multiset());
        lemma_filter_reordered(s.remove(end), t.remove(i), p);
        lemma_filter_without(s, end, p);
        lemma_filter_without(t, i, p);
    }
}

/// As many items satisfy a condition as come first, if those do, and no more, if
/// no later one does.
pub proof fn lemma_filter_prefix<A>(s: Seq<A>, i: int, p: spec_fn(A) -> bool)
    requires
        0 <= i <= s.len(),
    ensures
        (forall|j: int| 0 <= j < i ==> p(#[trigger] s[j])) ==> s.filter(p).len() >= i,
        (forall|j: int| i <= j < s.len() ==> !p(#[trigger] s[j])) ==> s.filter(p).len() <= i,
    decreases s.len(),
{
    reveal(Seq::filter);
    if s.len() > 0 {
        let rest = s.drop_last();
        lemma_filter_prefix(rest, if i == s.len() { i - 1 } else { i }, p);
        assert(forall|j: int| 0 <= j < rest.len() ==> rest[j] == #[trigger] s[j]);
        if i == s.len() {
            s.lemma_filter_len(p);
        }
    }
}

/// The items of the sorted sequence are those of the given one.
pub proof fn lemma_sorted_members<A>(s: Seq<A>, key: spec_fn(A) -> int)
    ensures
        forall|i: int| 0 <= i < s.len() ==> sorted_by_key(s, key).contains(#[trigger] s[i]),
        forall|i: int|
            0 <= i < s.len() ==> s.contains(#[trigger] sorted_by_key(s, key)[i]),
{
    let t = sorted_by_key(s, key);
    lemma_sorted_by_key(s, key);
    assert forall|i: int| 0 <= i < s.len() implies t.contains(#[trigger] s[i]) by {
        let k = key(s[i]);
        lemma_with_key_members(s, key, k);
        lemma_with_key_members(t, key, k);
        let w = with_key(s, key, k);
        assert(with_key(t, key, k) == w);
        let j = choose|j: int| 0 <= j < w.len() && w[j] == s[i];
        assert(t.contains(with_key(t, key, k)[j]));
    }
    assert forall|i: int| 0 <= i < s.len() implies s.contains(#[trigger] t[i]) by {
        let k = key(t[i]);
        lemma_with_key_members(s, key, k);
        lemma_with_key_members(t, key, k);
        let w = with_key(s, key, k);
        assert(with_key(t, key, k) == w);
        let j = choose|j: int| 0 <= j < w.len() && w[j] == t[i];
        assert(s.contains(with_key(s, key, k)[j]));
    }
}

proof fn lemma_place_map<A, B>(
    s: Seq<A>,
    a: A,
    f: spec_fn(A) -> B,
    key: spec_fn(A) -> int,
    image_key: spec_fn(B) -> int,
)
    requires
        forall|x: A| key(x) == image_key(#[trigger] f(x)),
    ensures
        place(s, a, key).map_values(f) == place(s.map_values(f), f(a), image_key),
    decreases s.len(),
{
    let p = place(s, a, key).map_values(f);
    let q = place(s.map_values(f), f(a), image_key);
    if s.len() == 0 || key(s.last()) <= key(a) {
        assert(p =~= q);
    } else {
        lemma_place_map(s.drop_last(), a, f, key, image_key);
        assert(s.drop_last().map_values(f) =~= s.map_values(f).drop_last());
        assert(p =~= q);
    }
}

/// Sorting commutes with replacing each item by an image that has the same key.
pub proof fn lemma_sorted_map<A, B>(
    s: Seq<A>,
    f: spec_fn(A) -> B,
    key: spec_fn(A) -> int,
    image_key: spec_fn(B) -> int,
)
    requires
        forall|x: A| key(x) == image_key(#[trigger] f(x)),
    ensures
        sorted_by_key(s, key).map_values(f) == sorted_by_key(s.map_values(f), image_key),
    decreases s.len(),
{
    let p = sorted_by_key(s, key).map_values(f);
    let q = sorted_by_key(s.map_values(f), image_key);
    if s.len() == 0 {
        assert(p =~= q);
    } else {
        let rest = s.drop_last();
        lemma_sorted_map(rest, f, key, image_key);
        lemma_place_map(sorted_by_key(rest, key), s.last(), f, key, image_key);
        assert(rest.map_values(f) =~= s.map_values(f).drop_last());
        assert(s.map_values(f).last() == f(s.last()));
    }
}

/// An item may be moved past items with smaller keys.
proof fn lemma_with_key_moved<T>(
    l: Seq<T>,
    r: Seq<T>,
    t: Seq<T>,
    x: T,
    key: spec_fn(T) -> int,
    k: int,
)
    requires
        ascending(r, key),
        r.len() > 0 ==> key(r.last()) < key(x),
    ensures
        with_key(l + r + (seq![x] + t), key, k) == with_key(l.push(x) + r + t, key, k),
{
    lemma_with_key_add(l.push(x) + r, t, key, k);
    lemma_with_key_add(l.push(x), r, key, k);
    lemma_with_key_push(l, x, key, k);
    lemma_with_key_add(l + r, seq![x] + t, key, k);
    lemma_with_key_add(l, r, key, k);
    lemma_with_key_add(seq![x], t, key, k);
    lemma_with_key_push(Seq::<T>::empty(), x, key, k);
    assert(Seq::<T>::empty().push(x) =~= seq![x]);
    if key(x) == k {
        let w = with_key(r, key, k);
        lemma_with_key_members(r, key, k);
        if w.len() > 0 {
            assert(key(w[0]) == k && r.contains(w[0]));
            let j = choose|j: int| 0 <= j < r.len() && r[j] == w[0];
            assert(key(r[j]) <= key(r[r.len() - 1]));
        }
    }
    assert(with_key(l + r + (seq![x] + t), key, k) =~= with_key(l.push(x) + r + t, key, k));
}

/// The two ascending vectors as one; where keys are equal, `left` goes first.
fn merge<T: Keyed>(left: Vec<T>, right: Vec<T>) -> (merged: Vec<T>)
    requires
        ascending(left@, own_key::<T>()),
        ascending(right@, own_key::<T>()),
    ensures
        ascending(merged@, own_key::<T>()),
        forall|k: int| #[trigger]
            with_key(merged@, own_key::<T>(), k) == with_key(left@ + right@, own_key::<T>(), k),
{
    let ghost key = own_key::<T>();
    let ghost all = left@ + right@;
    let mut l = left;
    let mut r = right;
    let mut back: Vec<T> = Vec::new();
    let ghost mut tail = Seq::<T>::empty();
    assert forall|k: int| #[trigger] with_key(l@ + r@ + tail, key, k) == with_key(all, key, k) by {
        assert(l@ + r@ + tail =~= all);
    }
    while l.len() > 0 || r.len() > 0
        invariant
            key == own_key::<T>(),
            ascending(l@, key),
            ascending(r@, key),
            ascending(tail, key),
            tail == back@.reverse(),
            tail.len() > 0 ==> {
                &&& l@.len() > 0 ==> key(l@.last()) <= key(tail.first())
                &&& r@.len() > 0 ==> key(r@.last()) <= key(tail.first())
            },
            forall|k: int| #[trigger]
                with_key(l@ + r@ + tail, key, k) == with_key(all, key, k),
        decreases l.len() + r.len(),
    {
        let ghost l0 = l@;
        let ghost r0 = r@;
        let ghost t0 = tail;
        let from_left: bool = if l.len() == 0 {
            false
        } else if r.len() == 0 {
            true
        } else {
            l[l.len() - 1].key() > r[r.len() - 1].key()
        };
        let x: T = if from_left {
            l.pop().unwrap()
        } else {
            r.pop().unwrap()
        };
        back.push(x);
        proof {
            tail = seq![x] + t0;
            assert(tail =~= back@.reverse());
            assert forall|i: int, j: int| 0 <= i <= j < tail.len() implies key(
                #[trigger] tail[i],
            ) <= key(#[trigger] tail[j]) by {
                if i == 0 && j > 0 {
                    assert(key(t0[0]) <= key(t0[j - 1]));
                } else if i > 0 {
                    assert(key(t0[i - 1]) <= key(t0[j - 1]));
                }
            }
            if from_left {
                assert(l0 =~= l@.push(x));
                if l@.len() > 0 {
                    assert(key(l0[l@.len() - 1]) <= key(l0[l@.len() as int]));
                }
            } else {
                assert(r0 =~= r@.push(x));
                if r@.len() > 0 {
                    assert(key(r0[r@.len() - 1]) <= key(r0[r@.len() as int]));
                }
            }
            assert forall|k: int| #[trigger]
                with_key(l@ + r@ + tail, key, k) == with_key(all, key, k) by {
                assert(with_key(l0 + r0 + t0, key, k) == with_key(all, key, k));
                if from_left {
                    lemma_with_key_moved(l@, r0, t0, x, key, k);
                } else {
                    assert(l@ + r@ + tail =~= l0 + r0 + t0);
                }
            }
        }
    }
    let mut merged: Vec<T> = Vec::new();
    assert forall|k: int| #[trigger] with_key(tail, key, k) == with_key(all, key, k) by {
        assert(l@ + r@ + tail =~= tail);
        assert(with_key(l@ + r@ + tail, key, k) == with_key(all, key, k));
    }
    while back.len() > 0
        invariant
            merged@ + back@.reverse() == tail,
        decreases back.len(),
    {
        let ghost b0 = back@;
        let ghost m0 = merged@;
        merged.push(back.pop().unwrap());
        assert(merged@ + back@.reverse() =~= m0 + b0.reverse());
    }
    assert(merged@ =~= tail);
    merged
}

/// The items in ascending order of their keys; the order of items with equal
/// keys is kept.
pub fn sort_by_key<T: Keyed>(items: Vec<T>) -> (sorted: Vec<T>)
    ensures
        sorted@ == sorted_by_key(items@, own_key::<T>()),
    decreases items@.len(),
{
    let ghost key = own_key::<T>();
    let ghost all = items@;
    let mut left: Vec<T> = items;
    if left.len() < 2 {
        proof {
            lemma_sorted_by_key(all, key);
            lemma_ascending_unique(all, sorted_by_key(all, key), key);
        }
        return left;
    }
    let half: usize = left.len() / 2;
    let right: Vec<T> = left.split_off(half);
    let ghost l0 = left@;
    let ghost r0 = right@;
    assert(l0 + r0 =~= all);
    let l: Vec<T> = sort_by_key(left);
    let r: Vec<T> = sort_by_key(right);
    proof {
        lemma_sorted_by_key(l0, key);
        lemma_sorted_by_key(r0, key);
    }
    let ghost lr = l@ + r@;
    let sorted: Vec<T> = merge(l, r);
    proof {
        lemma_sorted_by_key(all, key);
        assert forall|k: int| #[trigger]
            with_key(sorted@, key, k) == with_key(sorted_by_key(all, key), key, k) by {
            assert(with_key(sorted@, key, k) == with_key(lr, key, k));
            lemma_with_key_add(sorted_by_key(l0, key), sorted_by_key(r0, key), key, k);
            lemma_with_key_add(l0, r0, key, k);
            assert(with_key(sorted_by_key(l0, key), key, k) == with_key(l0, key, k));
            assert(with_key(sorted_by_key(r0, key), key, k) == with_key(r0, key, k));
            assert(with_key(sorted_by_key(all, key), key, k) == with_key(all, key, k));
        }
        lemma_ascending_unique(sorted@, sorted_by_key(all, key), key);
    }
    sorted
}

} // verus!
