//! The numbers 1 to 56 in the order of a score.
use vstd::prelude::*;

verus! {

use vstd::set_lib::{lemma_int_range, lemma_len_subset, lemma_map_size, set_int_range};

/// Whether `a` goes before `b`: the higher score first, ties by lower number.
pub open spec fn ahead(score: Seq<u64>, a: int, b: int) -> bool {
    score[a] > score[b] || (score[a] == score[b] && a < b)
}

/// How many of the numbers 1 to `upto` go before `n`.
pub open spec fn count_ahead(score: Seq<u64>, n: int, upto: nat) -> nat
    decreases upto,
{
    if upto == 0 {
        0
    } else {
        count_ahead(score, n, (upto - 1) as nat) + if ahead(score, upto as int, n) {
            1nat
        } else {
            0
        }
    }
}

/// How many of the numbers 1 to 56 go before `n`.
pub open spec fn place(score: Seq<u64>, n: int) -> nat {
    count_ahead(score, n, 56)
}

/// The numbers of 1 to `upto` that fewer than `k` numbers go before.
pub open spec fn best_upto(score: Seq<u64>, k: nat, upto: nat) -> Seq<u8>
    decreases upto,
{
    if upto == 0 {
        Seq::empty()
    } else {
        let rest = best_upto(score, k, (upto - 1) as nat);
        if place(score, upto as int) < k {
            rest.push(upto as u8)
        } else {
            rest
        }
    }
}

/// The `k` highest-scoring numbers of 1 to 56, the smaller ones first.
pub open spec fn best(score: Seq<u64>, k: nat) -> Seq<u8> {
    best_upto(score, k, 56)
}

proof fn lemma_count_ahead(score: Seq<u64>, a: int, b: int, upto: nat)
    requires
        ahead(score, a, b),
        a >= 1,
    ensures
        count_ahead(score, a, upto) <= count_ahead(score, b, upto),
        upto >= a ==> count_ahead(score, a, upto) < count_ahead(score, b, upto),
        count_ahead(score, b, upto) <= upto,
    decreases upto,
{
    if upto > 0 {
        lemma_count_ahead(score, a, b, (upto - 1) as nat);
    }
}

proof fn lemma_count_ahead_bound(score: Seq<u64>, n: int, upto: nat)
    ensures
        count_ahead(score, n, upto) <= upto,
        1 <= n <= upto ==> count_ahead(score, n, upto) < upto,
    decreases upto,
{
    if upto > 0 {
        lemma_count_ahead_bound(score, n, (upto - 1) as nat);
    }
}

/// The places of the numbers 1 to 56 are 0 to 55, each taken once, and a number
/// has an earlier place than another exactly if it goes before it.
pub proof fn law_places(score: Seq<u64>, a: int, b: int)
    requires
        1 <= a <= 56,
        1 <= b <= 56,
    ensures
        place(score, a) < 56,
        place(score, a) < place(score, b) <==> (score[a] > score[b] || (score[a] == score[b] && a
            < b)),
        place(score, a) == place(score, b) <==> a == b,
{
    lemma_count_ahead_bound(score, a, 56);
    if ahead(score, a, b) {
        lemma_count_ahead(score, a, b, 56);
    } else if a != b {
        lemma_count_ahead(score, b, a, 56);
    }
}

proof fn lemma_best_upto(score: Seq<u64>, k: nat, upto: nat)
    requires
        upto <= 56,
    ensures
        forall|i: int|
            0 <= i < best_upto(score, k, upto).len() ==> 1 <= #[trigger] best_upto(
                score,
                k,
                upto,
            )[i] <= upto && place(score, best_upto(score, k, upto)[i] as int) < k,
        forall|n: u8|
            1 <= n <= upto && place(score, n as int) < k ==> #[trigger] best_upto(
                score,
                k,
                upto,
            ).contains(n),
        forall|i: int, j: int|
            0 <= i < j < best_upto(score, k, upto).len() ==> best_upto(score, k, upto)[i]
                < best_upto(score, k, upto)[j],
    decreases upto,
{
    if upto > 0 {
        let before = (upto - 1) as nat;
        let rest = best_upto(score, k, before);
        let all = best_upto(score, k, upto);
        lemma_best_upto(score, k, before);
        assert forall|n: u8| 1 <= n <= upto && place(score, n as int) < k implies #[trigger]
            all.contains(n) by {
            if n <= before {
                assert(rest.contains(n));
                let i = choose|i: int| 0 <= i < rest.len() && rest[i] == n;
                assert(all[i] == n);
            } else {
                assert(all[rest.len() as int] == n);
            }
        }
    }
}

/// The best `k` numbers are among the best `more` of them.
pub proof fn law_best_are_nested(score: Seq<u64>, k: nat, more: nat)
    requires
        k <= more,
    ensures
        forall|n: u8| #[trigger] best(score, k).contains(n) ==> best(score, more).contains(n),
{
    lemma_best_upto(score, k, 56);
    lemma_best_upto(score, more, 56);
    assert forall|n: u8| #[trigger] best(score, k).contains(n) implies best(
        score,
        more,
    ).contains(n) by {
        let i = choose|i: int| 0 <= i < best(score, k).len() && best(score, k)[i] == n;
        assert(place(score, best_upto(score, k, 56)[i] as int) < k);
        assert(best_upto(score, more, 56).contains(n));
    }
}

/// The best `k` are `k` numbers of 1 to 56 (all 56 where `k` is larger) in
/// ascending order, and each of them goes before each number left out.
pub proof fn law_best(score: Seq<u64>, k: nat)
    ensures
        best(score, k).len() == if k < 56 {
            k
        } else {
            56
        },
        forall|i: int| 0 <= i < best(score, k).len() ==> 1 <= #[trigger] best(score, k)[i] <= 56,
        forall|i: int, j: int|
            0 <= i < j < best(score, k).len() ==> best(score, k)[i] < best(score, k)[j],
        forall|a: u8, b: u8|
            1 <= a <= 56 && 1 <= b <= 56 && #[trigger] best(score, k).contains(a)
                && !#[trigger] best(score, k).contains(b) ==> score[a as int] > score[b as int] || (
            score[a as int] == score[b as int] && a < b),
{
    let out = best(score, k);
    lemma_best_upto(score, k, 56);
    assert forall|a: u8, b: u8|
        1 <= a <= 56 && 1 <= b <= 56 && #[trigger] out.contains(a) && !#[trigger] out.contains(
            b,
        ) implies ahead(score, a as int, b as int) by {
        law_places(score, a as int, b as int);
    }
    let all = set_int_range(1, 57);
    let limit: int = if k < 56 {
        k as int
    } else {
        56
    };
    let f = |n: int| place(score, n) as int;
    let inside = all.filter(|n: int| place(score, n) < k);
    let outside = all.difference(inside);
    lemma_int_range(1, 57);
    lemma_int_range(0, limit);
    lemma_int_range(limit, 56);
    assert forall|a: int, b: int| all.contains(a) && all.contains(b) && #[trigger] f(a)
        == #[trigger] f(b) implies a == b by {
        law_places(score, a, b);
    }
    assert forall|a: int| all.contains(a) implies 0 <= #[trigger] f(a) < 56 by {
        law_places(score, a, a);
    }
    assert(inside.len() <= limit) by {
        let image = inside.map(f);
        lemma_map_size(inside, image, f);
        assert(image.subset_of(set_int_range(0, limit)));
        lemma_len_subset(image, set_int_range(0, limit));
    }
    assert(outside.len() <= 56 - limit) by {
        let image = outside.map(f);
        lemma_map_size(outside, image, f);
        assert(image.subset_of(set_int_range(limit, 56)));
        lemma_len_subset(image, set_int_range(limit, 56));
    }
    vstd::set_lib::lemma_set_disjoint_lens(inside, outside);
    assert(inside.union(outside) =~= all);
    let ints = out.map_values(|n: u8| n as int);
    assert(ints.no_duplicates());
    assert(ints.to_set() =~= inside) by {
        assert forall|n: int| inside.contains(n) implies ints.to_set().contains(n) by {
            assert(out.contains(n as u8));
            let i = choose|i: int| 0 <= i < out.len() && out[i] == n as u8;
            assert(ints[i] == n);
        }
        assert forall|n: int| ints.to_set().contains(n) implies inside.contains(n) by {
            let i = choose|i: int| 0 <= i < ints.len() && ints[i] == n;
            assert(out[i] == n);
        }
    }
    ints.unique_seq_to_set();
}

/// How many of the numbers 1 to 56 go before `n`.
fn place_of(score: &[u64; 57], n: usize) -> (p: usize)
    requires
        1 <= n <= 56,
    ensures
        p == place(score@, n as int),
{
    let mut p: usize = 0;
    let mut x: usize = 0;
    while x < 56
        invariant
            x <= 56,
            1 <= n <= 56,
            p <= x,
            p == count_ahead(score@, n as int, x as nat),
        decreases 56 - x,
    {
        x += 1;
        if score[x] > score[n] || (score[x] == score[n] && x < n) {
            p += 1;
        }
    }
    p
}

/// Rank of each number by score (1 = highest; ties by lower number). Index 0 is
/// unused.
pub fn ranks(score: &[u64; 57]) -> (rank: [u32; 57])
    ensures
        rank@[0] == 0,
        forall|n: int| 1 <= n <= 56 ==> #[trigger] rank@[n] == place(score@, n) + 1,
{
    let mut rank: [u32; 57] = [0;57];
    let mut n: usize = 0;
    while n < 56
        invariant
            n <= 56,
            rank@[0] == 0,
            forall|x: int| 1 <= x <= n ==> #[trigger] rank@[x] == place(score@, x) + 1,
        decreases 56 - n,
    {
        n += 1;
        proof {
            law_places(score@, n as int, n as int);
        }
        rank[n] = place_of(score, n) as u32 + 1;
    }
    rank
}

/// The k highest-scoring numbers (ties: lower number first), sorted.
pub fn top_k(score: &[u64; 57], k: usize) -> (out: Vec<u8>)
    ensures
        out@ == best(score@, k as nat),
{
    let mut out: Vec<u8> = Vec::new();
    let mut n: usize = 0;
    while n < 56
        invariant
            n <= 56,
            out@ == best_upto(score@, k as nat, n as nat),
        decreases 56 - n,
    {
        n += 1;
        if place_of(score, n) < k {
            out.push(n as u8);
        }
    }
    out
}

} // verus!
