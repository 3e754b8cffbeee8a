//! Chance: dice that remember their rolls, and sampling by weight.
use crate::sort::sort_by_key;
use rand::rngs::StdRng;
use rand::RngExt;
use vstd::prelude::*;

verus! {

use crate::sort::{
    ascending,
    law_sorting_keeps_items,
    lemma_sorted_by_key,
    lemma_sorted_members,
    own_key,
    sorted_by_key,
};
use crate::stats::{lemma_total_equal, total};

/// The generator of the `rand` crate, of which nothing is known.
#[verifier::external_type_specification]
#[verifier::external_body]
pub struct ExStdRng(StdRng);

/// `RngExt::random_range` of the `rand` crate on the range `0..span`: some number
/// of that range. That each of them is as likely as the others is not stated.
#[verifier::external_body]
fn random_below(rng: &mut StdRng, span: u128) -> (at: u128)
    requires
        span > 0,
    ensures
        at < span,
{
    rng.random_range(0..span)
}

/// One roll: a number below `span`.
pub struct Roll {
    pub span: u128,
    pub at: u128,
}

/// A random generator and the rolls made with it.
pub struct Dice {
    rng: StdRng,
    past: Ghost<Seq<Roll>>,
}

impl Dice {
    /// The rolls made so far.
    pub closed spec fn rolls(&self) -> Seq<Roll> {
        self.past@
    }

    /// Dice that no roll was made with.
    pub fn new(rng: StdRng) -> (dice: Dice)
        ensures
            dice.rolls() == Seq::<Roll>::empty(),
    {
        Dice { rng, past: Ghost(Seq::empty()) }
    }

    /// Rolls a number below `span`.
    pub fn roll(&mut self, span: u128) -> (at: u128)
        requires
            span > 0,
        ensures
            at < span,
            final(self).rolls() == old(self).rolls().push((Roll { span, at })),
    {
        let at: u128 = random_below(&mut self.rng, span);
        proof {
            self.past@ = self.past@.push(Roll { span, at });
        }
        at
    }
}

/// The rolls of `after` that follow those of `before`.
pub open spec fn new_rolls(before: Seq<Roll>, after: Seq<Roll>) -> Seq<Roll> {
    after.skip(before.len() as int)
}

/// The rolls of `before` are the first of `after`.
pub open spec fn continues(before: Seq<Roll>, after: Seq<Roll>) -> bool {
    before.len() <= after.len() && after.take(before.len() as int) == before
}

/// The numbers 1 to 56.
pub open spec fn all_numbers() -> Seq<u8> {
    Seq::new(56, |i: int| (i + 1) as u8)
}

/// The weight of the numbers of a pool together.
pub open spec fn pool_weight(weights: Seq<u128>, pool: Seq<u8>) -> nat
    decreases pool.len(),
{
    if pool.len() == 0 {
        0
    } else {
        weights[pool[0] as int] as nat + pool_weight(weights, pool.drop_first())
    }
}

/// The position in the pool that `at` falls on, where each number of the pool
/// takes as much room as it has weight.
pub open spec fn position(weights: Seq<u128>, pool: Seq<u8>, at: int) -> int
    decreases pool.len(),
{
    if pool.len() == 0 || at < weights[pool[0] as int] {
        0
    } else {
        1 + position(weights, pool.drop_first(), at - weights[pool[0] as int])
    }
}

/// The numbers that the rolls take out of the pool of all numbers, one after the
/// other, and the pool that is left.
pub open spec fn sampling(weights: Seq<u128>, rolls: Seq<Roll>) -> (Seq<u8>, Seq<u8>)
    decreases rolls.len(),
{
    if rolls.len() == 0 {
        (Seq::empty(), all_numbers())
    } else {
        let (taken, pool) = sampling(weights, rolls.drop_last());
        let i = position(weights, pool, rolls.last().at as int);
        (taken.push(pool[i]), pool.remove(i))
    }
}

/// Each roll spans the weight of the numbers that are left.
pub open spec fn spans_weights(weights: Seq<u128>, rolls: Seq<Roll>) -> bool
    decreases rolls.len(),
{
    rolls.len() > 0 ==> {
        &&& spans_weights(weights, rolls.drop_last())
        &&& rolls.last().at < rolls.last().span
        &&& rolls.last().span == pool_weight(weights, sampling(weights, rolls.drop_last()).1)
    }
}

/// The numbers that the rolls take, the smaller ones first.
pub open spec fn sample(weights: Seq<u128>, rolls: Seq<Roll>) -> Seq<u8> {
    sorted_by_key(sampling(weights, rolls).0, own_key::<u8>())
}

/// How many numbers of the pool have a weight.
pub open spec fn weighty(weights: Seq<u128>, pool: Seq<u8>) -> nat
    decreases pool.len(),
{
    if pool.len() == 0 {
        0
    } else {
        (if weights[pool[0] as int] > 0 {
            1nat
        } else {
            0
        }) + weighty(weights, pool.drop_first())
    }
}

/// A ticket of `k` numbers of 1 to 56: all different, the smaller ones first.
pub open spec fn is_ticket(numbers: Seq<u8>, k: nat) -> bool {
    &&& numbers.len() == k
    &&& forall|i: int| 0 <= i < numbers.len() ==> 1 <= #[trigger] numbers[i] <= 56
    &&& forall|i: int, j: int| 0 <= i < j < numbers.len() ==> numbers[i] < numbers[j]
}

/// A position that a roll falls on is one of the pool, of a number with weight;
/// the pool has that much less weight, and one such number less, without it.
pub proof fn lemma_position(weights: Seq<u128>, pool: Seq<u8>, at: int)
    requires
        0 <= at < pool_weight(weights, pool),
    ensures
        0 <= position(weights, pool, at) < pool.len(),
        weights[pool[position(weights, pool, at)] as int] > 0,
        pool_weight(weights, pool.remove(position(weights, pool, at))) + weights[pool[position(
            weights,
            pool,
            at,
        )] as int] == pool_weight(weights, pool),
        weighty(weights, pool.remove(position(weights, pool, at))) + 1 == weighty(weights, pool),
    decreases pool.len(),
{
    let w = weights[pool[0] as int];
    let rest = pool.drop_first();
    if at < w {
        assert(pool.remove(0) =~= rest);
    } else {
        lemma_position(weights, rest, at - w);
        let i = position(weights, rest, at - w);
        assert(pool.remove(i + 1).drop_first() =~= rest.remove(i));
        assert(pool.remove(i + 1)[0] == pool[0]);
    }
}

/// The rolls that a number of the pool is taken by are as many as its weight: the
/// chance of a number is proportional to its weight where each roll is as likely
/// as the others.
pub proof fn law_room_is_weight(weights: Seq<u128>, pool: Seq<u8>, i: int, at: int)
    requires
        0 <= i < pool.len(),
        0 <= at < pool_weight(weights, pool),
    ensures
        position(weights, pool, at) == i <==> pool_weight(weights, pool.take(i)) <= at
            < pool_weight(weights, pool.take(i)) + weights[pool[i] as int],
    decreases pool.len(),
{
    let w = weights[pool[0] as int];
    let rest = pool.drop_first();
    if i > 0 {
        assert(pool.take(i).drop_first() =~= rest.take(i - 1));
        assert(pool.take(i)[0] == pool[0]);
    }
    if at >= w {
        if i > 0 {
            law_room_is_weight(weights, rest, i - 1, at - w);
        } else {
            lemma_position(weights, rest, at - w);
        }
    }
}

proof fn lemma_weighty(weights: Seq<u128>, pool: Seq<u8>)
    ensures
        weighty(weights, pool) > 0 ==> pool_weight(weights, pool) > 0,
    decreases pool.len(),
{
    if pool.len() > 0 {
        lemma_weighty(weights, pool.drop_first());
    }
}

/// What is taken out of the pool and what is left are the numbers 1 to 56, each
/// once; what is taken has weight.
proof fn lemma_sampling(weights: Seq<u128>, rolls: Seq<Roll>)
    requires
        spans_weights(weights, rolls),
    ensures
        ({
            let (taken, pool) = sampling(weights, rolls);
            &&& taken.len() == rolls.len()
            &&& pool.len() + taken.len() == 56
            &&& forall|i: int| 0 <= i < taken.len() ==> 1 <= #[trigger] taken[i] <= 56
            &&& forall|i: int| 0 <= i < taken.len() ==> weights[#[trigger] taken[i] as int] > 0
            &&& forall|i: int| 0 <= i < pool.len() ==> 1 <= #[trigger] pool[i] <= 56
            &&& taken.no_duplicates()
            &&& pool.no_duplicates()
            &&& forall|i: int, j: int|
                0 <= i < taken.len() && 0 <= j < pool.len() ==> #[trigger] taken[i]
                    != #[trigger] pool[j]
            &&& weighty(weights, pool) + taken.len() == weighty(weights, all_numbers())
            &&& pool_weight(weights, pool) <= pool_weight(weights, all_numbers())
        }),
    decreases rolls.len(),
{
    if rolls.len() > 0 {
        let (before, had) = sampling(weights, rolls.drop_last());
        let (taken, pool) = sampling(weights, rolls);
        lemma_sampling(weights, rolls.drop_last());
        lemma_position(weights, had, rolls.last().at as int);
        let at = position(weights, had, rolls.last().at as int);
        assert forall|i: int| 0 <= i < pool.len() implies 1 <= #[trigger] pool[i] <= 56 by {
            assert(pool[i] == had[if i < at { i } else { i + 1 }]);
        }
        assert forall|i: int, j: int| 0 <= i < taken.len() && 0 <= j < pool.len() implies
            #[trigger] taken[i] != #[trigger] pool[j] by {
            let l = if j < at {
                j
            } else {
                j + 1
            };
            assert(pool[j] == had[l]);
            if i < before.len() {
                assert(taken[i] == before[i]);
                assert(before[i] != had[l]);
            } else {
                assert(taken[i] == had[at]);
            }
        }
        assert(pool.no_duplicates()) by {
            assert forall|i: int, j: int|
                0 <= i < pool.len() && 0 <= j < pool.len() && i != j implies pool[i] != pool[j] by {
                let a = if i < at {
                    i
                } else {
                    i + 1
                };
                let b = if j < at {
                    j
                } else {
                    j + 1
                };
                assert(had[a] == pool[i] && had[b] == pool[j]);
            }
        }
        assert(taken.no_duplicates()) by {
            assert forall|i: int, j: int|
                0 <= i < taken.len() && 0 <= j < taken.len() && i != j implies taken[i]
                != taken[j] by {
                if i < before.len() && j < before.len() {
                    assert(taken[i] == before[i] && taken[j] == before[j]);
                } else if i < before.len() {
                    assert(before[i] != had[at]);
                } else {
                    assert(before[j] != had[at]);
                }
            }
        }
        assert forall|i: int| 0 <= i < taken.len() implies weights[#[trigger] taken[i] as int]
            > 0 by {
            if i < before.len() {
                assert(taken[i] == before[i]);
            }
        }
        assert forall|i: int| 0 <= i < taken.len() implies 1 <= #[trigger] taken[i] <= 56 by {
            if i < before.len() {
                assert(taken[i] == before[i]);
            }
        }
    }
}

/// Different numbers of 1 to 56 in ascending order are a ticket.
pub proof fn lemma_sorted_ticket(numbers: Seq<u8>)
    requires
        numbers.no_duplicates(),
        forall|i: int| 0 <= i < numbers.len() ==> 1 <= #[trigger] numbers[i] <= 56,
    ensures
        is_ticket(sorted_by_key(numbers, own_key::<u8>()), numbers.len()),
{
    let key = own_key::<u8>();
    let sorted = sorted_by_key(numbers, key);
    lemma_sorted_by_key(numbers, key);
    lemma_sorted_members(numbers, key);
    assert forall|i: int| 0 <= i < sorted.len() implies 1 <= #[trigger] sorted[i] <= 56 by {
        assert(numbers.contains(sorted[i]));
    }
    numbers.unique_seq_to_set();
    assert(sorted.to_set() =~= numbers.to_set()) by {
        assert forall|n: u8| numbers.to_set().contains(n) implies sorted.to_set().contains(n) by {
            let i = choose|i: int| 0 <= i < numbers.len() && numbers[i] == n;
            assert(sorted.contains(numbers[i]));
        }
        assert forall|n: u8| sorted.to_set().contains(n) implies numbers.to_set().contains(n) by {
            let i = choose|i: int| 0 <= i < sorted.len() && sorted[i] == n;
            assert(numbers.contains(sorted[i]));
        }
    }
    sorted.lemma_no_dup_set_cardinality();
    assert forall|i: int, j: int| 0 <= i < j < sorted.len() implies sorted[i] < sorted[j] by {
        assert(key(sorted[i]) <= key(sorted[j]));
    }
}

/// Whatever the rolls, a sample is a ticket of as many numbers as there were
/// rolls, each with a weight.
pub proof fn law_sample(weights: Seq<u128>, rolls: Seq<Roll>)
    requires
        spans_weights(weights, rolls),
    ensures
        is_ticket(sample(weights, rolls), rolls.len()),
        forall|i: int|
            0 <= i < rolls.len() ==> weights[#[trigger] sample(weights, rolls)[i] as int] > 0,
{
    let taken = sampling(weights, rolls).0;
    lemma_sampling(weights, rolls);
    lemma_sorted_ticket(taken);
    lemma_sorted_members(taken, own_key::<u8>());
    assert forall|i: int| 0 <= i < rolls.len() implies weights[#[trigger] sample(
        weights,
        rolls,
    )[i] as int] > 0 by {
        assert(taken.contains(sample(weights, rolls)[i]));
    }
}

/// The room that the numbers 1 to `upto` take which are not taken yet, where each
/// takes as much as it has weight.
pub open spec fn room(weights: spec_fn(int) -> int, taken: Seq<u8>, upto: nat) -> int {
    total(
        |n: int|
            if taken.contains(n as u8) {
                0
            } else {
                weights(n)
            },
        upto,
    )
}

/// Whether a roll falls on a number that is not taken yet: it spans the room of all
/// those numbers, and it lies behind the room of those before this one and within
/// its own.
pub open spec fn falls_on(
    weights: spec_fn(int) -> int,
    taken: Seq<u8>,
    roll: Roll,
    n: u8,
) -> bool {
    &&& 1 <= n <= 56
    &&& !taken.contains(n)
    &&& roll.span == room(weights, taken, 56)
    &&& room(weights, taken, (n - 1) as nat) <= roll.at < room(weights, taken, n as nat)
}

proof fn lemma_pool_weight_push(weights: Seq<u128>, pool: Seq<u8>, n: u8)
    ensures
        pool_weight(weights, pool.push(n)) == pool_weight(weights, pool) + weights[n as int],
    decreases pool.len(),
{
    let more = pool.push(n);
    if pool.len() == 0 {
        assert(more.drop_first() =~= pool);
    } else {
        lemma_pool_weight_push(weights, pool.drop_first(), n);
        assert(more.drop_first() =~= pool.drop_first().push(n));
    }
}

/// What is left in the pool is what is not taken, the smaller numbers first.
proof fn lemma_pool_is_rest(weights: Seq<u128>, rolls: Seq<Roll>)
    requires
        spans_weights(weights, rolls),
    ensures
        ({
            let (taken, pool) = sampling(weights, rolls);
            &&& forall|i: int, j: int| 0 <= i < j < pool.len() ==> pool[i] < pool[j]
            &&& forall|n: u8| 1 <= n <= 56 && !taken.contains(n) ==> #[trigger] pool.contains(n)
        }),
    decreases rolls.len(),
{
    let (taken, pool) = sampling(weights, rolls);
    if rolls.len() == 0 {
        assert forall|n: u8| 1 <= n <= 56 implies #[trigger] pool.contains(n) by {
            assert(pool[n - 1] == n);
        }
    } else {
        let (before, had) = sampling(weights, rolls.drop_last());
        let at = position(weights, had, rolls.last().at as int);
        lemma_pool_is_rest(weights, rolls.drop_last());
        lemma_position(weights, had, rolls.last().at as int);
        assert forall|n: u8| 1 <= n <= 56 && !taken.contains(n) implies #[trigger]
            pool.contains(n) by {
            assert(!before.contains(n)) by {
                if before.contains(n) {
                    let j = choose|j: int| 0 <= j < before.len() && before[j] == n;
                    assert(taken[j] == n);
                }
            }
            assert(had.contains(n));
            let j = choose|j: int| 0 <= j < had.len() && had[j] == n;
            assert(taken.last() == had[at]);
            if j < at {
                assert(pool[j] == n);
            } else {
                assert(j != at);
                assert(pool[j - 1] == n);
            }
        }
    }
}

/// The room of the numbers up to `m` is the weight of those in the pool that are
/// not above `m`.
proof fn lemma_room_of_pool(
    weights: Seq<u128>,
    taken: Seq<u8>,
    pool: Seq<u8>,
    c: int,
    m: nat,
)
    requires
        m <= 56,
        0 <= c <= pool.len(),
        forall|i: int, j: int| 0 <= i < j < pool.len() ==> pool[i] < pool[j],
        forall|i: int|
            0 <= i < pool.len() ==> 1 <= #[trigger] pool[i] <= 56 && !taken.contains(pool[i]),
        forall|n: u8| 1 <= n <= 56 && !taken.contains(n) ==> #[trigger] pool.contains(n),
        forall|i: int| 0 <= i < c ==> #[trigger] pool[i] <= m,
        forall|i: int| c <= i < pool.len() ==> #[trigger] pool[i] > m,
    ensures
        room(|n: int| weights[n] as int, taken, m) == pool_weight(weights, pool.take(c)),
    decreases m,
{
    if m == 0 {
        if c > 0 {
            assert(pool[0] <= 0);
        }
        assert(pool.take(c) =~= Seq::empty());
    } else {
        let n = m as u8;
        if taken.contains(n) {
            assert forall|i: int| 0 <= i < c implies #[trigger] pool[i] <= m - 1 by {
                assert(!taken.contains(pool[i]));
            }
            lemma_room_of_pool(weights, taken, pool, c, (m - 1) as nat);
        } else {
            assert(pool.contains(n));
            let j = choose|j: int| 0 <= j < pool.len() && pool[j] == n;
            assert(j < c);
            if j < c - 1 {
                assert(pool[j] < pool[c - 1]);
            }
            assert(j == c - 1);
            assert forall|i: int| 0 <= i < c - 1 implies #[trigger] pool[i] <= m - 1 by {
                assert(pool[i] < pool[c - 1]);
            }
            assert forall|i: int| c - 1 <= i < pool.len() implies #[trigger] pool[i] > m - 1 by {
            }
            lemma_room_of_pool(weights, taken, pool, c - 1, (m - 1) as nat);
            lemma_pool_weight_push(weights, pool.take(c - 1), n);
            assert(pool.take(c) =~= pool.take(c - 1).push(n));
        }
    }
}

/// A sample holds, for each roll, the number that the roll falls on among those
/// that the rolls before it have left: numbers are taken without replacement, each
/// by as many rolls as it has weight.
pub proof fn law_sample_follows_weights(weights: Seq<u128>, rolls: Seq<Roll>) -> (order: Seq<u8>)
    requires
        spans_weights(weights, rolls),
    ensures
        order.len() == rolls.len(),
        order.to_multiset() == sample(weights, rolls).to_multiset(),
        forall|i: int|
            0 <= i < rolls.len() ==> falls_on(
                |n: int| weights[n] as int,
                order.take(i),
                #[trigger] rolls[i],
                order[i],
            ),
{
    let order = sampling(weights, rolls).0;
    lemma_order_follows_weights(weights, rolls);
    law_sorting_keeps_items(order, own_key::<u8>());
    order
}

proof fn lemma_order_follows_weights(weights: Seq<u128>, rolls: Seq<Roll>)
    requires
        spans_weights(weights, rolls),
    ensures
        ({
            let order = sampling(weights, rolls).0;
            &&& order.len() == rolls.len()
            &&& forall|i: int|
                0 <= i < rolls.len() ==> falls_on(
                    |n: int| weights[n] as int,
                    order.take(i),
                    #[trigger] rolls[i],
                    order[i],
                )
        }),
    decreases rolls.len(),
{
    let order = sampling(weights, rolls).0;
    if rolls.len() > 0 {
        let earlier = rolls.drop_last();
        let (before, had) = sampling(weights, earlier);
        let at = rolls.last().at as int;
        let i = position(weights, had, at);
        let n = had[i];
        lemma_order_follows_weights(weights, earlier);
        lemma_sampling(weights, earlier);
        lemma_pool_is_rest(weights, earlier);
        lemma_position(weights, had, at);
        law_room_is_weight(weights, had, i, at);
        assert forall|j: int| 0 <= j < had.len() implies 1 <= #[trigger] had[j] <= 56
            && !before.contains(had[j]) by {
            if before.contains(had[j]) {
                let x = choose|x: int| 0 <= x < before.len() && before[x] == had[j];
                assert(before[x] != had[j]);
            }
        }
        assert forall|j: int| 0 <= j < i implies #[trigger] had[j] <= n - 1 by {
            assert(had[j] < had[i]);
        }
        assert forall|j: int| i + 1 <= j < had.len() implies #[trigger] had[j] > n by {
            assert(had[i] < had[j]);
        }
        assert forall|j: int| i <= j < had.len() implies #[trigger] had[j] > n - 1 by {
            if j > i {
                assert(had[i] < had[j]);
            }
        }
        lemma_room_of_pool(weights, before, had, i, (n - 1) as nat);
        lemma_room_of_pool(weights, before, had, i + 1, n as nat);
        lemma_room_of_pool(weights, before, had, had.len() as int, 56);
        lemma_pool_weight_push(weights, had.take(i), n);
        assert(had.take(i + 1) =~= had.take(i).push(n));
        assert(had.take(had.len() as int) =~= had);
        assert(order.take(rolls.len() - 1) =~= before);
        assert forall|j: int| 0 <= j < rolls.len() implies falls_on(
            |n: int| weights[n] as int,
            order.take(j),
            #[trigger] rolls[j],
            order[j],
        ) by {
            if j < rolls.len() - 1 {
                assert(earlier[j] == rolls[j]);
                assert(order.take(j) =~= before.take(j));
                assert(order[j] == before[j]);
            }
        }
    }
}

/// A roll that falls on a number does so for all weights that are the same.
pub proof fn lemma_falls_on_equal(
    weights: spec_fn(int) -> int,
    others: spec_fn(int) -> int,
    taken: Seq<u8>,
    roll: Roll,
    n: u8,
)
    requires
        forall|x: int| 1 <= x <= 56 ==> #[trigger] weights(x) == others(x),
        falls_on(weights, taken, roll, n),
    ensures
        falls_on(others, taken, roll, n),
{
    let f = |x: int|
        if taken.contains(x as u8) {
            0
        } else {
            weights(x)
        };
    let g = |x: int|
        if taken.contains(x as u8) {
            0
        } else {
            others(x)
        };
    lemma_total_equal(f, g, 56);
    lemma_total_equal(f, g, n as nat);
    lemma_total_equal(f, g, (n - 1) as nat);
}

/// Where the numbers that are taken have no weight, a position in the pool of all
/// numbers is that of the number that the roll falls on.
pub proof fn lemma_position_falls_on(
    table: Seq<u128>,
    weights: spec_fn(int) -> int,
    taken: Seq<u8>,
    roll: Roll,
)
    requires
        roll.at < roll.span,
        roll.span == pool_weight(table, all_numbers()),
        forall|n: int|
            1 <= n <= 56 ==> #[trigger] table[n] == if taken.contains(n as u8) {
                0
            } else {
                weights(n)
            },
    ensures
        falls_on(
            weights,
            taken,
            roll,
            all_numbers()[position(table, all_numbers(), roll.at as int)],
        ),
{
    let pool = all_numbers();
    let at = roll.at as int;
    let i = position(table, pool, at);
    let none = Seq::<u8>::empty();
    lemma_position(table, pool, at);
    law_room_is_weight(table, pool, i, at);
    let n = pool[i];
    assert(n == i + 1);
    assert forall|x: u8| 1 <= x <= 56 implies #[trigger] pool.contains(x) by {
        assert(pool[x - 1] == x);
    }
    lemma_room_of_pool(table, none, pool, i, (n - 1) as nat);
    lemma_room_of_pool(table, none, pool, i + 1, n as nat);
    lemma_room_of_pool(table, none, pool, 56, 56);
    lemma_pool_weight_push(table, pool.take(i), n);
    assert(pool.take(i + 1) =~= pool.take(i).push(n));
    assert(pool.take(56) =~= pool);
    let all = |x: int| table[x] as int;
    let f = |x: int|
        if none.contains(x as u8) {
            0
        } else {
            all(x)
        };
    let g = |x: int|
        if taken.contains(x as u8) {
            0
        } else {
            weights(x)
        };
    lemma_total_equal(f, g, 56);
    lemma_total_equal(f, g, n as nat);
    lemma_total_equal(f, g, (n - 1) as nat);
    assert(table[n as int] > 0);
}

/// The weight of the numbers of a pool together.
fn weigh(weights: &[u128; 57], pool: &Vec<u8>) -> (total: u128)
    requires
        forall|i: int| 0 <= i < pool@.len() ==> #[trigger] pool@[i] <= 56,
        pool_weight(weights@, pool@) <= u128::MAX,
    ensures
        total == pool_weight(weights@, pool@),
{
    let mut total: u128 = 0;
    let mut i: usize = 0;
    assert(pool@.skip(0) =~= pool@);
    while i < pool.len()
        invariant
            i <= pool@.len(),
            forall|i: int| 0 <= i < pool@.len() ==> #[trigger] pool@[i] <= 56,
            pool_weight(weights@, pool@) <= u128::MAX,
            total + pool_weight(weights@, pool@.skip(i as int)) == pool_weight(weights@, pool@),
        decreases pool@.len() - i,
    {
        assert(pool@.skip(i as int).drop_first() =~= pool@.skip(i + 1));
        total = total + weights[pool[i] as usize];
        i += 1;
    }
    total
}

/// The position in the pool that `at` falls on.
pub fn pick(weights: &[u128; 57], pool: &Vec<u8>, at: u128) -> (i: usize)
    requires
        forall|i: int| 0 <= i < pool@.len() ==> #[trigger] pool@[i] <= 56,
        at < pool_weight(weights@, pool@),
    ensures
        i < pool@.len(),
        i == position(weights@, pool@, at as int),
{
    let mut left: u128 = at;
    let mut i: usize = 0;
    let len: usize = pool.len();
    assert(pool@.skip(0) =~= pool@);
    loop
        invariant
            i <= pool@.len() == len,
            forall|i: int| 0 <= i < pool@.len() ==> #[trigger] pool@[i] <= 56,
            left < pool_weight(weights@, pool@.skip(i as int)),
            i + position(weights@, pool@.skip(i as int), left as int) == position(
                weights@,
                pool@,
                at as int,
            ),
        decreases pool@.len() - i,
    {
        let w: u128 = weights[pool[i] as usize];
        if left < w {
            return i;
        }
        assert(pool@.skip(i as int).drop_first() =~= pool@.skip(i + 1));
        left = left - w;
        i += 1;
    }
}

/// The pool of all numbers.
pub fn full_pool() -> (pool: Vec<u8>)
    ensures
        pool@ == all_numbers(),
{
    let mut pool: Vec<u8> = Vec::new();
    let mut n: u8 = 0;
    while n < 56
        invariant
            n <= 56,
            pool@ == all_numbers().take(n as int),
        decreases 56 - n,
    {
        n += 1;
        pool.push(n);
        assert(pool@ =~= all_numbers().take(n as int));
    }
    assert(all_numbers().take(56) =~= all_numbers());
    pool
}

/// k distinct numbers, probability proportional to weights[n] (index = number).
/// The numbers are taken out of the pool of all numbers one by one, by a roll
/// that spans the weight of the pool.
pub fn weighted_sample(weights: &[u128; 57], k: usize, dice: &mut Dice) -> (out: Vec<u8>)
    requires
        k <= weighty(weights@, all_numbers()),
        pool_weight(weights@, all_numbers()) <= u128::MAX,
    ensures
        continues(old(dice).rolls(), final(dice).rolls()),
        new_rolls(old(dice).rolls(), final(dice).rolls()).len() == k,
        spans_weights(weights@, new_rolls(old(dice).rolls(), final(dice).rolls())),
        out@ == sample(weights@, new_rolls(old(dice).rolls(), final(dice).rolls())),
{
    let ghost before = dice.rolls();
    let mut pool: Vec<u8> = full_pool();
    let mut out: Vec<u8> = Vec::new();
    let mut taken: usize = 0;
    assert(new_rolls(before, dice.rolls()) =~= Seq::empty());
    assert(dice.rolls().take(before.len() as int) =~= before);
    while taken < k
        invariant
            taken <= k <= weighty(weights@, all_numbers()),
            pool_weight(weights@, all_numbers()) <= u128::MAX,
            continues(before, dice.rolls()),
            new_rolls(before, dice.rolls()).len() == taken,
            spans_weights(weights@, new_rolls(before, dice.rolls())),
            (out@, pool@) == sampling(weights@, new_rolls(before, dice.rolls())),
        decreases k - taken,
    {
        let ghost rolls = new_rolls(before, dice.rolls());
        let ghost earlier = dice.rolls();
        proof {
            lemma_sampling(weights@, rolls);
            lemma_weighty(weights@, pool@);
        }
        let span: u128 = weigh(weights, &pool);
        let at: u128 = dice.roll(span);
        let i: usize = pick(weights, &pool, at);
        out.push(pool[i]);
        pool.remove(i);
        taken += 1;
        proof {
            let now = new_rolls(before, dice.rolls());
            assert(now =~= rolls.push(Roll { span, at }));
            assert(now.drop_last() =~= rolls);
            assert(dice.rolls().take(before.len() as int) =~= earlier.take(before.len() as int));
        }
    }
    sort_by_key(out)
}

} // verus!
