//! The eight ticket-generation strategies.
use crate::chance::{weighted_sample, Dice};
use crate::ranking::top_k;
use crate::sort::sort_by_key;
use crate::stats::{widen, Stats};
use crate::text::same_text;
use vstd::prelude::*;

verus! {

use crate::chance::{
    all_numbers,
    continues,
    falls_on,
    is_ticket,
    law_sample,
    law_sample_follows_weights,
    lemma_falls_on_equal,
    lemma_position_falls_on,
    lemma_sorted_ticket,
    new_rolls,
    pool_weight,
    position,
    sample,
    sampling,
    spans_weights,
    weighty,
    Roll,
};
use crate::ranking::{best, law_best, law_best_are_nested};
use crate::draw::Draw;
use crate::sort::{law_sorting_keeps_items, own_key, sorted_by_key};
use crate::stats::{
    balanced_weight_of,
    frequency,
    popularity_of,
    sum,
    together,
    widened,
    STERN_SCALE,
};

/// A way to make tickets.
#[derive(Clone, Copy, Debug, PartialEq, Eq, Structural)]
pub enum Strategy {
    Hot,
    Cold,
    Weighted,
    Recent,
    Bayes,
    Balanced,
    SternCover,
    Markov,
}

/// Strategies that use no randomness: same result until new draws arrive.
pub const DETERMINISTIC: [&'static str; 2] = ["hot", "cold"];

pub const STRATEGIES: [&'static str; 8] = [
    "hot",
    "cold",
    "weighted",
    "recent",
    "bayes",
    "balanced",
    "sterncover",
    "markov",
];

/// The strategy that an id names.
pub open spec fn strategy_of(id: Seq<char>) -> Option<Strategy> {
    if id == "hot"@ {
        Some(Strategy::Hot)
    } else if id == "cold"@ {
        Some(Strategy::Cold)
    } else if id == "weighted"@ {
        Some(Strategy::Weighted)
    } else if id == "recent"@ {
        Some(Strategy::Recent)
    } else if id == "bayes"@ {
        Some(Strategy::Bayes)
    } else if id == "balanced"@ {
        Some(Strategy::Balanced)
    } else if id == "sterncover"@ {
        Some(Strategy::SternCover)
    } else if id == "markov"@ {
        Some(Strategy::Markov)
    } else {
        None
    }
}

/// The strategy that an id names.
pub fn find_strategy(id: &str) -> (s: Option<Strategy>)
    ensures
        s == strategy_of(id@),
{
    if same_text(id, "hot") {
        Some(Strategy::Hot)
    } else if same_text(id, "cold") {
        Some(Strategy::Cold)
    } else if same_text(id, "weighted") {
        Some(Strategy::Weighted)
    } else if same_text(id, "recent") {
        Some(Strategy::Recent)
    } else if same_text(id, "bayes") {
        Some(Strategy::Bayes)
    } else if same_text(id, "balanced") {
        Some(Strategy::Balanced)
    } else if same_text(id, "sterncover") {
        Some(Strategy::SternCover)
    } else if same_text(id, "markov") {
        Some(Strategy::Markov)
    } else {
        None
    }
}

/// How many of the numbers are even.
pub open spec fn evens(numbers: Seq<u8>) -> nat
    decreases numbers.len(),
{
    if numbers.len() == 0 {
        0
    } else {
        evens(numbers.drop_last()) + if numbers.last() % 2 == 0 {
            1nat
        } else {
            0
        }
    }
}

/// How many of the numbers are not above `limit`.
pub open spec fn not_above(numbers: Seq<u8>, limit: int) -> nat
    decreases numbers.len(),
{
    if numbers.len() == 0 {
        0
    } else {
        not_above(numbers.drop_last(), limit) + if numbers.last() <= limit {
            1nat
        } else {
            0
        }
    }
}

/// Whether a number is followed by the next one.
pub open spec fn has_consecutive(numbers: Seq<u8>) -> bool {
    exists|i: int| 0 <= i < numbers.len() - 1 && #[trigger] numbers[i] + 1 == numbers[i + 1]
}

/// What a ticket must look like to be kept.
pub enum Shape {
    /// The sum from `lo` to `hi`, and from `least` to `most` numbers that are
    /// even, and as many that are at most 28.
    Balanced { lo: u32, hi: u32, least: usize, most: usize },
    /// At least `high` numbers from 32 on, and no two consecutive ones.
    Unpopular { high: usize },
}

impl Shape {
    /// Whether a ticket has the shape.
    pub open spec fn fits(self, numbers: Seq<u8>) -> bool {
        match self {
            Shape::Balanced { lo, hi, least, most } => {
                &&& lo <= sum(numbers) <= hi
                &&& least <= evens(numbers) <= most
                &&& least <= not_above(numbers, 28) <= most
            },
            Shape::Unpopular { high } => {
                &&& numbers.len() - not_above(numbers, 31) >= high
                &&& !has_consecutive(numbers)
            },
        }
    }

    /// Whether a ticket has the shape.
    pub fn accepts(&self, numbers: &Vec<u8>) -> (b: bool)
        requires
            numbers@.len() <= 56,
        ensures
            b == self.fits(numbers@),
    {
        let mut total: u32 = 0;
        let mut even: usize = 0;
        let mut low: usize = 0;
        let mut born: usize = 0;
        let mut pair: bool = false;
        let mut i: usize = 0;
        while i < numbers.len()
            invariant
                i <= numbers@.len() <= 56,
                total <= 255 * i,
                even <= i,
                low <= i,
                born <= i,
                total == sum(numbers@.take(i as int)),
                even == evens(numbers@.take(i as int)),
                low == not_above(numbers@.take(i as int), 28),
                born == not_above(numbers@.take(i as int), 31),
                pair == exists|j: int|
                    0 <= j < i - 1 && #[trigger] numbers@[j] + 1 == numbers@[j + 1],
            decreases numbers@.len() - i,
        {
            let n: u8 = numbers[i];
            assert(numbers@.take(i + 1).drop_last() =~= numbers@.take(i as int));
            total = total + n as u32;
            if n % 2 == 0 {
                even += 1;
            }
            if n <= 28 {
                low += 1;
            }
            if n <= 31 {
                born += 1;
            }
            if i > 0 && numbers[i - 1] as u32 + 1 == n as u32 {
                pair = true;
                assert(numbers@[i - 1] + 1 == numbers@[i - 1 + 1]);
            }
            i += 1;
        }
        assert(numbers@.take(i as int) =~= numbers@);
        match self {
            Shape::Balanced { lo, hi, least, most } => *lo <= total && total <= *hi && *least <= even
                && even <= *most && *least <= low && low <= *most,
            Shape::Unpopular { high } => numbers.len() - born >= *high && !pair,
        }
    }
}

/// A sum of six numbers scaled to `k` numbers, rounded to the nearest (halves
/// up), at most `u32::MAX`.
pub open spec fn scaled(six: u32, k: nat) -> int {
    let nearest = (six * k + 3) / 6;
    if nearest <= u32::MAX {
        nearest
    } else {
        u32::MAX as int
    }
}

fn scale(six: u32, k: usize) -> (s: u32)
    requires
        k <= 56,
    ensures
        s == scaled(six, k as nat),
{
    assert(six * k <= u32::MAX * 56) by (nonlinear_arith)
        requires
            k <= 56,
            six <= u32::MAX,
    ;
    let nearest: u64 = (six as u64 * k as u64 + 3) / 6;
    if nearest <= u32::MAX as u64 {
        nearest as u32
    } else {
        u32::MAX
    }
}

/// The shape of a balanced ticket: a sum between the percentiles, and a third to
/// two thirds of the numbers even, and as many low.
pub open spec fn balanced_shape(st: Stats, k: nat) -> Shape {
    Shape::Balanced {
        lo: scaled(st.sum_lo, k) as u32,
        hi: scaled(st.sum_hi, k) as u32,
        least: (k / 3) as usize,
        most: ((2 * k + 2) / 3) as usize,
    }
}

/// The shape of a ticket that few play: two thirds of the numbers no birthdays,
/// and none consecutive.
pub open spec fn unpopular_shape(k: nat) -> Shape {
    Shape::Unpopular { high: ((2 * k + 2) / 3) as usize }
}

/// Weights for the numbers 1 to 56 (index = number).
pub open spec fn weights_from(f: spec_fn(int) -> int) -> Seq<u128> {
    Seq::new(
        57,
        |n: int|
            if n == 0 {
                0
            } else {
                f(n) as u128
            },
    )
}

/// One more than the counts.
pub open spec fn count_weights(counts: Seq<u32>) -> Seq<u128> {
    weights_from(|n: int| counts[n] + 1)
}

pub open spec fn balanced_weights(st: Stats) -> Seq<u128> {
    weights_from(|n: int| balanced_weight_of(st, n))
}

/// The inverse squares of the popularities.
pub open spec fn stern_weights() -> Seq<u128> {
    weights_from(|n: int| STERN_SCALE as int / (popularity_of(n) * popularity_of(n)))
}

/// How often `n` was drawn together with the numbers of a ticket.
pub open spec fn company(st: Stats, numbers: Seq<u8>, n: int) -> int
    decreases numbers.len(),
{
    if numbers.len() == 0 {
        0
    } else {
        company(st, numbers.drop_last(), n) + st.cooc.at(numbers.last() as int, n)
    }
}

/// The weights of the next number of a Markov ticket: its frequency and one for
/// the first; then nothing for those on the ticket, and for each other one more
/// than its company there.
pub open spec fn markov_weights(st: Stats, numbers: Seq<u8>) -> Seq<u128> {
    if numbers.len() == 0 {
        count_weights(st.freq@)
    } else {
        weights_from(
            |n: int|
                if numbers.contains(n as u8) {
                    0
                } else {
                    1 + company(st, numbers, n)
                },
        )
    }
}

/// The numbers of a Markov ticket in the order the rolls give them.
pub open spec fn markov_walk(st: Stats, rolls: Seq<Roll>) -> Seq<u8>
    decreases rolls.len(),
{
    if rolls.len() == 0 {
        Seq::empty()
    } else {
        let numbers = markov_walk(st, rolls.drop_last());
        numbers.push(
            all_numbers()[position(
                markov_weights(st, numbers),
                all_numbers(),
                rolls.last().at as int,
            )],
        )
    }
}

/// Each roll of a Markov ticket spans the weights of its number.
pub open spec fn spans_walk(st: Stats, rolls: Seq<Roll>) -> bool
    decreases rolls.len(),
{
    rolls.len() > 0 ==> {
        let numbers = markov_walk(st, rolls.drop_last());
        &&& spans_walk(st, rolls.drop_last())
        &&& rolls.last().at < rolls.last().span
        &&& rolls.last().span == pool_weight(markov_weights(st, numbers), all_numbers())
    }
}

/// How often a ticket is sampled in search of its shape.
pub const TRIES: u32 = 8000;

/// The first sample that has the shape; where `tries` samples do not have it,
/// the next one as it is. Each sample takes `k` rolls.
pub open spec fn searched(
    weights: Seq<u128>,
    k: nat,
    shape: Shape,
    rolls: Seq<Roll>,
    tries: nat,
) -> Seq<u8>
    decreases tries,
{
    let first = sample(weights, rolls.take(k as int));
    if tries == 0 || shape.fits(first) {
        first
    } else {
        searched(weights, k, shape, rolls.skip(k as int), (tries - 1) as nat)
    }
}

/// The rolls are those of such a search.
pub open spec fn spans_search(
    weights: Seq<u128>,
    k: nat,
    shape: Shape,
    rolls: Seq<Roll>,
    tries: nat,
) -> bool
    decreases tries,
{
    &&& rolls.len() >= k
    &&& spans_weights(weights, rolls.take(k as int))
    &&& if tries == 0 || shape.fits(sample(weights, rolls.take(k as int))) {
        rolls.len() == k
    } else {
        spans_search(weights, k, shape, rolls.skip(k as int), (tries - 1) as nat)
    }
}

/// The ticket of a strategy: `posterior` is one draw per number from the
/// posterior of its frequency (the bayes strategy alone reads it), `rolls` the
/// rolls that are made.
pub open spec fn ticket(
    st: Stats,
    strategy: Strategy,
    k: nat,
    posterior: Seq<u64>,
    rolls: Seq<Roll>,
) -> Seq<u8> {
    match strategy {
        Strategy::Hot => best(widened(st.freq@), k),
        Strategy::Cold => best(widened(st.gap@), k),
        Strategy::Bayes => best(posterior, k),
        Strategy::Weighted => sample(count_weights(st.freq@), rolls),
        Strategy::Recent => sample(count_weights(st.recent@), rolls),
        Strategy::Balanced => searched(
            balanced_weights(st),
            k,
            balanced_shape(st, k),
            rolls,
            TRIES as nat,
        ),
        Strategy::SternCover => searched(
            stern_weights(),
            k,
            unpopular_shape(k),
            rolls,
            TRIES as nat,
        ),
        Strategy::Markov => sorted_by_key(markov_walk(st, rolls), own_key::<u8>()),
    }
}

/// The rolls that a strategy makes for a ticket: how many, and what they span.
pub open spec fn rolls_for(st: Stats, strategy: Strategy, k: nat, rolls: Seq<Roll>) -> bool {
    match strategy {
        Strategy::Hot | Strategy::Cold | Strategy::Bayes => rolls.len() == 0,
        Strategy::Weighted => rolls.len() == k && spans_weights(count_weights(st.freq@), rolls),
        Strategy::Recent => rolls.len() == k && spans_weights(count_weights(st.recent@), rolls),
        Strategy::Balanced => spans_search(
            balanced_weights(st),
            k,
            balanced_shape(st, k),
            rolls,
            TRIES as nat,
        ),
        Strategy::SternCover => spans_search(
            stern_weights(),
            k,
            unpopular_shape(k),
            rolls,
            TRIES as nat,
        ),
        Strategy::Markov => rolls.len() == k && spans_walk(st, rolls),
    }
}

proof fn lemma_pool_bounds(weights: Seq<u128>, pool: Seq<u8>, bound: nat)
    requires
        forall|i: int| 0 <= i < pool.len() ==> weights[#[trigger] pool[i] as int] <= bound,
    ensures
        pool_weight(weights, pool) <= bound * pool.len(),
        (forall|i: int| 0 <= i < pool.len() ==> weights[#[trigger] pool[i] as int] > 0) ==> weighty(
            weights,
            pool,
        ) == pool.len(),
        (exists|i: int| 0 <= i < pool.len() && weights[#[trigger] pool[i] as int] > 0) ==> weighty(
            weights,
            pool,
        ) > 0,
    decreases pool.len(),
{
    if pool.len() > 0 {
        let rest = pool.drop_first();
        assert forall|i: int| 0 <= i < rest.len() implies weights[#[trigger] rest[i] as int]
            <= bound by {
            assert(rest[i] == pool[i + 1]);
        }
        lemma_pool_bounds(weights, rest, bound);
        assert(weights[pool[0] as int] <= bound);
        assert(bound + bound * rest.len() == bound * pool.len()) by (nonlinear_arith)
            requires
                pool.len() == rest.len() + 1,
        ;
        if forall|i: int| 0 <= i < pool.len() ==> weights[#[trigger] pool[i] as int] > 0 {
            assert(weights[pool[0] as int] > 0);
            assert forall|i: int| 0 <= i < rest.len() implies weights[#[trigger] rest[i] as int]
                > 0 by {
                assert(rest[i] == pool[i + 1]);
            }
        }
        if exists|i: int| 0 <= i < pool.len() && weights[#[trigger] pool[i] as int] > 0 {
            let i = choose|i: int| 0 <= i < pool.len() && weights[#[trigger] pool[i] as int] > 0;
            if i > 0 {
                assert(rest[i - 1] == pool[i]);
            }
        }
    }
}

/// Weights of which none is zero and none is too large can be sampled from.
proof fn lemma_sound_weights(weights: Seq<u128>)
    requires
        forall|n: int| 1 <= n <= 56 ==> 0 < #[trigger] weights[n] <= 0x2_0000_0000_0000_0000,
    ensures
        weighty(weights, all_numbers()) == 56,
        pool_weight(weights, all_numbers()) <= u128::MAX,
{
    let pool = all_numbers();
    assert forall|i: int| 0 <= i < pool.len() implies 0 < weights[#[trigger] pool[i] as int]
        <= 0x2_0000_0000_0000_0000 by {
        assert(pool[i] == i + 1);
    }
    lemma_pool_bounds(weights, pool, 0x2_0000_0000_0000_0000);
}

fn weigh_counts(counts: &[u32; 57]) -> (weights: [u128; 57])
    ensures
        weights@ == count_weights(counts@),
        weighty(weights@, all_numbers()) == 56,
        pool_weight(weights@, all_numbers()) <= u128::MAX,
{
    let mut weights: [u128; 57] = [0;57];
    let mut n: usize = 1;
    while n < 57
        invariant
            1 <= n <= 57,
            weights@[0] == 0,
            forall|x: int| 1 <= x < n ==> #[trigger] weights@[x] == counts@[x] + 1,
        decreases 57 - n,
    {
        weights[n] = counts[n] as u128 + 1;
        n += 1;
    }
    assert(weights@ =~= count_weights(counts@));
    proof {
        lemma_sound_weights(weights@);
    }
    weights
}

proof fn lemma_balanced_weight(st: Stats, n: int)
    requires
        0 <= n < 57,
    ensures
        0 < balanced_weight_of(st, n) <= 0x2_0000_0000_0000_0000,
{
    let count = st.freq@[n] + 1;
    let waited = (if st.max_gap == 0 {
        1
    } else {
        st.max_gap as int
    }) + st.gap@[n];
    assert(0 < count * waited <= 0x2_0000_0000_0000_0000) by (nonlinear_arith)
        requires
            1 <= count <= 0x1_0000_0000,
            1 <= waited <= 0x2_0000_0000,
    ;
}

fn weigh_balanced(st: &Stats) -> (weights: [u128; 57])
    ensures
        weights@ == balanced_weights(*st),
        weighty(weights@, all_numbers()) == 56,
        pool_weight(weights@, all_numbers()) <= u128::MAX,
{
    let mut weights: [u128; 57] = [0;57];
    let mut n: u8 = 1;
    while n < 57
        invariant
            1 <= n <= 57,
            weights@[0] == 0,
            forall|x: int| 1 <= x < n ==> #[trigger] weights@[x] == balanced_weight_of(*st, x),
        decreases 57 - n,
    {
        weights[n as usize] = st.balanced_weight(n);
        n += 1;
    }
    assert(weights@ =~= balanced_weights(*st));
    proof {
        assert forall|n: int| 1 <= n <= 56 implies 0 < #[trigger] weights@[n]
            <= 0x2_0000_0000_0000_0000 by {
            lemma_balanced_weight(*st, n);
        }
        lemma_sound_weights(weights@);
    }
    weights
}

fn weigh_stern() -> (weights: [u128; 57])
    ensures
        weights@ == stern_weights(),
        weighty(weights@, all_numbers()) == 56,
        pool_weight(weights@, all_numbers()) <= u128::MAX,
{
    let mut weights: [u128; 57] = [0;57];
    let mut n: u8 = 1;
    while n < 57
        invariant
            1 <= n <= 57,
            weights@[0] == 0,
            forall|x: int|
                1 <= x < n ==> 0 < #[trigger] weights@[x] <= STERN_SCALE && weights@[x]
                    == STERN_SCALE as int / (popularity_of(x) * popularity_of(x)),
        decreases 57 - n,
    {
        let w: u64 = Stats::stern_weight(n);
        proof {
            let p = popularity_of(n as int);
            assert(0 < w <= STERN_SCALE && w == STERN_SCALE as int / (p * p)) by (nonlinear_arith)
                requires
                    w * (p * p) == STERN_SCALE,
                    10 <= p <= 27,
                    0 <= w,
            ;
        }
        weights[n as usize] = w as u128;
        n += 1;
    }
    assert(weights@ =~= stern_weights());
    proof {
        lemma_sound_weights(weights@);
    }
    weights
}

proof fn lemma_company(st: Stats, numbers: Seq<u8>, n: int)
    ensures
        0 <= company(st, numbers, n) <= u32::MAX * numbers.len(),
    decreases numbers.len(),
{
    if numbers.len() > 0 {
        lemma_company(st, numbers.drop_last(), n);
    }
}

/// How often `n` was drawn together with the numbers of a ticket.
fn count_company(st: &Stats, numbers: &Vec<u8>, n: u8) -> (count: u64)
    requires
        n <= 56,
        numbers@.len() <= 56,
        forall|i: int| 0 <= i < numbers@.len() ==> #[trigger] numbers@[i] <= 56,
    ensures
        count == company(*st, numbers@, n as int),
{
    let mut count: u64 = 0;
    let mut i: usize = 0;
    while i < numbers.len()
        invariant
            i <= numbers@.len() <= 56,
            n <= 56,
            forall|i: int| 0 <= i < numbers@.len() ==> #[trigger] numbers@[i] <= 56,
            count <= u32::MAX * i,
            count == company(*st, numbers@.take(i as int), n as int),
        decreases numbers@.len() - i,
    {
        assert(numbers@.take(i + 1).drop_last() =~= numbers@.take(i as int));
        count = count + st.cooc(numbers[i], n) as u64;
        i += 1;
    }
    assert(numbers@.take(i as int) =~= numbers@);
    count
}

fn holds(numbers: &Vec<u8>, n: u8) -> (b: bool)
    ensures
        b == numbers@.contains(n),
{
    let mut i: usize = 0;
    while i < numbers.len()
        invariant
            i <= numbers@.len(),
            forall|j: int| 0 <= j < i ==> numbers@[j] != n,
        decreases numbers@.len() - i,
    {
        if numbers[i] == n {
            return true;
        }
        i += 1;
    }
    false
}

/// Fewer than 56 numbers leave out one of 1 to 56.
proof fn lemma_one_left_out(numbers: Seq<u8>) -> (n: int)
    requires
        numbers.len() < 56,
    ensures
        1 <= n <= 56,
        !numbers.contains(n as u8),
{
    if forall|n: int| 1 <= n <= 56 ==> #[trigger] numbers.contains(n as u8) {
        let all = vstd::set_lib::set_int_range(1, 57);
        let ints = numbers.map_values(|n: u8| n as int);
        vstd::set_lib::lemma_int_range(1, 57);
        assert(all.subset_of(ints.to_set())) by {
            assert forall|n: int| all.contains(n) implies ints.to_set().contains(n) by {
                assert(numbers.contains(n as u8));
                let i = choose|i: int| 0 <= i < numbers.len() && numbers[i] == n as u8;
                assert(ints[i] == n);
            }
        }
        ints.lemma_cardinality_of_set();
        vstd::seq_lib::seq_to_set_is_finite(ints);
        vstd::set_lib::lemma_len_subset(all, ints.to_set());
        assert(false);
    }
    choose|n: int| 1 <= n <= 56 && !#[trigger] numbers.contains(n as u8)
}

/// The weights of the next number of a Markov ticket.
fn weigh_markov(st: &Stats, numbers: &Vec<u8>) -> (weights: [u128; 57])
    requires
        numbers@.len() < 56,
        forall|i: int| 0 <= i < numbers@.len() ==> #[trigger] numbers@[i] <= 56,
    ensures
        weights@ == markov_weights(*st, numbers@),
        weighty(weights@, all_numbers()) >= 1,
        pool_weight(weights@, all_numbers()) <= u128::MAX,
{
    if numbers.len() == 0 {
        return weigh_counts(&st.freq);
    }
    let mut weights: [u128; 57] = [0;57];
    let mut n: u8 = 1;
    while n < 57
        invariant
            1 <= n <= 57,
            numbers@.len() < 56,
            forall|i: int| 0 <= i < numbers@.len() ==> #[trigger] numbers@[i] <= 56,
            weights@[0] == 0,
            forall|x: int|
                1 <= x < n ==> #[trigger] weights@[x] <= 0x1_0000_0000_0000 && weights@[x]
                    == if numbers@.contains(x as u8) {
                    0
                } else {
                    1 + company(*st, numbers@, x)
                },
        decreases 57 - n,
    {
        proof {
            lemma_company(*st, numbers@, n as int);
        }
        weights[n as usize] = if holds(numbers, n) {
            0
        } else {
            1 + count_company(st, numbers, n) as u128
        };
        n += 1;
    }
    assert(weights@ =~= markov_weights(*st, numbers@));
    proof {
        let pool = all_numbers();
        assert forall|i: int| 0 <= i < pool.len() implies weights@[#[trigger] pool[i] as int]
            <= 0x1_0000_0000_0000 by {
            assert(pool[i] == i + 1);
        }
        let free = lemma_one_left_out(numbers@);
        lemma_company(*st, numbers@, free);
        assert(pool[free - 1] == free);
        assert(weights@[pool[free - 1] as int] > 0);
        lemma_pool_bounds(weights@, pool, 0x1_0000_0000_0000);
    }
    weights
}

/// A number that a roll adds to a Markov ticket was not on it.
proof fn lemma_walk(st: Stats, rolls: Seq<Roll>)
    requires
        spans_walk(st, rolls),
    ensures
        markov_walk(st, rolls).len() == rolls.len(),
        markov_walk(st, rolls).no_duplicates(),
        forall|i: int|
            0 <= i < rolls.len() ==> 1 <= #[trigger] markov_walk(st, rolls)[i] <= 56,
    decreases rolls.len(),
{
    if rolls.len() > 0 {
        let before = markov_walk(st, rolls.drop_last());
        let weights = markov_weights(st, before);
        let pool = all_numbers();
        lemma_walk(st, rolls.drop_last());
        crate::chance::lemma_position(weights, pool, rolls.last().at as int);
        let at = position(weights, pool, rolls.last().at as int);
        let n = pool[at];
        assert(n == at + 1);
        assert(!before.contains(n)) by {
            if before.len() > 0 {
                assert(weights[n as int] > 0);
            }
        }
        let numbers = markov_walk(st, rolls);
        assert(numbers == before.push(n));
        assert forall|i: int| 0 <= i < rolls.len() implies 1 <= #[trigger] numbers[i] <= 56 by {
            if i < before.len() {
                assert(numbers[i] == before[i]);
            }
        }
    }
}

/// Makes a Markov ticket.
fn walk(st: &Stats, k: usize, dice: &mut Dice) -> (out: Vec<u8>)
    requires
        k <= 56,
    ensures
        continues(old(dice).rolls(), final(dice).rolls()),
        rolls_for(
            *st,
            Strategy::Markov,
            k as nat,
            new_rolls(old(dice).rolls(), final(dice).rolls()),
        ),
        out@ == sorted_by_key(
            markov_walk(*st, new_rolls(old(dice).rolls(), final(dice).rolls())),
            own_key::<u8>(),
        ),
{
    let ghost before = dice.rolls();
    let mut numbers: Vec<u8> = Vec::new();
    assert(new_rolls(before, dice.rolls()) =~= Seq::empty());
    assert(dice.rolls().take(before.len() as int) =~= before);
    while numbers.len() < k
        invariant
            numbers@.len() <= k <= 56,
            continues(before, dice.rolls()),
            new_rolls(before, dice.rolls()).len() == numbers@.len(),
            spans_walk(*st, new_rolls(before, dice.rolls())),
            numbers@ == markov_walk(*st, new_rolls(before, dice.rolls())),
        decreases k - numbers@.len(),
    {
        let ghost rolls = new_rolls(before, dice.rolls());
        let ghost earlier = dice.rolls();
        proof {
            lemma_walk(*st, rolls);
        }
        let weights: [u128; 57] = weigh_markov(st, &numbers);
        let next: Vec<u8> = weighted_sample(&weights, 1, dice);
        proof {
            let one = new_rolls(earlier, dice.rolls());
            let now = new_rolls(before, dice.rolls());
            lemma_single_sample(weights@, one);
            assert(dice.rolls() =~= earlier + one);
            assert(now =~= rolls.push(one[0]));
            assert(now.drop_last() =~= rolls);
            assert(dice.rolls().take(before.len() as int) =~= earlier.take(before.len() as int));
        }
        numbers.push(next[0]);
    }
    sort_by_key(numbers)
}

/// A sample of one number is the one that the roll falls on.
proof fn lemma_single_sample(weights: Seq<u128>, rolls: Seq<Roll>)
    requires
        rolls.len() == 1,
        spans_weights(weights, rolls),
    ensures
        sample(weights, rolls) == seq![
            all_numbers()[position(weights, all_numbers(), rolls[0].at as int)],
        ],
        rolls[0].at < rolls[0].span,
        rolls[0].span == pool_weight(weights, all_numbers()),
{
    let none = rolls.drop_last();
    assert(none.len() == 0);
    assert(sampling(weights, none) == (Seq::<u8>::empty(), all_numbers()));
    let taken = sampling(weights, rolls).0;
    assert(taken =~= seq![
        all_numbers()[position(weights, all_numbers(), rolls[0].at as int)],
    ]);
    let key = own_key::<u8>();
    assert(taken.drop_last() =~= Seq::empty());
    assert(sorted_by_key(taken.drop_last(), key) =~= Seq::empty());
    assert(sorted_by_key(taken, key) =~= taken);
}

/// A sample without the shape counts as a try and nothing else.
proof fn lemma_search_step(
    weights: Seq<u128>,
    k: nat,
    shape: Shape,
    missed: Seq<Roll>,
    rest: Seq<Roll>,
    tries: nat,
)
    requires
        missed.len() == k,
        spans_weights(weights, missed),
        !shape.fits(sample(weights, missed)),
        tries > 0,
    ensures
        searched(weights, k, shape, missed + rest, tries) == searched(
            weights,
            k,
            shape,
            rest,
            (tries - 1) as nat,
        ),
        spans_search(weights, k, shape, missed + rest, tries) == spans_search(
            weights,
            k,
            shape,
            rest,
            (tries - 1) as nat,
        ),
{
    assert((missed + rest).take(k as int) =~= missed);
    assert((missed + rest).skip(k as int) =~= rest);
    if spans_search(weights, k, shape, rest, (tries - 1) as nat) {
        assert(rest.len() >= k);
    }
}

/// Samples until a ticket has the shape, but not more than `TRIES` times; then
/// takes the next one as it is.
fn search(weights: &[u128; 57], k: usize, shape: &Shape, dice: &mut Dice) -> (out: Vec<u8>)
    requires
        k <= 56,
        weighty(weights@, all_numbers()) == 56,
        pool_weight(weights@, all_numbers()) <= u128::MAX,
    ensures
        continues(old(dice).rolls(), final(dice).rolls()),
        spans_search(
            weights@,
            k as nat,
            *shape,
            new_rolls(old(dice).rolls(), final(dice).rolls()),
            TRIES as nat,
        ),
        out@ == searched(
            weights@,
            k as nat,
            *shape,
            new_rolls(old(dice).rolls(), final(dice).rolls()),
            TRIES as nat,
        ),
{
    let ghost before = dice.rolls();
    let mut tries: u32 = 0;
    assert(dice.rolls().take(before.len() as int) =~= before);
    assert forall|rest: Seq<Roll>|
        #![trigger new_rolls(before, dice.rolls()) + rest]
        searched(
            weights@,
            k as nat,
            *shape,
            new_rolls(before, dice.rolls()) + rest,
            TRIES as nat,
        ) == searched(weights@, k as nat, *shape, rest, TRIES as nat) && spans_search(
            weights@,
            k as nat,
            *shape,
            new_rolls(before, dice.rolls()) + rest,
            TRIES as nat,
        ) == spans_search(weights@, k as nat, *shape, rest, TRIES as nat) by {
        assert(new_rolls(before, dice.rolls()) + rest =~= rest);
    }
    while tries < TRIES
        invariant
            tries <= TRIES,
            k <= 56,
            weighty(weights@, all_numbers()) == 56,
            pool_weight(weights@, all_numbers()) <= u128::MAX,
            continues(before, dice.rolls()),
            before == old(dice).rolls(),
            forall|rest: Seq<Roll>|
                #![trigger new_rolls(before, dice.rolls()) + rest]
                searched(
                    weights@,
                    k as nat,
                    *shape,
                    new_rolls(before, dice.rolls()) + rest,
                    TRIES as nat,
                ) == searched(weights@, k as nat, *shape, rest, (TRIES - tries) as nat)
                    && spans_search(
                    weights@,
                    k as nat,
                    *shape,
                    new_rolls(before, dice.rolls()) + rest,
                    TRIES as nat,
                ) == spans_search(weights@, k as nat, *shape, rest, (TRIES - tries) as nat),
        decreases TRIES - tries,
    {
        let ghost earlier = dice.rolls();
        let ghost spent = new_rolls(before, earlier);
        let numbers: Vec<u8> = weighted_sample(weights, k, dice);
        let ghost rolls = new_rolls(earlier, dice.rolls());
        proof {
            law_sample(weights@, rolls);
            assert(dice.rolls() =~= earlier + rolls);
            assert(new_rolls(before, dice.rolls()) =~= spent + rolls);
            assert(dice.rolls().take(before.len() as int) =~= earlier.take(before.len() as int));
            assert(rolls.take(k as int) =~= rolls);
        }
        if shape.accepts(&numbers) {
            return numbers;
        }
        tries += 1;
        assert forall|rest: Seq<Roll>|
            #![trigger new_rolls(before, dice.rolls()) + rest]
            searched(
                weights@,
                k as nat,
                *shape,
                new_rolls(before, dice.rolls()) + rest,
                TRIES as nat,
            ) == searched(weights@, k as nat, *shape, rest, (TRIES - tries) as nat)
                && spans_search(
                weights@,
                k as nat,
                *shape,
                new_rolls(before, dice.rolls()) + rest,
                TRIES as nat,
            ) == spans_search(weights@, k as nat, *shape, rest, (TRIES - tries) as nat) by {
            assert(new_rolls(before, dice.rolls()) + rest =~= spent + (rolls + rest));
            lemma_search_step(
                weights@,
                k as nat,
                *shape,
                rolls,
                rest,
                (TRIES - tries + 1) as nat,
            );
        }
    }
    let ghost earlier = dice.rolls();
    let ghost spent = new_rolls(before, earlier);
    let numbers: Vec<u8> = weighted_sample(weights, k, dice);
    proof {
        let rolls = new_rolls(earlier, dice.rolls());
        assert(dice.rolls() =~= earlier + rolls);
        assert(new_rolls(before, dice.rolls()) =~= spent + rolls);
        assert(dice.rolls().take(before.len() as int) =~= earlier.take(before.len() as int));
        assert(rolls.take(k as int) =~= rolls);
    }
    numbers
}

/// What a search ends with is a ticket, and it has the shape unless every sample
/// of as many tries as are made lacked it.
pub proof fn law_search(
    weights: Seq<u128>,
    k: nat,
    shape: Shape,
    rolls: Seq<Roll>,
    tries: nat,
)
    requires
        spans_search(weights, k, shape, rolls, tries),
    ensures
        is_ticket(searched(weights, k, shape, rolls, tries), k),
        shape.fits(searched(weights, k, shape, rolls, tries)) || rolls.len() == (tries + 1) * k,
    decreases tries,
{
    law_sample(weights, rolls.take(k as int));
    if tries > 0 && !shape.fits(sample(weights, rolls.take(k as int))) {
        law_search(weights, k, shape, rolls.skip(k as int), (tries - 1) as nat);
        assert((tries + 1) * k == tries * k + k) by (nonlinear_arith);
    } else if tries == 0 {
        assert((tries + 1) * k == k) by (nonlinear_arith)
            requires
                tries == 0,
        ;
    }
}

/// Whatever the rolls, the ticket of a strategy has `k` different numbers of 1 to
/// 56 in ascending order, and a balanced or unpopular one has its shape unless
/// no sample of all the tries had it.
pub proof fn law_ticket(
    st: Stats,
    strategy: Strategy,
    k: nat,
    posterior: Seq<u64>,
    rolls: Seq<Roll>,
)
    requires
        k <= 56,
        rolls_for(st, strategy, k, rolls),
    ensures
        is_ticket(ticket(st, strategy, k, posterior, rolls), k),
        strategy is Balanced ==> balanced_shape(st, k).fits(
            ticket(st, strategy, k, posterior, rolls),
        ) || rolls.len() == (TRIES + 1) * k,
        strategy is SternCover ==> unpopular_shape(k).fits(
            ticket(st, strategy, k, posterior, rolls),
        ) || rolls.len() == (TRIES + 1) * k,
{
    match strategy {
        Strategy::Hot => law_best(widened(st.freq@), k),
        Strategy::Cold => law_best(widened(st.gap@), k),
        Strategy::Bayes => law_best(posterior, k),
        Strategy::Weighted => law_sample(count_weights(st.freq@), rolls),
        Strategy::Recent => law_sample(count_weights(st.recent@), rolls),
        Strategy::Balanced => law_search(
            balanced_weights(st),
            k,
            balanced_shape(st, k),
            rolls,
            TRIES as nat,
        ),
        Strategy::SternCover => law_search(
            stern_weights(),
            k,
            unpopular_shape(k),
            rolls,
            TRIES as nat,
        ),
        Strategy::Markov => {
            lemma_walk(st, rolls);
            lemma_sorted_ticket(markov_walk(st, rolls));
        },
    }
}

/// No number left out of a hot ticket is more frequent than one on it, none left
/// out of a cold ticket has waited longer, and none left out of a bayes ticket
/// has a higher draw.
pub proof fn law_best_tickets(
    st: Stats,
    k: nat,
    posterior: Seq<u64>,
    rolls: Seq<Roll>,
    strategy: Strategy,
    inside: u8,
    outside: u8,
)
    requires
        1 <= inside <= 56,
        1 <= outside <= 56,
        ticket(st, strategy, k, posterior, rolls).contains(inside),
        !ticket(st, strategy, k, posterior, rolls).contains(outside),
    ensures
        strategy is Hot ==> st.freq@[inside as int] >= st.freq@[outside as int],
        strategy is Cold ==> st.gap@[inside as int] >= st.gap@[outside as int],
        strategy is Bayes ==> posterior[inside as int] >= posterior[outside as int],
{
    law_best(widened(st.freq@), k);
    law_best(widened(st.gap@), k);
    law_best(posterior, k);
}

/// Hot and cold tickets are the same whatever the rolls and the posterior, and one
/// more number on them leaves those that were there.
pub proof fn law_deterministic_tickets(
    st: Stats,
    strategy: Strategy,
    k: nat,
    posterior: Seq<u64>,
    rolls: Seq<Roll>,
    other_posterior: Seq<u64>,
    other_rolls: Seq<Roll>,
)
    requires
        strategy is Hot || strategy is Cold,
    ensures
        ticket(st, strategy, k, posterior, rolls) == ticket(
            st,
            strategy,
            k,
            other_posterior,
            other_rolls,
        ),
        forall|n: u8| #[trigger]
            ticket(st, strategy, k, posterior, rolls).contains(n) ==> ticket(
                st,
                strategy,
                k + 1,
                posterior,
                rolls,
            ).contains(n),
{
    law_best_are_nested(widened(st.freq@), k, k + 1);
    law_best_are_nested(widened(st.gap@), k, k + 1);
}

/// The numbers of a weighted ticket are those that the rolls fall on where each
/// number has one more than its frequency as weight; of a recent ticket, one more
/// than how often it was drawn recently.
pub proof fn law_weighted_tickets(
    st: Stats,
    strategy: Strategy,
    k: nat,
    posterior: Seq<u64>,
    rolls: Seq<Roll>,
) -> (order: Seq<u8>)
    requires
        strategy is Weighted || strategy is Recent,
        rolls_for(st, strategy, k, rolls),
    ensures
        order.len() == k,
        rolls.len() == k,
        order.to_multiset() == ticket(st, strategy, k, posterior, rolls).to_multiset(),
        strategy is Weighted ==> forall|i: int|
            0 <= i < k ==> falls_on(
                |n: int| st.freq@[n] + 1,
                order.take(i),
                #[trigger] rolls[i],
                order[i],
            ),
        strategy is Recent ==> forall|i: int|
            0 <= i < k ==> falls_on(
                |n: int| st.recent@[n] + 1,
                order.take(i),
                #[trigger] rolls[i],
                order[i],
            ),
{
    let counts = if strategy is Weighted {
        st.freq@
    } else {
        st.recent@
    };
    let table = count_weights(counts);
    let order = law_sample_follows_weights(table, rolls);
    let found = |n: int| table[n] as int;
    let wanted = |n: int| counts[n] + 1;
    assert forall|i: int| 0 <= i < k implies falls_on(
        wanted,
        order.take(i),
        #[trigger] rolls[i],
        order[i],
    ) by {
        lemma_falls_on_equal(found, wanted, order.take(i), rolls[i], order[i]);
    }
    if strategy is Weighted {
        assert(wanted =~= (|n: int| st.freq@[n] + 1));
    } else {
        assert(wanted =~= (|n: int| st.recent@[n] + 1));
    }
    order
}

/// Balanced weights are proportional to (freq + 1) * (1 + gap / max gap): a number
/// just drawn has its frequency and one more as weight, one that has waited longest
/// twice that, and each draw waited adds the same to it.
pub proof fn law_balanced_weights(st: Stats, a: int, b: int)
    requires
        1 <= a <= 56,
        1 <= b <= 56,
        st.gap@[a] <= st.max_gap,
        st.gap@[b] <= st.max_gap,
    ensures
        ({
            let w = balanced_weights(st);
            let unit = if st.max_gap > 0 {
                st.max_gap as int
            } else {
                1
            };
            let fa = st.freq@[a] + 1;
            let fb = st.freq@[b] + 1;
            &&& w[a] > 0
            &&& st.gap@[a] == 0 ==> w[a] == fa * unit
            &&& st.gap@[a] == st.max_gap > 0 ==> w[a] == 2 * (fa * unit)
            &&& fa == fb ==> w[a] - w[b] == fa * (st.gap@[a] - st.gap@[b])
            &&& st.gap@[a] == st.gap@[b] ==> w[a] * fb == w[b] * fa
        }),
{
    lemma_balanced_weight(st, a);
    lemma_balanced_weight(st, b);
    let unit = if st.max_gap > 0 {
        st.max_gap as int
    } else {
        1
    };
    let fa = st.freq@[a] + 1;
    let fb = st.freq@[b] + 1;
    let ga = st.gap@[a] as int;
    let gb = st.gap@[b] as int;
    assert(fa * (unit + ga) == fa * unit + fa * ga) by (nonlinear_arith);
    assert(fa * (unit + gb) == fa * unit + fa * gb) by (nonlinear_arith);
    assert(fa * (ga - gb) == fa * ga - fa * gb) by (nonlinear_arith);
    if ga == 0 {
        assert(fa * ga == 0) by (nonlinear_arith)
            requires
                ga == 0,
        ;
    }
    assert(fa * (unit + ga) * fb == fb * (unit + ga) * fa) by (nonlinear_arith);
}

/// Stern-Cover weights go by the inverse square of the popularity: the weight times
/// the square of the popularity is the same for all numbers.
pub proof fn law_stern_weights(a: int, b: int)
    requires
        1 <= a <= 56,
        1 <= b <= 56,
    ensures
        stern_weights()[a] > 0,
        stern_weights()[a] * (popularity_of(a) * popularity_of(a)) == stern_weights()[b] * (
        popularity_of(b) * popularity_of(b)),
        popularity_of(a) < popularity_of(b) ==> stern_weights()[a] > stern_weights()[b],
{
    let p = popularity_of(a);
    let q = popularity_of(b);
    let v = STERN_SCALE as int / (p * p);
    let w = STERN_SCALE as int / (q * q);
    assert(v * (p * p) == STERN_SCALE && v > 0 && v <= STERN_SCALE) by (nonlinear_arith)
        requires
            p == 10 || p == 18 || p == 22 || p == 23 || p == 27,
            v == STERN_SCALE as int / (p * p),
    ;
    assert(w * (q * q) == STERN_SCALE && w > 0 && w <= STERN_SCALE) by (nonlinear_arith)
        requires
            q == 10 || q == 18 || q == 22 || q == 23 || q == 27,
            w == STERN_SCALE as int / (q * q),
    ;
    if p < q {
        assert(v > w) by (nonlinear_arith)
            requires
                0 < p < q,
                w > 0,
                v * (p * p) == w * (q * q),
        ;
    }
}

proof fn lemma_company_is_sum(st: Stats, draws: Seq<Draw>, numbers: Seq<u8>, n: int)
    requires
        st.describes(draws),
        0 <= n < 57,
        forall|i: int| 0 <= i < numbers.len() ==> #[trigger] numbers[i] <= 56,
    ensures
        company(st, numbers, n) == numbers.fold_left(
            0int,
            |sum: int, c: u8| sum + together(draws, c as int, n),
        ),
    decreases numbers.len(),
{
    if numbers.len() > 0 {
        lemma_company_is_sum(st, draws, numbers.drop_last(), n);
        assert(st.cooc.at(numbers.last() as int, n) == together(draws, numbers.last() as int, n));
    }
}

/// The weight of the next number of a Markov ticket: one more than its frequency for
/// the first; for a later one, one more than how often it was drawn together with
/// each number before it, all of them added up; none for a number that is there
/// already. So each further number `c` raises the weight of `n` by how often the two
/// were drawn together.
pub proof fn law_markov_weights(st: Stats, draws: Seq<Draw>, numbers: Seq<u8>, c: u8, n: int)
    requires
        st.describes(draws),
        numbers.len() < 56,
        forall|i: int| 0 <= i < numbers.len() ==> 1 <= #[trigger] numbers[i] <= 56,
        1 <= c <= 56,
        1 <= n <= 56,
        !numbers.contains(n as u8),
        n != c,
    ensures
        numbers.len() == 0 ==> markov_weights(st, numbers)[n] == frequency(draws, n) + 1,
        numbers.len() > 0 ==> markov_weights(st, numbers)[n] == 1 + numbers.fold_left(
            0int,
            |sum: int, c: u8| sum + together(draws, c as int, n),
        ),
        numbers.len() == 0 ==> markov_weights(st, numbers.push(c))[n] == 1 + together(
            draws,
            c as int,
            n,
        ),
        numbers.len() > 0 ==> markov_weights(st, numbers.push(c))[n] == markov_weights(
            st,
            numbers,
        )[n] + together(draws, c as int, n),
        markov_weights(st, numbers.push(c))[c as int] == 0,
{
    let more = numbers.push(c);
    lemma_company_is_sum(st, draws, numbers, n);
    lemma_company(st, numbers, n);
    lemma_company(st, more, n);
    assert(more.drop_last() =~= numbers);
    assert(more[numbers.len() as int] == c);
    assert(!more.contains(n as u8)) by {
        if more.contains(n as u8) {
            let i = choose|i: int| 0 <= i < more.len() && more[i] == n as u8;
            assert(i < numbers.len() && numbers[i] == n as u8);
        }
    }
    assert(st.cooc.at(c as int, n) == together(draws, c as int, n));
    assert(st.freq@[n] == frequency(draws, n));
}

/// The numbers of a Markov ticket are those that the rolls fall on, the first by
/// its frequency and one, each later one by one more than how often it was drawn
/// together with those before it.
pub proof fn law_markov_tickets(
    st: Stats,
    draws: Seq<Draw>,
    k: nat,
    posterior: Seq<u64>,
    rolls: Seq<Roll>,
) -> (order: Seq<u8>)
    requires
        st.describes(draws),
        k <= 56,
        rolls_for(st, Strategy::Markov, k, rolls),
    ensures
        order.len() == k,
        rolls.len() == k,
        order.to_multiset() == ticket(st, Strategy::Markov, k, posterior, rolls).to_multiset(),
        k > 0 ==> falls_on(
            |n: int| frequency(draws, n) as int + 1,
            Seq::empty(),
            rolls[0],
            order[0],
        ),
        forall|i: int|
            0 < i < k ==> falls_on(
                |n: int|
                    1 + order.take(i).fold_left(
                        0int,
                        |sum: int, c: u8| sum + together(draws, c as int, n),
                    ),
                order.take(i),
                #[trigger] rolls[i],
                order[i],
            ),
{
    let order = markov_walk(st, rolls);
    lemma_walk(st, rolls);
    law_sorting_keeps_items(order, own_key::<u8>());
    assert forall|i: int| 0 <= i < k implies is_step_of_walk(st, draws, rolls, i) by {
        lemma_markov_step(st, draws, rolls, i);
    }
    if k > 0 {
        assert(is_step_of_walk(st, draws, rolls, 0));
        assert(order.take(0) =~= Seq::empty());
    }
    assert forall|i: int| 0 < i < k implies falls_on(
        |n: int|
            1 + order.take(i).fold_left(
                0int,
                |sum: int, c: u8| sum + together(draws, c as int, n),
            ),
        order.take(i),
        #[trigger] rolls[i],
        order[i],
    ) by {
        assert(is_step_of_walk(st, draws, rolls, i));
    }
    order
}

/// Whether the number at a position of a Markov walk is that which its roll falls
/// on.
spec fn is_step_of_walk(st: Stats, draws: Seq<Draw>, rolls: Seq<Roll>, i: int) -> bool {
    let order = markov_walk(st, rolls);
    if i == 0 {
        falls_on(|n: int| frequency(draws, n) as int + 1, order.take(0), rolls[0], order[0])
    } else {
        falls_on(
            |n: int|
                1 + order.take(i).fold_left(
                    0int,
                    |sum: int, c: u8| sum + together(draws, c as int, n),
                ),
            order.take(i),
            rolls[i],
            order[i],
        )
    }
}

proof fn lemma_markov_step(st: Stats, draws: Seq<Draw>, rolls: Seq<Roll>, i: int)
    requires
        st.describes(draws),
        rolls.len() <= 56,
        spans_walk(st, rolls),
        0 <= i < rolls.len(),
    ensures
        is_step_of_walk(st, draws, rolls, i),
    decreases rolls.len(),
{
    let order = markov_walk(st, rolls);
    let earlier = rolls.drop_last();
    let before = markov_walk(st, earlier);
    lemma_walk(st, rolls);
    lemma_walk(st, earlier);
    if i < rolls.len() - 1 {
        lemma_markov_step(st, draws, earlier, i);
        assert(order.take(i) =~= before.take(i));
        assert(order[i] == before[i]);
        assert(rolls[i] == earlier[i]);
        assert(order.take(0) =~= before.take(0));
        assert(order[0] == before[0]);
        assert(rolls[0] == earlier[0]);
    } else {
        let table = markov_weights(st, before);
        assert(order.take(i) =~= before);
        if i == 0 {
            let w = |n: int| frequency(draws, n) as int + 1;
            assert forall|n: int| 1 <= n <= 56 implies #[trigger] table[n] == if before.contains(
                n as u8,
            ) {
                0
            } else {
                w(n)
            } by {
                assert(st.freq@[n] == frequency(draws, n));
            }
            lemma_position_falls_on(table, w, before, rolls[i]);
        } else {
            let w = |n: int|
                1 + before.fold_left(0int, |sum: int, c: u8| sum + together(draws, c as int, n));
            assert forall|n: int| 1 <= n <= 56 implies #[trigger] table[n] == if before.contains(
                n as u8,
            ) {
                0
            } else {
                w(n)
            } by {
                lemma_company(st, before, n);
                lemma_company_is_sum(st, draws, before, n);
            }
            lemma_position_falls_on(table, w, before, rolls[i]);
        }
    }
}

/// The bounds of the sum of a balanced ticket are those of six numbers in proportion
/// to how many it has, to the nearest whole number.
pub proof fn law_bounds_are_proportional(st: Stats, k: nat)
    ensures
        balanced_shape(st, k) is Balanced,
        ({
            let lo = balanced_shape(st, k)->lo;
            let hi = balanced_shape(st, k)->hi;
            &&& lo < u32::MAX ==> 6 * lo - 3 <= st.sum_lo * k < 6 * lo + 3
            &&& hi < u32::MAX ==> 6 * hi - 3 <= st.sum_hi * k < 6 * hi + 3
            &&& lo == u32::MAX ==> st.sum_lo * k >= 6 * lo - 3
            &&& hi == u32::MAX ==> st.sum_hi * k >= 6 * hi - 3
        }),
{
    let x = st.sum_lo * k;
    let y = st.sum_hi * k;
    assert(x >= 0 && y >= 0) by (nonlinear_arith)
        requires
            x == st.sum_lo * k,
            y == st.sum_hi * k,
            st.sum_lo >= 0,
            st.sum_hi >= 0,
    ;
}

proof fn lemma_shape_counts(numbers: Seq<u8>, limit: int)
    ensures
        sum(numbers) == numbers.fold_left(0int, |sum: int, n: u8| sum + n),
        sum(numbers) <= 255 * numbers.len(),
        evens(numbers) == numbers.filter(|n: u8| n % 2 == 0).len(),
        not_above(numbers, limit) == numbers.filter(|n: u8| n <= limit).len(),
        numbers.len() - not_above(numbers, limit) == numbers.filter(|n: u8| n > limit).len(),
    decreases numbers.len(),
{
    reveal(Seq::filter);
    if numbers.len() > 0 {
        lemma_shape_counts(numbers.drop_last(), limit);
    }
}

/// What a balanced ticket is: a sum in proportion to those of the draws, and of its
/// numbers a third to two thirds even, and as many at most 28; a third and two
/// thirds of a number that three does not divide are taken down and up.
pub proof fn law_balanced_shape(st: Stats, k: nat, numbers: Seq<u8>)
    requires
        numbers.len() == k,
        k <= 56,
    ensures
        balanced_shape(st, k).fits(numbers) <==> ({
            let total = numbers.fold_left(0int, |sum: int, n: u8| sum + n);
            let even = numbers.filter(|n: u8| n % 2 == 0).len();
            let low = numbers.filter(|n: u8| n <= 28).len();
            &&& st.sum_lo * k < 6 * total + 3
            &&& 6 * total <= st.sum_hi * k + 3
            &&& k < 3 * even + 3
            &&& 3 * even < 2 * k + 3
            &&& k < 3 * low + 3
            &&& 3 * low < 2 * k + 3
        }),
{
    lemma_shape_counts(numbers, 28);
    law_bounds_are_proportional(st, k);
    assert((|n: u8| n <= 28int) =~= (|n: u8| n <= 28));
}

/// What an unpopular ticket is: at least two thirds of its numbers are above 31, and
/// no number of it follows another.
pub proof fn law_unpopular_shape(k: nat, numbers: Seq<u8>)
    requires
        is_ticket(numbers, k),
        k <= 56,
    ensures
        unpopular_shape(k).fits(numbers) <==> ({
            &&& 3 * numbers.filter(|n: u8| n > 31).len() >= 2 * k
            &&& forall|n: u8|
                #![trigger numbers.contains(n)]
                n < 56 && numbers.contains(n) ==> !numbers.contains((n + 1) as u8)
        }),
{
    lemma_shape_counts(numbers, 31);
    assert((|n: u8| n > 31int) =~= (|n: u8| n > 31));
    if has_consecutive(numbers) {
        let i = choose|i: int| 0 <= i < numbers.len() - 1 && #[trigger] numbers[i] + 1 == numbers[i
            + 1];
        assert(numbers[i + 1] <= 56);
        assert(numbers.contains(numbers[i]));
        assert(numbers.contains((numbers[i] + 1) as u8));
    } else {
        assert forall|n: u8|
            #![trigger numbers.contains(n)]
            n < 56 && numbers.contains(n) implies !numbers.contains((n + 1) as u8) by {
            if numbers.contains((n + 1) as u8) {
                let i = choose|i: int| 0 <= i < numbers.len() && numbers[i] == n;
                let j = choose|j: int| 0 <= j < numbers.len() && numbers[j] == (n + 1) as u8;
                if j < i {
                    assert(numbers[j] < numbers[i]);
                }
                assert(i < j);
                if i + 1 < j {
                    assert(numbers[i] < numbers[i + 1]);
                    assert(numbers[i + 1] < numbers[j]);
                }
                assert(numbers[i] + 1 == numbers[i + 1]);
            }
        }
    }
}

/// The rolls of one sample of a search.
pub open spec fn rolls_of_try(rolls: Seq<Roll>, k: nat, b: nat) -> Seq<Roll> {
    rolls.subrange((b * k) as int, (b * k + k) as int)
}

/// A search keeps the first of its samples that has the shape, each made of rolls of
/// its own, and takes one more sample as it is where all of its tries miss.
pub proof fn law_search_keeps_the_first(
    weights: Seq<u128>,
    k: nat,
    shape: Shape,
    rolls: Seq<Roll>,
    tries: nat,
) -> (kept: nat)
    requires
        spans_search(weights, k, shape, rolls, tries),
    ensures
        kept <= tries,
        rolls.len() == (kept + 1) * k,
        searched(weights, k, shape, rolls, tries) == sample(weights, rolls_of_try(rolls, k, kept)),
        kept < tries ==> shape.fits(searched(weights, k, shape, rolls, tries)),
        forall|b: nat|
            b <= kept ==> spans_weights(weights, #[trigger] rolls_of_try(rolls, k, b)),
        forall|b: nat|
            b < kept ==> !shape.fits(sample(weights, #[trigger] rolls_of_try(rolls, k, b))),
    decreases tries,
{
    assert(0 * k == 0 && 1 * k == k) by (nonlinear_arith);
    let first = rolls.take(k as int);
    assert(rolls_of_try(rolls, k, 0) =~= first);
    if tries == 0 || shape.fits(sample(weights, first)) {
        assert((0 + 1) * k == k) by (nonlinear_arith);
        0
    } else {
        let rest = rolls.skip(k as int);
        let later = law_search_keeps_the_first(weights, k, shape, rest, (tries - 1) as nat);
        let kept = later + 1;
        assert((later + 1 + 1) * k == (later + 1) * k + k) by (nonlinear_arith);
        assert forall|b: nat| 1 <= b <= kept implies #[trigger] rolls_of_try(rolls, k, b)
            == rolls_of_try(rest, k, (b - 1) as nat) by {
            assert(b * k == (b - 1) * k + k) by (nonlinear_arith);
            assert((b - 1) * k >= 0 && (b - 1) * k + k <= (later + 1) * k) by (nonlinear_arith)
                requires
                    1 <= b <= later + 1,
                    k >= 0,
            ;
            assert(rolls_of_try(rolls, k, b) =~= rolls_of_try(rest, k, (b - 1) as nat));
        }
        assert forall|b: nat| b <= kept implies spans_weights(
            weights,
            #[trigger] rolls_of_try(rolls, k, b),
        ) by {
            if b > 0 {
                assert(spans_weights(weights, rolls_of_try(rest, k, (b - 1) as nat)));
            }
        }
        assert forall|b: nat| b < kept implies !shape.fits(
            sample(weights, #[trigger] rolls_of_try(rolls, k, b)),
        ) by {
            if b > 0 {
                assert(!shape.fits(sample(weights, rolls_of_try(rest, k, (b - 1) as nat))));
            }
        }
        kept
    }
}

/// A balanced ticket is the first of up to 8000 samples by the balanced weights that
/// has the balanced shape, and an unpopular one the first by the Stern-Cover weights
/// that has the unpopular shape.
pub proof fn law_searched_tickets(
    st: Stats,
    strategy: Strategy,
    k: nat,
    posterior: Seq<u64>,
    rolls: Seq<Roll>,
) -> (kept: nat)
    requires
        strategy is Balanced || strategy is SternCover,
        rolls_for(st, strategy, k, rolls),
    ensures
        kept <= 8000,
        rolls.len() == (kept + 1) * k,
        ({
            let (weights, shape) = if strategy is Balanced {
                (balanced_weights(st), balanced_shape(st, k))
            } else {
                (stern_weights(), unpopular_shape(k))
            };
            let made = ticket(st, strategy, k, posterior, rolls);
            &&& made == sample(weights, rolls_of_try(rolls, k, kept))
            &&& kept < 8000 ==> shape.fits(made)
            &&& forall|b: nat|
                b <= kept ==> spans_weights(weights, #[trigger] rolls_of_try(rolls, k, b))
            &&& forall|b: nat|
                b < kept ==> !shape.fits(sample(weights, #[trigger] rolls_of_try(rolls, k, b)))
        }),
{
    if strategy is Balanced {
        law_search_keeps_the_first(
            balanced_weights(st),
            k,
            balanced_shape(st, k),
            rolls,
            TRIES as nat,
        )
    } else {
        law_search_keeps_the_first(stern_weights(), k, unpopular_shape(k), rolls, TRIES as nat)
    }
}

/// The shapes of the Gamma draws that make the posterior of the bayes strategy:
/// one more than each number's frequency. That of index 0, no number, is 0.
pub fn posterior_shapes(st: &Stats) -> (shapes: [u64; 57])
    ensures
        shapes@[0] == 0,
        forall|n: int| 1 <= n <= 56 ==> #[trigger] shapes@[n] == st.freq@[n] + 1,
{
    let mut shapes: [u64; 57] = [0;57];
    let mut n: usize = 1;
    while n < 57
        invariant
            1 <= n <= 57,
            shapes@[0] == 0,
            forall|x: int| 1 <= x < n ==> #[trigger] shapes@[x] == st.freq@[x] + 1,
        decreases 57 - n,
    {
        shapes[n] = st.freq[n] as u64 + 1;
        n += 1;
    }
    shapes
}

/// Whether a strategy samples numbers.
pub open spec fn samples(strategy: Strategy) -> bool {
    !(strategy is Hot || strategy is Cold || strategy is Bayes)
}

/// Generate one k-number ticket with the given strategy; no number where no
/// strategy has that id. The bayes strategy takes the numbers with the highest
/// draws from the posterior of their frequencies, which `posterior` holds.
pub fn generate(
    st: &Stats,
    id: &str,
    k: usize,
    posterior: &[u64; 57],
    dice: &mut Dice,
) -> (out: Vec<u8>)
    requires
        strategy_of(id@) is Some && samples(strategy_of(id@)->0) ==> k <= 56,
    ensures
        continues(old(dice).rolls(), final(dice).rolls()),
        match strategy_of(id@) {
            Some(strategy) => {
                &&& rolls_for(
                    *st,
                    strategy,
                    k as nat,
                    new_rolls(old(dice).rolls(), final(dice).rolls()),
                )
                &&& out@ == ticket(
                    *st,
                    strategy,
                    k as nat,
                    posterior@,
                    new_rolls(old(dice).rolls(), final(dice).rolls()),
                )
                &&& k <= 56 ==> is_ticket(out@, k as nat)
                &&& !samples(strategy) ==> *final(dice) == *old(dice)
            },
            None => out@.len() == 0 && *final(dice) == *old(dice),
        },
{
    let strategy: Strategy = match find_strategy(id) {
        Some(strategy) => strategy,
        None => {
            assert(dice.rolls().take(dice.rolls().len() as int) =~= dice.rolls());
            return Vec::new();
        },
    };
    assert(dice.rolls().take(dice.rolls().len() as int) =~= dice.rolls());
    let out: Vec<u8> = match strategy {
        Strategy::Hot => top_k(&widen(&st.freq), k),
        Strategy::Cold => top_k(&widen(&st.gap), k),
        Strategy::Bayes => top_k(posterior, k),
        Strategy::Weighted => weighted_sample(&weigh_counts(&st.freq), k, dice),
        Strategy::Recent => weighted_sample(&weigh_counts(&st.recent), k, dice),
        Strategy::Balanced => {
            let shape: Shape = Shape::Balanced {
                lo: scale(st.sum_lo, k),
                hi: scale(st.sum_hi, k),
                least: k / 3,
                most: (2 * k + 2) / 3,
            };
            search(&weigh_balanced(st), k, &shape, dice)
        },
        Strategy::SternCover => {
            let shape: Shape = Shape::Unpopular { high: (2 * k + 2) / 3 };
            search(&weigh_stern(), k, &shape, dice)
        },
        Strategy::Markov => walk(st, k, dice),
    };
    proof {
        if k <= 56 {
            law_ticket(
                *st,
                strategy,
                k as nat,
                posterior@,
                new_rolls(old(dice).rolls(), dice.rolls()),
            );
        }
    }
    out
}

} // verus!
