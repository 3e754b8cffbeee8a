//! Era statistics: frequencies, gaps, co-occurrences and sum percentiles.
use crate::draw::Draw;
use crate::ranking::ranks;
use crate::sort::sort_by_key;
use vstd::prelude::*;

verus! {

use crate::draw::views;
use crate::ranking::place;
use crate::sort::{
    law_sorting_keeps_items,
    lemma_ascending_unique,
    lemma_filter_prefix,
    lemma_filter_reordered,
    lemma_sorted_by_key,
    lemma_sorted_members,
    lemma_with_key_members,
    own_key,
    sorted_by_key,
    with_key,
};

/// Window of draws considered "recent".
pub const WINDOW: usize = 250;

/// How often `a` is among the given numbers.
pub open spec fn times(numbers: Seq<u8>, a: int) -> nat
    decreases numbers.len(),
{
    if numbers.len() == 0 {
        0
    } else {
        times(numbers.drop_last(), a) + if numbers.last() == a {
            1nat
        } else {
            0
        }
    }
}

/// How often `a` was drawn.
pub open spec fn frequency(draws: Seq<Draw>, a: int) -> nat
    decreases draws.len(),
{
    if draws.len() == 0 {
        0
    } else {
        frequency(draws.drop_last(), a) + times(draws.last().numbers@, a)
    }
}

/// The newest draws, `WINDOW` of them or all.
pub open spec fn window(draws: Seq<Draw>) -> Seq<Draw> {
    if draws.len() <= WINDOW {
        draws
    } else {
        draws.skip(draws.len() - WINDOW)
    }
}

/// How many draws there were since `a` was drawn last; all of them if it never
/// was.
pub open spec fn gap_since(draws: Seq<Draw>, a: int) -> nat
    decreases draws.len(),
{
    if draws.len() == 0 || times(draws.last().numbers@, a) > 0 {
        0
    } else {
        1 + gap_since(draws.drop_last(), a)
    }
}

/// How often `a` and `b`, two numbers, were drawn together.
pub open spec fn together(draws: Seq<Draw>, a: int, b: int) -> nat
    decreases draws.len(),
{
    if draws.len() == 0 || a == b {
        0
    } else {
        together(draws.drop_last(), a, b) + times(draws.last().numbers@, a) * times(
            draws.last().numbers@,
            b,
        )
    }
}

/// The sum of the numbers.
pub open spec fn sum(numbers: Seq<u8>) -> nat
    decreases numbers.len(),
{
    if numbers.len() == 0 {
        0
    } else {
        sum(numbers.drop_last()) + numbers.last() as nat
    }
}

/// The sums of the draws.
pub open spec fn sums(draws: Seq<Draw>) -> Seq<u32> {
    draws.map_values(|d: Draw| sum(d.numbers@) as u32)
}

/// The sum that `percent` of the draws are below: that at the position of this
/// percentage, rounded down, in the ascending sums.
pub open spec fn percentile(draws: Seq<Draw>, percent: nat) -> u32 {
    sorted_by_key(sums(draws), own_key::<u32>())[draws.len() * percent as int / 100]
}

/// The counts of each two numbers together: 57 rows of 57.
pub struct Pairs {
    counts: Vec<u32>,
}

impl Pairs {
    #[verifier::type_invariant]
    spec fn has_all_rows(&self) -> bool {
        self.counts@.len() == 57 * 57
    }

    /// The rows one after the other.
    pub closed spec fn rows(&self) -> Seq<u32> {
        self.counts@
    }

    /// The count of `a` and `b` together.
    pub open spec fn at(&self, a: int, b: int) -> u32 {
        self.rows()[a * 57 + b]
    }
}

/// Era statistics. Arrays are indexed by ball number (1..=56); index 0 is that
/// of no ball.
pub struct Stats {
    pub n: usize,
    pub contest: u32,
    pub date: String,
    pub last: [u8; 6],
    pub last_pot: u64,
    pub freq: [u32; 57],
    pub recent: [u32; 57],
    pub gap: [u32; 57],
    pub cooc: Pairs,
    pub sum_lo: u32,
    pub sum_hi: u32,
    pub max_gap: u32,
}

impl Stats {
    /// These are the statistics of the given draws.
    pub open spec fn describes(&self, draws: Seq<Draw>) -> bool {
        &&& self.n == draws.len()
        &&& self.contest == draws.last().contest
        &&& self.date@ == draws.last().date@
        &&& self.last@ == draws.last().numbers@
        &&& self.last_pot == draws.last().pot
        &&& forall|a: int| 0 <= a < 57 ==> #[trigger] self.freq@[a] == frequency(draws, a)
        &&& forall|a: int| 0 <= a < 57 ==> #[trigger] self.recent@[a] == frequency(window(draws), a)
        &&& forall|a: int| 0 <= a < 57 ==> #[trigger] self.gap@[a] == gap_since(draws, a)
        &&& forall|a: int, b: int|
            0 <= a < 57 && 0 <= b < 57 ==> #[trigger] self.cooc.at(a, b) == together(draws, a, b)
        &&& self.sum_lo == percentile(draws, 15)
        &&& self.sum_hi == percentile(draws, 85)
        &&& is_largest(self.max_gap, self.gap@)
    }
}

/// Whether `m` is the largest of the entries 1 to 56.
pub open spec fn is_largest(m: u32, of: Seq<u32>) -> bool {
    &&& forall|a: int| 1 <= a <= 56 ==> #[trigger] of[a] <= m
    &&& exists|a: int| 1 <= a <= 56 && #[trigger] of[a] == m
}

proof fn lemma_times_bounds(numbers: Seq<u8>, a: int, b: int)
    ensures
        times(numbers, a) <= numbers.len(),
        a != b ==> times(numbers, a) + times(numbers, b) <= numbers.len(),
    decreases numbers.len(),
{
    if numbers.len() > 0 {
        lemma_times_bounds(numbers.drop_last(), a, b);
    }
}

proof fn lemma_counts_fit(draws: Seq<Draw>, a: int, b: int)
    ensures
        frequency(draws, a) <= 6 * draws.len(),
        together(draws, a, b) <= 9 * draws.len(),
        gap_since(draws, a) <= draws.len(),
    decreases draws.len(),
{
    if draws.len() > 0 {
        let numbers = draws.last().numbers@;
        lemma_counts_fit(draws.drop_last(), a, b);
        lemma_times_bounds(numbers, a, b);
        let x = times(numbers, a);
        let y = times(numbers, b);
        if a != b {
            assert(x * y <= 9) by (nonlinear_arith)
                requires
                    x + y <= 6,
                    0 <= x,
                    0 <= y,
            ;
        }
    }
}

/// Adds to each count how often its number is drawn.
fn add_counts(counts: &mut [u64; 57], numbers: &[u8; 6])
    requires
        forall|i: int| 0 <= i < 6 ==> #[trigger] numbers@[i] <= 56,
        forall|a: int| 0 <= a < 57 ==> #[trigger] old(counts)@[a] + 6 <= u64::MAX,
    ensures
        forall|a: int|
            0 <= a < 57 ==> #[trigger] final(counts)@[a] == old(counts)@[a] + times(numbers@, a),
{
    let ghost before = counts@;
    let mut i: usize = 0;
    while i < 6
        invariant
            i <= 6,
            forall|i: int| 0 <= i < 6 ==> #[trigger] numbers@[i] <= 56,
            forall|a: int| 0 <= a < 57 ==> #[trigger] before[a] + 6 <= u64::MAX,
            forall|a: int|
                0 <= a < 57 ==> #[trigger] counts@[a] == before[a] + times(
                    numbers@.take(i as int),
                    a,
                ),
        decreases 6 - i,
    {
        let a: usize = numbers[i] as usize;
        assert(numbers@.take(i + 1).drop_last() =~= numbers@.take(i as int));
        proof {
            lemma_times_bounds(numbers@.take(i as int), a as int, a as int);
        }
        counts[a] = counts[a] + 1;
        i += 1;
    }
    assert(numbers@.take(6) =~= numbers@);
}

/// Sets the gap of each number drawn.
fn set_gaps(gap: &mut [u32; 57], numbers: &[u8; 6], since: u32)
    requires
        forall|i: int| 0 <= i < 6 ==> #[trigger] numbers@[i] <= 56,
    ensures
        forall|a: int|
            0 <= a < 57 ==> #[trigger] final(gap)@[a] == if times(numbers@, a) > 0 {
                since
            } else {
                old(gap)@[a]
            },
{
    let ghost before = gap@;
    let mut i: usize = 0;
    while i < 6
        invariant
            i <= 6,
            forall|i: int| 0 <= i < 6 ==> #[trigger] numbers@[i] <= 56,
            forall|a: int|
                0 <= a < 57 ==> #[trigger] gap@[a] == if times(numbers@.take(i as int), a) > 0 {
                    since
                } else {
                    before[a]
                },
        decreases 6 - i,
    {
        assert(numbers@.take(i + 1).drop_last() =~= numbers@.take(i as int));
        gap[numbers[i] as usize] = since;
        i += 1;
    }
    assert(numbers@.take(6) =~= numbers@);
}

/// No ball above 56 was drawn.
pub open spec fn no_ball_above(draws: Seq<Draw>) -> bool {
    forall|i: int, j: int|
        0 <= i < draws.len() && 0 <= j < 6 ==> #[trigger] draws[i].numbers@[j] <= 56
}

/// No ball above 56 was drawn, and the number of draws and each count of a number
/// or of two numbers together fit their type.
pub open spec fn countable(draws: Seq<Draw>) -> bool {
    &&& draws.len() <= u32::MAX
    &&& no_ball_above(draws)
    &&& forall|a: int| 0 <= a < 57 ==> #[trigger] frequency(draws, a) <= u32::MAX
    &&& forall|a: int, b: int|
        0 <= a < 57 && 0 <= b < 57 ==> #[trigger] together(draws, a, b) <= u32::MAX
}

/// Counts the numbers of the draws from position `from` on.
fn count_numbers(draws: &[Draw], from: usize) -> (counts: [u64; 57])
    requires
        draws@.len() <= u32::MAX,
        no_ball_above(draws@),
        from <= draws@.len(),
    ensures
        forall|a: int|
            0 <= a < 57 ==> #[trigger] counts@[a] == frequency(draws@.skip(from as int), a),
{
    let mut counts: [u64; 57] = [0;57];
    let ghost counted = draws@.skip(from as int);
    let mut i: usize = from;
    assert(counted.take(0) =~= Seq::empty());
    while i < draws.len()
        invariant
            from <= i <= draws@.len(),
            draws@.len() <= u32::MAX,
            no_ball_above(draws@),
            counted == draws@.skip(from as int),
            forall|a: int|
                0 <= a < 57 ==> #[trigger] counts@[a] == frequency(counted.take(i - from), a),
        decreases draws@.len() - i,
    {
        assert(counted.take(i - from + 1).drop_last() =~= counted.take(i - from));
        assert(counted.take(i - from + 1).last() == draws@[i as int]);
        assert forall|a: int| 0 <= a < 57 implies #[trigger] counts@[a] + 6 <= u64::MAX by {
            lemma_counts_fit(counted.take(i - from), a, a);
        }
        add_counts(&mut counts, &draws[i].numbers);
        i += 1;
    }
    assert(counted.take(i - from) =~= counted);
    counts
}

/// Measures the gaps.
fn measure_gaps(draws: &[Draw]) -> (gap: [u32; 57])
    requires
        countable(draws@),
    ensures
        forall|a: int| 0 <= a < 57 ==> #[trigger] gap@[a] == gap_since(draws@, a),
{
    let n: usize = draws.len();
    let mut gap: [u32; 57] = [n as u32;57];
    let mut i: usize = 0;
    while i < n
        invariant
            i <= n == draws@.len(),
            countable(draws@),
            forall|a: int|
                0 <= a < 57 ==> #[trigger] gap@[a] == gap_since(draws@.take(i as int), a) + (n - i),
        decreases n - i,
    {
        assert(draws@.take(i + 1).drop_last() =~= draws@.take(i as int));
        assert(draws@.take(i + 1).last() == draws@[i as int]);
        set_gaps(&mut gap, &draws[i].numbers, (n - 1 - i) as u32);
        i += 1;
    }
    assert(draws@.take(i as int) =~= draws@);
    gap
}

/// The pairs of `x` and `y` among the pairs of a position before `i` with any,
/// and of position `i` with one before `j`.
spec fn crossed(numbers: Seq<u8>, i: int, j: int, x: int, y: int) -> nat {
    if x == y {
        0
    } else {
        times(numbers.take(i), x) * times(numbers, y) + if i < numbers.len() && numbers[i] == x {
            times(numbers.take(j), y)
        } else {
            0
        }
    }
}

proof fn lemma_times_take(numbers: Seq<u8>, i: int, a: int)
    requires
        0 <= i <= numbers.len(),
    ensures
        times(numbers.take(i), a) <= times(numbers, a),
        i < numbers.len() ==> times(numbers.take(i + 1), a) == times(numbers.take(i), a)
            + if numbers[i] == a {
            1nat
        } else {
            0
        },
    decreases numbers.len() - i,
{
    if i < numbers.len() {
        assert(numbers.take(i + 1).drop_last() =~= numbers.take(i));
        lemma_times_take(numbers, i + 1, a);
    } else {
        assert(numbers.take(i) =~= numbers);
    }
}

proof fn lemma_crossed(numbers: Seq<u8>, i: int, j: int, x: int, y: int)
    requires
        numbers.len() == 6,
        0 <= i < 6,
        0 <= j <= 6,
    ensures
        crossed(numbers, i, j, x, y) <= 9,
        j < 6 ==> crossed(numbers, i, j + 1, x, y) == crossed(numbers, i, j, x, y) + if x != y
            && numbers[i] == x && numbers[j] == y {
            1nat
        } else {
            0
        },
        crossed(numbers, i, 6, x, y) == crossed(numbers, i + 1, 0, x, y),
{
    lemma_times_take(numbers, i, x);
    lemma_times_take(numbers, i + 1, x);
    lemma_times_take(numbers, j, y);
    lemma_times_bounds(numbers, x, y);
    assert(numbers.take(6) =~= numbers);
    assert(numbers.take(0) =~= Seq::empty());
    let p = times(numbers.take(i), x);
    let q = times(numbers.take(j), y);
    let t = times(numbers, x);
    let u = times(numbers, y);
    assert((p + 1) * u == p * u + u) by (nonlinear_arith);
    if x != y {
        if numbers[i] == x {
            assert(p * u + q <= 9) by (nonlinear_arith)
                requires
                    p + 1 <= t,
                    q <= u,
                    t + u <= 6,
                    0 <= p,
                    0 <= u,
            ;
        } else {
            assert(p * u <= 9) by (nonlinear_arith)
                requires
                    p <= t,
                    t + u <= 6,
                    0 <= p,
                    0 <= u,
            ;
        }
    }
}

/// Adds to the count of each two numbers how often they are drawn together.
fn add_pairs(table: &mut Vec<u64>, numbers: &[u8; 6])
    requires
        old(table)@.len() == 57 * 57,
        forall|i: int| 0 <= i < 6 ==> #[trigger] numbers@[i] <= 56,
        forall|k: int| 0 <= k < 57 * 57 ==> #[trigger] old(table)@[k] + 9 <= u64::MAX,
    ensures
        final(table)@.len() == 57 * 57,
        forall|k: int|
            0 <= k < 57 * 57 ==> #[trigger] final(table)@[k] == old(table)@[k] + if k / 57 == k
                % 57 {
                0
            } else {
                (times(numbers@, k / 57) * times(numbers@, k % 57)) as int
            },
{
    let ghost before = table@;
    let mut i: usize = 0;
    assert forall|k: int| 0 <= k < 57 * 57 implies #[trigger] table@[k] == before[k] + crossed(
        numbers@,
        0,
        0,
        k / 57,
        k % 57,
    ) by {
        assert(numbers@.take(0) =~= Seq::empty());
        assert(times(numbers@.take(0), k / 57) == 0);
        let u = times(numbers@, k % 57);
        assert(0 * u == 0) by (nonlinear_arith);
    }
    while i < 6
        invariant
            i <= 6,
            table@.len() == 57 * 57,
            before.len() == 57 * 57,
            forall|i: int| 0 <= i < 6 ==> #[trigger] numbers@[i] <= 56,
            forall|k: int| 0 <= k < 57 * 57 ==> #[trigger] before[k] + 9 <= u64::MAX,
            forall|k: int|
                0 <= k < 57 * 57 ==> #[trigger] table@[k] == before[k] + crossed(
                    numbers@,
                    i as int,
                    0,
                    k / 57,
                    k % 57,
                ),
        decreases 6 - i,
    {
        let a: usize = numbers[i] as usize;
        let mut j: usize = 0;
        while j < 6
            invariant
                i < 6,
                j <= 6,
                a == numbers@[i as int] <= 56,
                table@.len() == 57 * 57,
                before.len() == 57 * 57,
                forall|i: int| 0 <= i < 6 ==> #[trigger] numbers@[i] <= 56,
                forall|k: int| 0 <= k < 57 * 57 ==> #[trigger] before[k] + 9 <= u64::MAX,
                forall|k: int|
                    0 <= k < 57 * 57 ==> #[trigger] table@[k] == before[k] + crossed(
                        numbers@,
                        i as int,
                        j as int,
                        k / 57,
                        k % 57,
                    ),
            decreases 6 - j,
        {
            let b: usize = numbers[j] as usize;
            let ghost earlier = table@;
            let ghost at = a * 57 + b;
            assert(at / 57 == a && at % 57 == b);
            proof {
                lemma_crossed(numbers@, i as int, j as int, a as int, b as int);
                if a != b {
                    assert(crossed(numbers@, i as int, j + 1, a as int, b as int) <= 9) by {
                        lemma_crossed(numbers@, i as int, j + 1, a as int, b as int);
                    }
                }
            }
            if a != b {
                let count: u64 = table[a * 57 + b];
                table.set(a * 57 + b, count + 1);
            }
            assert forall|k: int| 0 <= k < 57 * 57 implies #[trigger] table@[k] == before[k]
                + crossed(numbers@, i as int, j + 1, k / 57, k % 57) by {
                lemma_crossed(numbers@, i as int, j as int, k / 57, k % 57);
                assert(earlier[k] == before[k] + crossed(
                    numbers@,
                    i as int,
                    j as int,
                    k / 57,
                    k % 57,
                ));
            }
            j += 1;
        }
        assert forall|k: int| 0 <= k < 57 * 57 implies #[trigger] table@[k] == before[k] + crossed(
            numbers@,
            i + 1,
            0,
            k / 57,
            k % 57,
        ) by {
            lemma_crossed(numbers@, i as int, 6, k / 57, k % 57);
        }
        i += 1;
    }
    assert(numbers@.take(6) =~= numbers@);
}

/// Counts each two numbers together, in 57 rows of 57.
fn count_pairs(draws: &[Draw]) -> (table: Vec<u64>)
    requires
        draws@.len() <= u32::MAX,
        no_ball_above(draws@),
    ensures
        table@.len() == 57 * 57,
        forall|k: int|
            0 <= k < 57 * 57 ==> #[trigger] table@[k] == together(draws@, k / 57, k % 57),
{
    let mut table: Vec<u64> = vec![0u64;57 * 57];
    let mut i: usize = 0;
    while i < draws.len()
        invariant
            i <= draws@.len() <= u32::MAX,
            no_ball_above(draws@),
            table@.len() == 57 * 57,
            forall|k: int|
                0 <= k < 57 * 57 ==> #[trigger] table@[k] == together(
                    draws@.take(i as int),
                    k / 57,
                    k % 57,
                ),
        decreases draws@.len() - i,
    {
        assert(draws@.take(i + 1).drop_last() =~= draws@.take(i as int));
        assert(draws@.take(i + 1).last() == draws@[i as int]);
        assert forall|k: int| 0 <= k < 57 * 57 implies #[trigger] table@[k] + 9 <= u64::MAX by {
            lemma_counts_fit(draws@.take(i as int), k / 57, k % 57);
        }
        add_pairs(&mut table, &draws[i].numbers);
        i += 1;
    }
    assert(draws@.take(i as int) =~= draws@);
    table
}

/// The counts in the type they are kept in.
fn narrow_counts(wide: &[u64; 57]) -> (counts: [u32; 57])
    requires
        forall|a: int| 0 <= a < 57 ==> #[trigger] wide@[a] <= u32::MAX,
    ensures
        forall|a: int| 0 <= a < 57 ==> #[trigger] counts@[a] == wide@[a],
{
    let mut counts: [u32; 57] = [0;57];
    let mut a: usize = 0;
    while a < 57
        invariant
            a <= 57,
            forall|a: int| 0 <= a < 57 ==> #[trigger] wide@[a] <= u32::MAX,
            forall|x: int| 0 <= x < a ==> #[trigger] counts@[x] == wide@[x],
        decreases 57 - a,
    {
        counts[a] = wide[a] as u32;
        a += 1;
    }
    counts
}

/// The counts of each two numbers together in the type they are kept in.
fn narrow_pairs(draws: &[Draw]) -> (pairs: Pairs)
    requires
        countable(draws@),
    ensures
        forall|a: int, b: int|
            0 <= a < 57 && 0 <= b < 57 ==> #[trigger] pairs.at(a, b) == together(draws@, a, b),
{
    let wide: Vec<u64> = count_pairs(draws);
    let mut table: Vec<u32> = Vec::new();
    let mut k: usize = 0;
    while k < 57 * 57
        invariant
            k <= 57 * 57,
            countable(draws@),
            wide@.len() == 57 * 57,
            forall|k: int|
                0 <= k < 57 * 57 ==> #[trigger] wide@[k] == together(draws@, k / 57, k % 57),
            table@.len() == k,
            forall|x: int|
                0 <= x < k ==> #[trigger] table@[x] == together(draws@, x / 57, x % 57),
        decreases 57 * 57 - k,
    {
        assert(wide@[k as int] == together(draws@, k as int / 57, k as int % 57));
        table.push(wide[k] as u32);
        k += 1;
    }
    let pairs: Pairs = Pairs { counts: table };
    assert forall|a: int, b: int| 0 <= a < 57 && 0 <= b < 57 implies #[trigger] pairs.at(a, b)
        == together(draws@, a, b) by {
        let k = a * 57 + b;
        assert(k / 57 == a && k % 57 == b);
        assert(pairs.counts@[k] == together(draws@, k / 57, k % 57));
    }
    pairs
}

fn balls_are_known(draws: &[Draw]) -> (b: bool)
    ensures
        b == no_ball_above(draws@),
{
    let mut i: usize = 0;
    while i < draws.len()
        invariant
            i <= draws@.len(),
            forall|x: int, j: int|
                0 <= x < i && 0 <= j < 6 ==> #[trigger] draws@[x].numbers@[j] <= 56,
        decreases draws@.len() - i,
    {
        let mut j: usize = 0;
        while j < 6
            invariant
                i < draws@.len(),
                j <= 6,
                forall|x: int, j: int|
                    0 <= x < i && 0 <= j < 6 ==> #[trigger] draws@[x].numbers@[j] <= 56,
                forall|y: int| 0 <= y < j ==> #[trigger] draws@[i as int].numbers@[y] <= 56,
            decreases 6 - j,
        {
            if draws[i].numbers[j] > 56 {
                assert(draws@[i as int].numbers@[j as int] > 56);
                return false;
            }
            j += 1;
        }
        i += 1;
    }
    true
}

/// Whether statistics can be made of the draws: no ball above 56 was drawn, and
/// the counts fit their type.
pub fn can_describe(draws: &[Draw]) -> (b: bool)
    ensures
        b == countable(draws@),
{
    if draws.len() as u64 > u32::MAX as u64 || !balls_are_known(draws) {
        return false;
    }
    assert(draws@.skip(0) =~= draws@);
    let counts: [u64; 57] = count_numbers(draws, 0);
    let mut a: usize = 0;
    while a < 57
        invariant
            a <= 57,
            forall|x: int| 0 <= x < 57 ==> #[trigger] counts@[x] == frequency(draws@, x),
            forall|x: int| 0 <= x < a ==> #[trigger] frequency(draws@, x) <= u32::MAX,
        decreases 57 - a,
    {
        assert(counts@[a as int] == frequency(draws@, a as int));
        if counts[a] > u32::MAX as u64 {
            return false;
        }
        a += 1;
    }
    let table: Vec<u64> = count_pairs(draws);
    let mut k: usize = 0;
    while k < 57 * 57
        invariant
            k <= 57 * 57,
            table@.len() == 57 * 57,
            forall|k: int|
                0 <= k < 57 * 57 ==> #[trigger] table@[k] == together(draws@, k / 57, k % 57),
            forall|x: int| 0 <= x < k ==> #[trigger] table@[x] <= u32::MAX,
        decreases 57 * 57 - k,
    {
        if table[k] > u32::MAX as u64 {
            let ghost x = k as int / 57;
            let ghost y = k as int % 57;
            assert(table@[k as int] == together(draws@, x, y));
            assert(0 <= x < 57 && 0 <= y < 57);
            return false;
        }
        k += 1;
    }
    assert forall|x: int, y: int| 0 <= x < 57 && 0 <= y < 57 implies #[trigger] together(
        draws@,
        x,
        y,
    ) <= u32::MAX by {
        let at = x * 57 + y;
        assert(at / 57 == x && at % 57 == y);
        assert(table@[at] <= u32::MAX);
    }
    true
}

/// The sum of six numbers.
fn add_up(numbers: &[u8; 6]) -> (total: u32)
    ensures
        total == sum(numbers@),
        total == sum(numbers@) as u32,
{
    let mut total: u32 = 0;
    let mut i: usize = 0;
    while i < 6
        invariant
            i <= 6,
            total <= 255 * i,
            total == sum(numbers@.take(i as int)),
        decreases 6 - i,
    {
        assert(numbers@.take(i + 1).drop_last() =~= numbers@.take(i as int));
        total = total + numbers[i] as u32;
        i += 1;
    }
    assert(numbers@.take(6) =~= numbers@);
    total
}

/// The sums of the draws in ascending order.
fn ascending_sums(draws: &[Draw]) -> (ordered: Vec<u32>)
    ensures
        ordered@ == sorted_by_key(sums(draws@), own_key::<u32>()),
        ordered@.len() == draws@.len(),
{
    let mut all: Vec<u32> = Vec::new();
    let mut i: usize = 0;
    while i < draws.len()
        invariant
            i <= draws@.len(),
            all@.len() == i,
            forall|j: int| 0 <= j < i ==> #[trigger] all@[j] == sums(draws@)[j],
        decreases draws@.len() - i,
    {
        all.push(add_up(&draws[i].numbers));
        i += 1;
    }
    assert(all@ =~= sums(draws@));
    proof {
        lemma_sorted_by_key(all@, own_key::<u32>());
    }
    sort_by_key(all)
}

/// The largest of the entries 1 to 56.
fn largest(of: &[u32; 57]) -> (m: u32)
    ensures
        is_largest(m, of@),
{
    let mut m: u32 = of[1];
    let mut a: usize = 1;
    while a < 56
        invariant
            1 <= a <= 56,
            forall|x: int| 1 <= x <= a ==> #[trigger] of@[x] <= m,
            exists|x: int| 1 <= x <= a && #[trigger] of@[x] == m,
        decreases 56 - a,
    {
        a += 1;
        if of[a] > m {
            m = of[a];
            assert(of@[a as int] == m);
        }
    }
    m
}

/// The popularity of a number in tenths: ten, and more for a day of a month, for
/// a month of a year and for a "lucky" number.
pub open spec fn popularity_of(n: int) -> int {
    10 + (if n <= 31 {
        8int
    } else {
        0
    }) + (if n <= 12 {
        5int
    } else {
        0
    }) + (if n == 3 || n == 7 || n == 13 || n == 21 {
        4int
    } else {
        0
    })
}

/// A number that the square of every popularity divides.
pub const STERN_SCALE: u64 = 4_666_256_100;

/// Whether `m` is the partner that was drawn most often together with `n`, the
/// lowest of them where there are several.
pub open spec fn is_best_pair(cooc: Pairs, n: int, m: int) -> bool {
    &&& 1 <= m <= 56
    &&& m != n
    &&& forall|b: int|
        1 <= b <= 56 && b != n ==> {
            &&& #[trigger] cooc.at(n, b) <= cooc.at(n, m)
            &&& b < m ==> cooc.at(n, b) < cooc.at(n, m)
        }
}

impl Stats {
    /// The statistics of at least one draw.
    pub fn new(draws: &[Draw]) -> (st: Stats)
        requires
            draws@.len() > 0,
            countable(draws@),
        ensures
            st.describes(draws@),
    {
        let n: usize = draws.len();
        let from: usize = if n <= WINDOW {
            0
        } else {
            n - WINDOW
        };
        assert(draws@.skip(0) =~= draws@);
        let all: [u64; 57] = count_numbers(draws, 0);
        let newest: [u64; 57] = count_numbers(draws, from);
        assert forall|a: int| 0 <= a < 57 implies #[trigger] all@[a] <= u32::MAX by {
            assert(all@[a] == frequency(draws@, a));
        }
        assert forall|a: int| 0 <= a < 57 implies #[trigger] newest@[a] <= u32::MAX by {
            lemma_counts_fit(window(draws@), a, a);
        }
        let freq: [u32; 57] = narrow_counts(&all);
        let recent: [u32; 57] = narrow_counts(&newest);
        let gap: [u32; 57] = measure_gaps(draws);
        let cooc: Pairs = narrow_pairs(draws);
        let ordered: Vec<u32> = ascending_sums(draws);
        let last: &Draw = &draws[n - 1];
        let lo: usize = (n as u64 * 15 / 100) as usize;
        let hi: usize = (n as u64 * 85 / 100) as usize;
        Stats {
            n,
            contest: last.contest,
            date: last.date.clone(),
            last: last.numbers,
            last_pot: last.pot,
            freq,
            recent,
            max_gap: largest(&gap),
            gap,
            cooc,
            sum_lo: ordered[lo],
            sum_hi: ordered[hi],
        }
    }

    /// How often `a` and `b` were drawn together.
    pub fn cooc(&self, a: u8, b: u8) -> (count: u32)
        requires
            a * 57 + b < 57 * 57,
        ensures
            count == self.cooc.at(a as int, b as int),
    {
        proof {
            use_type_invariant(&self.cooc);
        }
        self.cooc.counts[a as usize * 57 + b as usize]
    }

    /// Denominator of the weighted strategy: sum(freq[n] + 1).
    pub fn f_den(&self) -> (den: u32)
        requires
            6 * self.n + 56 <= u32::MAX,
        ensures
            den == 6 * self.n + 56,
    {
        6 * self.n as u32 + 56
    }

    /// Denominator of the recent strategy: sum(recent[n] + 1).
    pub fn r_den(&self) -> (den: u32)
        ensures
            den == 6 * (if self.n < WINDOW {
                self.n as int
            } else {
                WINDOW as int
            }) + 56,
    {
        let counted: usize = if self.n < WINDOW {
            self.n
        } else {
            WINDOW
        };
        6 * counted as u32 + 56
    }

    /// Rank of each number by frequency (1 = hottest; ties by lower number).
    pub fn rank(&self) -> (r: [u32; 57])
        ensures
            r@[0] == 0,
            forall|n: int|
                1 <= n <= 56 ==> #[trigger] r@[n] == place(widened(self.freq@), n) + 1,
    {
        ranks(&widen(&self.freq))
    }

    /// Stern-Cover popularity model, in tenths: birthdays and "lucky" numbers.
    pub fn popularity(n: u8) -> (tenths: u32)
        ensures
            tenths == popularity_of(n as int),
    {
        let mut p: u32 = 10;
        if n <= 31 {
            p += 8;
        }
        if n <= 12 {
            p += 5;
        }
        if n == 3 || n == 7 || n == 13 || n == 21 {
            p += 4;
        }
        p
    }

    /// Stern-Cover weight: the inverse square of the popularity, in units of
    /// which `STERN_SCALE` make the weight of a popularity of one tenth.
    pub fn stern_weight(n: u8) -> (w: u64)
        ensures
            w * (popularity_of(n as int) * popularity_of(n as int)) == STERN_SCALE,
    {
        let p: u64 = Self::popularity(n) as u64;
        assert(p * p <= 729) by (nonlinear_arith)
            requires
                10 <= p <= 27,
        ;
        assert(p * p > 0) by (nonlinear_arith)
            requires
                10 <= p <= 27,
        ;
        let w: u64 = STERN_SCALE / (p * p);
        assert(w * (p * p) == STERN_SCALE) by (nonlinear_arith)
            requires
                p == 10 || p == 18 || p == 22 || p == 23 || p == 27,
                w == STERN_SCALE / (p * p) as u64,
        ;
        w
    }

    /// Balanced-strategy weight: (freq + 1) * (1 + gap / max gap), in units of
    /// which max gap (one, if it is zero) make one.
    pub fn balanced_weight(&self, n: u8) -> (w: u128)
        requires
            n < 57,
        ensures
            w == balanced_weight_of(*self, n as int),
    {
        let unit: u128 = if self.max_gap == 0 {
            1
        } else {
            self.max_gap as u128
        };
        let count: u128 = self.freq[n as usize] as u128 + 1;
        let waited: u128 = unit + self.gap[n as usize] as u128;
        assert(count * waited <= 0x1_0000_0000 * 0x2_0000_0000) by (nonlinear_arith)
            requires
                count <= 0x1_0000_0000,
                waited <= 0x2_0000_0000,
        ;
        count * waited
    }

    /// The partner drawn together with n most often; the lowest where there are
    /// several.
    pub fn best_pair(&self, n: u8) -> (best: (u8, u32))
        requires
            n <= 56,
        ensures
            is_best_pair(self.cooc, n as int, best.0 as int),
            best.1 == self.cooc.at(n as int, best.0 as int),
    {
        let mut m: u8 = if n == 1 {
            2
        } else {
            1
        };
        let mut most: u32 = self.cooc(n, m);
        let mut b: u8 = m;
        while b < 56
            invariant
                n <= 56,
                1 <= m <= b <= 56,
                m != n,
                most == self.cooc.at(n as int, m as int),
                forall|x: int|
                    1 <= x <= b && x != n ==> {
                        &&& #[trigger] self.cooc.at(n as int, x) <= most
                        &&& x < m ==> self.cooc.at(n as int, x) < most
                    },
            decreases 56 - b,
        {
            b += 1;
            if b != n {
                let count: u32 = self.cooc(n, b);
                if count > most {
                    m = b;
                    most = count;
                }
            }
        }
        (m, most)
    }
}

/// The counts in a wider type.
pub open spec fn widened(counts: Seq<u32>) -> Seq<u64> {
    counts.map_values(|count: u32| count as u64)
}

/// The counts in a wider type.
pub fn widen(counts: &[u32; 57]) -> (wide: [u64; 57])
    ensures
        wide@ == widened(counts@),
{
    let mut wide: [u64; 57] = [0;57];
    let mut n: usize = 0;
    while n < 57
        invariant
            n <= 57,
            forall|x: int| 0 <= x < n ==> #[trigger] wide@[x] == counts@[x],
        decreases 57 - n,
    {
        wide[n] = counts[n] as u64;
        n += 1;
    }
    assert(wide@ =~= widened(counts@));
    wide
}

/// (freq + 1) * (1 + gap / max gap), in units of which max gap (one, if it is
/// zero) make one.
pub open spec fn balanced_weight_of(st: Stats, n: int) -> int {
    let unit = if st.max_gap == 0 {
        1
    } else {
        st.max_gap as int
    };
    (st.freq@[n] + 1) * (unit + st.gap@[n])
}

/// The sum of `f` over the numbers 1 to `upto`.
pub open spec fn total(f: spec_fn(int) -> int, upto: nat) -> int
    decreases upto,
{
    if upto == 0 {
        0
    } else {
        total(f, (upto - 1) as nat) + f(upto as int)
    }
}

/// Every number drawn is a ball of 1 to 56.
pub open spec fn all_balls(draws: Seq<Draw>) -> bool {
    forall|i: int, j: int|
        0 <= i < draws.len() && 0 <= j < 6 ==> 1 <= #[trigger] draws[i].numbers@[j] <= 56
}

/// No draw has a number twice.
pub open spec fn all_different(draws: Seq<Draw>) -> bool {
    forall|i: int, a: int| 0 <= i < draws.len() ==> #[trigger] times(draws[i].numbers@, a) <= 1
}

/// Sums of what is equal are equal.
pub proof fn lemma_total_equal(f: spec_fn(int) -> int, g: spec_fn(int) -> int, upto: nat)
    requires
        forall|a: int| 1 <= a <= upto ==> #[trigger] f(a) == g(a),
    ensures
        total(f, upto) == total(g, upto),
    decreases upto,
{
    if upto > 0 {
        lemma_total_equal(f, g, (upto - 1) as nat);
    }
}

proof fn lemma_total_sum(
    f: spec_fn(int) -> int,
    g: spec_fn(int) -> int,
    h: spec_fn(int) -> int,
    upto: nat,
)
    requires
        forall|a: int| 1 <= a <= upto ==> #[trigger] h(a) == f(a) + g(a),
    ensures
        total(h, upto) == total(f, upto) + total(g, upto),
    decreases upto,
{
    if upto > 0 {
        lemma_total_sum(f, g, h, (upto - 1) as nat);
    }
}

proof fn lemma_total_multiple(f: spec_fn(int) -> int, g: spec_fn(int) -> int, c: int, upto: nat)
    requires
        forall|a: int| 1 <= a <= upto ==> #[trigger] g(a) == c * f(a),
    ensures
        total(g, upto) == c * total(f, upto),
    decreases upto,
{
    if upto > 0 {
        lemma_total_multiple(f, g, c, (upto - 1) as nat);
        let t = total(f, (upto - 1) as nat);
        let last = f(upto as int);
        assert(c * (t + last) == c * t + c * last) by (nonlinear_arith);
    } else {
        assert(c * 0 == 0) by (nonlinear_arith);
    }
}

proof fn lemma_total_of_one(x: int, upto: nat)
    ensures
        total(
            |a: int|
                if a == x {
                    1
                } else {
                    0
                },
            upto,
        ) == if 1 <= x <= upto {
            1int
        } else {
            0
        },
    decreases upto,
{
    if upto > 0 {
        lemma_total_of_one(x, (upto - 1) as nat);
    }
}

proof fn lemma_total_times(numbers: Seq<u8>)
    requires
        forall|i: int| 0 <= i < numbers.len() ==> 1 <= #[trigger] numbers[i] <= 56,
    ensures
        total(|a: int| times(numbers, a) as int, 56) == numbers.len(),
    decreases numbers.len(),
{
    let h = |a: int| times(numbers, a) as int;
    if numbers.len() == 0 {
        lemma_total_multiple(h, h, 0, 56);
    } else {
        let rest = numbers.drop_last();
        let x = numbers.last() as int;
        let f = |a: int| times(rest, a) as int;
        let g = |a: int|
            if a == x {
                1int
            } else {
                0
            };
        lemma_total_times(rest);
        lemma_total_of_one(x, 56);
        lemma_total_sum(f, g, h, 56);
        lemma_total_equal(
            |a: int|
                if a == x {
                    1
                } else {
                    0
                },
            g,
            56,
        );
    }
}

/// Every draw counts six: the frequencies of all balls add up to six per draw.
pub proof fn law_frequencies_add_up(draws: Seq<Draw>)
    requires
        all_balls(draws),
    ensures
        total(|a: int| frequency(draws, a) as int, 56) == 6 * draws.len(),
    decreases draws.len(),
{
    let h = |a: int| frequency(draws, a) as int;
    if draws.len() == 0 {
        lemma_total_multiple(h, h, 0, 56);
    } else {
        let rest = draws.drop_last();
        let numbers = draws.last().numbers@;
        let f = |a: int| frequency(rest, a) as int;
        let g = |a: int| times(numbers, a) as int;
        law_frequencies_add_up(rest);
        lemma_total_times(numbers);
        lemma_total_sum(f, g, h, 56);
    }
}

/// The denominators are the sums of the weights: of freq + 1 for the weighted
/// strategy and of recent + 1 for the recent one.
pub proof fn law_denominators(st: Stats, draws: Seq<Draw>)
    requires
        all_balls(draws),
        st.describes(draws),
    ensures
        total(|a: int| st.freq@[a] + 1, 56) == 6 * st.n + 56,
        total(|a: int| st.recent@[a] + 1, 56) == 6 * (if st.n < WINDOW {
            st.n as int
        } else {
            WINDOW as int
        }) + 56,
{
    let one = |a: int| 1int;
    lemma_total_of_ones(56);
    law_frequencies_add_up(draws);
    lemma_total_sum(
        |a: int| frequency(draws, a) as int,
        one,
        |a: int| st.freq@[a] + 1,
        56,
    );
    let newest = window(draws);
    assert(all_balls(newest));
    law_frequencies_add_up(newest);
    lemma_total_sum(
        |a: int| frequency(newest, a) as int,
        one,
        |a: int| st.recent@[a] + 1,
        56,
    );
}

proof fn lemma_total_of_ones(upto: nat)
    ensures
        total(|a: int| 1int, upto) == upto,
    decreases upto,
{
    if upto > 0 {
        lemma_total_of_ones((upto - 1) as nat);
    }
}

/// Two numbers are together as often as the other way round.
pub proof fn law_together_is_symmetric(draws: Seq<Draw>, a: int, b: int)
    ensures
        together(draws, a, b) == together(draws, b, a),
    decreases draws.len(),
{
    if draws.len() > 0 && a != b {
        law_together_is_symmetric(draws.drop_last(), a, b);
        let x = times(draws.last().numbers@, a);
        let y = times(draws.last().numbers@, b);
        assert(x * y == y * x) by (nonlinear_arith);
    }
}

/// In draws of six different balls, each time a ball is drawn there are five
/// others: its pair counts add up to five times its frequency.
pub proof fn law_pairs_of_a_number_add_up(draws: Seq<Draw>, a: int)
    requires
        all_balls(draws),
        all_different(draws),
        1 <= a <= 56,
    ensures
        total(|b: int| together(draws, a, b) as int, 56) == 5 * frequency(draws, a),
    decreases draws.len(),
{
    let h = |b: int| together(draws, a, b) as int;
    if draws.len() == 0 {
        lemma_total_multiple(h, h, 0, 56);
    } else {
        let rest = draws.drop_last();
        let numbers = draws.last().numbers@;
        let t = times(numbers, a) as int;
        let f = |b: int| together(rest, a, b) as int;
        let all = |b: int| times(numbers, b) as int;
        let one = |b: int|
            if b == a {
                1int
            } else {
                0
            };
        let others = |b: int|
            if b == a {
                0int
            } else {
                times(numbers, b) as int
            };
        let own = |b: int| t * one(b);
        let g = |b: int| t * others(b);
        assert(all_balls(rest));
        assert(all_different(rest));
        law_pairs_of_a_number_add_up(rest, a);
        lemma_total_times(numbers);
        lemma_total_of_one(a, 56);
        lemma_total_equal(
            |b: int|
                if b == a {
                    1
                } else {
                    0
                },
            one,
            56,
        );
        lemma_total_multiple(one, own, t, 56);
        assert forall|b: int| 1 <= b <= 56 implies #[trigger] all(b) == others(b) + own(b) by {
            assert(t * 1 == t && t * 0 == 0) by (nonlinear_arith);
        }
        lemma_total_sum(others, own, all, 56);
        lemma_total_multiple(others, g, t, 56);
        assert(t == times(draws[draws.len() - 1].numbers@, a) && t <= 1);
        assert(t * total(others, 56) == 5 * t) by (nonlinear_arith)
            requires
                0 <= t <= 1,
                total(others, 56) + t * 1 == 6,
        ;
        assert forall|b: int| 1 <= b <= 56 implies #[trigger] h(b) == f(b) + g(b) by {
            assert(t * 0 == 0) by (nonlinear_arith);
        }
        lemma_total_sum(f, g, h, 56);
    }
}

/// In draws of different balls, two of them are together at most as often as
/// either is drawn.
pub proof fn law_pairs_are_at_most_as_frequent(draws: Seq<Draw>, a: int, b: int)
    requires
        all_different(draws),
    ensures
        together(draws, a, b) <= frequency(draws, a),
        together(draws, a, b) <= frequency(draws, b),
    decreases draws.len(),
{
    if draws.len() > 0 && a != b {
        let rest = draws.drop_last();
        assert(all_different(rest));
        law_pairs_are_at_most_as_frequent(rest, a, b);
        let x = times(draws[draws.len() - 1].numbers@, a);
        let y = times(draws[draws.len() - 1].numbers@, b);
        assert(x * y <= x && x * y <= y) by (nonlinear_arith)
            requires
                0 <= x <= 1,
                0 <= y <= 1,
        ;
    }
}

/// Draws of six different balls make thirty ordered pairs each.
pub proof fn law_pairs_add_up(draws: Seq<Draw>)
    requires
        all_balls(draws),
        all_different(draws),
    ensures
        total(|a: int| total(|b: int| together(draws, a, b) as int, 56), 56) == 30 * draws.len(),
{
    let rows = |a: int| total(|b: int| together(draws, a, b) as int, 56);
    let f = |a: int| frequency(draws, a) as int;
    assert forall|a: int| 1 <= a <= 56 implies #[trigger] rows(a) == 5 * f(a) by {
        law_pairs_of_a_number_add_up(draws, a);
    }
    lemma_total_multiple(f, rows, 5, 56);
    law_frequencies_add_up(draws);
}

/// The gap of a number is zero exactly if the last draw has it, and the number
/// of draws exactly if none has it.
pub proof fn law_gaps(draws: Seq<Draw>, a: int)
    requires
        draws.len() > 0,
    ensures
        gap_since(draws, a) <= draws.len(),
        gap_since(draws, a) == 0 <==> times(draws.last().numbers@, a) > 0,
        gap_since(draws, a) == draws.len() <==> frequency(draws, a) == 0,
    decreases draws.len(),
{
    let rest = draws.drop_last();
    if rest.len() > 0 {
        law_gaps(rest, a);
    } else {
        assert(gap_since(rest, a) == 0);
        assert(frequency(rest, a) == 0);
    }
}

/// The draw that many draws before the last has the number, and none since.
pub proof fn law_gap_is_since_the_last_time(draws: Seq<Draw>, a: int)
    ensures
        forall|i: int|
            draws.len() - gap_since(draws, a) <= i < draws.len() ==> times(
                (#[trigger] draws[i]).numbers@,
                a,
            ) == 0,
        gap_since(draws, a) < draws.len() ==> times(
            draws[draws.len() - 1 - gap_since(draws, a)].numbers@,
            a,
        ) > 0,
    decreases draws.len(),
{
    if draws.len() > 0 && times(draws.last().numbers@, a) == 0 {
        let rest = draws.drop_last();
        law_gap_is_since_the_last_time(rest, a);
        law_gaps(draws, a);
        if rest.len() > 0 {
            law_gaps(rest, a);
        }
        assert forall|i: int|
            draws.len() - gap_since(draws, a) <= i < draws.len() implies times(
            (#[trigger] draws[i]).numbers@,
            a,
        ) == 0 by {
            if i < rest.len() {
                assert(rest[i] == draws[i]);
            }
        }
    }
}

/// The lower percentile is not above the higher one, and both are sums of draws.
pub proof fn law_percentiles(draws: Seq<Draw>, low: nat, high: nat)
    requires
        draws.len() > 0,
        low <= high < 100,
    ensures
        percentile(draws, low) <= percentile(draws, high),
        sums(draws).contains(percentile(draws, low)),
        sums(draws).contains(percentile(draws, high)),
{
    let all = sums(draws);
    let key = own_key::<u32>();
    let ordered = sorted_by_key(all, key);
    let n = draws.len() as int;
    let i = n * low / 100;
    let j = n * high / 100;
    lemma_sorted_by_key(all, key);
    lemma_sorted_members(all, key);
    assert(0 <= n * low <= n * high <= n * 99) by (nonlinear_arith)
        requires
            n > 0,
            low <= high < 100,
    ;
    assert(key(ordered[i]) <= key(ordered[j]));
    assert(all.contains(ordered[i]));
    assert(all.contains(ordered[j]));
}

proof fn lemma_counts_of_views(a: Seq<Draw>, b: Seq<Draw>, x: int, y: int)
    requires
        views(a) == views(b),
    ensures
        a.len() == b.len(),
        frequency(a, x) == frequency(b, x),
        gap_since(a, x) == gap_since(b, x),
        together(a, x, y) == together(b, x, y),
    decreases a.len(),
{
    assert(views(a).len() == a.len() && views(b).len() == b.len());
    if a.len() > 0 {
        assert(views(a).last() == a.last()@ && views(b).last() == b.last()@);
        assert(views(a).drop_last() =~= views(a.drop_last()));
        assert(views(b).drop_last() =~= views(b.drop_last()));
        lemma_counts_of_views(a.drop_last(), b.drop_last(), x, y);
    }
}

/// Whether draws can be counted depends on what they hold alone.
pub proof fn law_countability_depends_on_contents(a: Seq<Draw>, b: Seq<Draw>)
    requires
        views(a) == views(b),
        countable(a),
    ensures
        countable(b),
{
    assert(views(a).len() == a.len() && views(b).len() == b.len());
    assert forall|i: int, j: int| 0 <= i < b.len() && 0 <= j < 6 implies #[trigger] b[i].numbers@[j]
        <= 56 by {
        assert(views(a)[i] == a[i]@ && views(b)[i] == b[i]@);
        assert(a[i].numbers@[j] <= 56);
    }
    assert forall|x: int| 0 <= x < 57 implies #[trigger] frequency(b, x) <= u32::MAX by {
        lemma_counts_of_views(a, b, x, x);
    }
    assert forall|x: int, y: int| 0 <= x < 57 && 0 <= y < 57 implies #[trigger] together(b, x, y)
        <= u32::MAX by {
        lemma_counts_of_views(a, b, x, y);
    }
}

/// Statistics depend on what the draws hold alone.
pub proof fn law_statistics_depend_on_contents(st: Stats, a: Seq<Draw>, b: Seq<Draw>)
    requires
        a.len() > 0,
        views(a) == views(b),
        st.describes(a),
    ensures
        st.describes(b),
{
    assert(views(a).len() == a.len() && views(b).len() == b.len());
    assert(views(a).last() == a.last()@ && views(b).last() == b.last()@);
    assert(views(window(a)) =~= views(window(b))) by {
        assert forall|i: int| 0 <= i < window(a).len() implies views(window(a))[i] == views(
            window(b),
        )[i] by {
            let j = i + a.len() - window(a).len();
            assert(views(a)[j] == views(b)[j]);
        }
    }
    assert(sums(a) =~= sums(b)) by {
        assert forall|i: int| 0 <= i < a.len() implies sums(a)[i] == sums(b)[i] by {
            assert(views(a)[i] == views(b)[i]);
        }
    }
    assert forall|x: int| 0 <= x < 57 implies #[trigger] st.freq@[x] == frequency(b, x) by {
        lemma_counts_of_views(a, b, x, x);
    }
    assert forall|x: int| 0 <= x < 57 implies #[trigger] st.recent@[x] == frequency(
        window(b),
        x,
    ) by {
        lemma_counts_of_views(window(a), window(b), x, x);
    }
    assert forall|x: int| 0 <= x < 57 implies #[trigger] st.gap@[x] == gap_since(b, x) by {
        lemma_counts_of_views(a, b, x, x);
    }
    assert forall|x: int, y: int| 0 <= x < 57 && 0 <= y < 57 implies #[trigger] st.cooc.at(x, y)
        == together(b, x, y) by {
        lemma_counts_of_views(a, b, x, y);
    }
}

/// What a draw contributes to the counts, wherever it stands.
proof fn lemma_counts_without(draws: Seq<Draw>, i: int, x: int, y: int, k: int)
    requires
        0 <= i < draws.len(),
    ensures
        frequency(draws, x) == frequency(draws.remove(i), x) + times(draws[i].numbers@, x),
        x != y ==> together(draws, x, y) == together(draws.remove(i), x, y) + times(
            draws[i].numbers@,
            x,
        ) * times(draws[i].numbers@, y),
        with_key(sums(draws), own_key::<u32>(), k).len() == with_key(
            sums(draws.remove(i)),
            own_key::<u32>(),
            k,
        ).len() + if sum(draws[i].numbers@) as u32 == k {
            1nat
        } else {
            0
        },
    decreases draws.len(),
{
    let rest = draws.drop_last();
    let gone = draws.remove(i);
    assert(sums(draws).drop_last() =~= sums(rest));
    if i == draws.len() - 1 {
        assert(gone =~= rest);
    } else {
        lemma_counts_without(rest, i, x, y, k);
        assert(gone.drop_last() =~= rest.remove(i));
        assert(gone.last() == draws.last());
        assert(sums(gone).drop_last() =~= sums(rest.remove(i)));
    }
}

proof fn lemma_counts_of_reordered(a: Seq<Draw>, b: Seq<Draw>, x: int, y: int, k: int)
    requires
        a.to_multiset() == b.to_multiset(),
    ensures
        a.len() == b.len(),
        frequency(a, x) == frequency(b, x),
        together(a, x, y) == together(b, x, y),
        with_key(sums(a), own_key::<u32>(), k).len() == with_key(
            sums(b),
            own_key::<u32>(),
            k,
        ).len(),
    decreases a.len(),
{
    a.to_multiset_ensures();
    b.to_multiset_ensures();
    if a.len() == 0 {
        assert(sums(a) =~= sums(b));
    } else {
        let end = a.len() - 1;
        assert(a.contains(a[end]));
        assert(a.to_multiset().count(a[end]) > 0);
        assert(b.contains(a[end]));
        let i = choose|i: int| 0 <= i < b.len() && b[i] == a[end];
        assert(a.remove(end).to_multiset() == b.remove(i).to_multiset());
        lemma_counts_of_reordered(a.remove(end), b.remove(i), x, y, k);
        lemma_counts_without(a, end, x, y, k);
        lemma_counts_without(b, i, x, y, k);
    }
}

/// Frequencies, pair counts and percentiles do not depend on the order of the
/// draws.
pub proof fn law_counts_do_not_depend_on_order(
    a: Seq<Draw>,
    b: Seq<Draw>,
    x: int,
    y: int,
    percent: nat,
)
    requires
        a.to_multiset() == b.to_multiset(),
    ensures
        a.len() == b.len(),
        frequency(a, x) == frequency(b, x),
        together(a, x, y) == together(b, x, y),
        percentile(a, percent) == percentile(b, percent),
{
    let key = own_key::<u32>();
    lemma_counts_of_reordered(a, b, x, y, 0);
    lemma_sorted_by_key(sums(a), key);
    lemma_sorted_by_key(sums(b), key);
    assert forall|k: int| #[trigger]
        with_key(sorted_by_key(sums(a), key), key, k) == with_key(
            sorted_by_key(sums(b), key),
            key,
            k,
        ) by {
        let v = with_key(sums(a), key, k);
        let w = with_key(sums(b), key, k);
        lemma_counts_of_reordered(a, b, x, y, k);
        lemma_with_key_members(sums(a), key, k);
        lemma_with_key_members(sums(b), key, k);
        assert forall|i: int| 0 <= i < v.len() implies v[i] == w[i] by {
            assert(key(v[i]) == k && key(w[i]) == k);
        }
        assert(v =~= w);
    }
    lemma_ascending_unique(sorted_by_key(sums(a), key), sorted_by_key(sums(b), key), key);
}

/// Statistics of the same draws in another order differ at most in the gaps and
/// in what is said of the last draw, and, where there are more draws than the
/// window takes, in what is recent.
pub proof fn law_statistics_do_not_depend_on_order(
    st: Stats,
    other: Stats,
    a: Seq<Draw>,
    b: Seq<Draw>,
)
    requires
        a.to_multiset() == b.to_multiset(),
        st.describes(a),
        other.describes(b),
    ensures
        st.n == other.n,
        st.freq@ == other.freq@,
        st.sum_lo == other.sum_lo,
        st.sum_hi == other.sum_hi,
        forall|x: int, y: int|
            0 <= x < 57 && 0 <= y < 57 ==> #[trigger] st.cooc.at(x, y) == other.cooc.at(x, y),
        st.n <= WINDOW ==> st.recent@ == other.recent@,
{
    law_counts_do_not_depend_on_order(a, b, 0, 0, 15);
    law_counts_do_not_depend_on_order(a, b, 0, 0, 85);
    assert forall|x: int| 0 <= x < 57 implies #[trigger] st.freq@[x] == other.freq@[x] by {
        law_counts_do_not_depend_on_order(a, b, x, x, 0);
    }
    assert(st.freq@ =~= other.freq@);
    assert forall|x: int, y: int| 0 <= x < 57 && 0 <= y < 57 implies #[trigger] st.cooc.at(x, y)
        == other.cooc.at(x, y) by {
        law_counts_do_not_depend_on_order(a, b, x, y, 0);
    }
    if st.n <= WINDOW {
        assert forall|x: int| 0 <= x < 57 implies #[trigger] st.recent@[x]
            == other.recent@[x] by {
            law_counts_do_not_depend_on_order(a, b, x, x, 0);
        }
        assert(st.recent@ =~= other.recent@);
    }
}

/// A draw has a number as often as it is among its six.
pub proof fn law_times_counts_occurrences(numbers: Seq<u8>, a: u8)
    ensures
        times(numbers, a as int) == numbers.to_multiset().count(a),
    decreases numbers.len(),
{
    if numbers.len() == 0 {
        numbers.to_multiset_ensures();
        assert(!numbers.contains(a));
    } else {
        let rest = numbers.drop_last();
        law_times_counts_occurrences(rest, a);
        rest.to_multiset_ensures();
        assert(numbers =~= rest.push(numbers.last()));
    }
}

/// The counts of two histories one after the other add up.
pub proof fn law_counts_add_up(older: Seq<Draw>, newer: Seq<Draw>, x: int, y: int)
    ensures
        frequency(older + newer, x) == frequency(older, x) + frequency(newer, x),
        together(older + newer, x, y) == together(older, x, y) + together(newer, x, y),
    decreases newer.len(),
{
    if newer.len() == 0 {
        assert(older + newer =~= older);
    } else {
        law_counts_add_up(older, newer.drop_last(), x, y);
        assert((older + newer).drop_last() =~= older + newer.drop_last());
    }
}

/// What a single draw counts: a number as often as it has it, and two numbers as
/// often as one of the one and one of the other can be taken from it. The pair of
/// a number and itself does not count.
pub proof fn law_counts_of_one_draw(d: Draw, x: u8, y: u8)
    ensures
        frequency(seq![d], x as int) == d.numbers@.to_multiset().count(x),
        x != y ==> together(seq![d], x as int, y as int) == d.numbers@.to_multiset().count(x)
            * d.numbers@.to_multiset().count(y),
        x == y ==> together(seq![d], x as int, y as int) == 0,
        !d.numbers@.contains(x) ==> together(seq![d], x as int, y as int) == 0 && frequency(
            seq![d],
            x as int,
        ) == 0,
{
    law_times_counts_occurrences(d.numbers@, x);
    law_times_counts_occurrences(d.numbers@, y);
    d.numbers@.to_multiset_ensures();
    assert(seq![d].drop_last() =~= Seq::empty());
    assert(frequency(Seq::empty(), x as int) == 0);
    assert(together(Seq::empty(), x as int, y as int) == 0);
    let b = d.numbers@.to_multiset().count(y);
    assert(0 * b == 0) by (nonlinear_arith);
}

/// The sums are those of the six numbers of each draw, in the order of the draws.
pub proof fn law_sums(draws: Seq<Draw>, i: int)
    requires
        0 <= i < draws.len(),
    ensures
        sums(draws).len() == draws.len(),
        sums(draws)[i] == draws[i].numbers@[0] + draws[i].numbers@[1] + draws[i].numbers@[2]
            + draws[i].numbers@[3] + draws[i].numbers@[4] + draws[i].numbers@[5],
{
    let numbers = draws[i].numbers@;
    law_sum_adds_one_by_one(numbers.take(0), numbers[0]);
    assert(numbers.take(0).push(numbers[0]) =~= numbers.take(1));
    assert(numbers.take(1).push(numbers[1]) =~= numbers.take(2));
    assert(numbers.take(2).push(numbers[2]) =~= numbers.take(3));
    assert(numbers.take(3).push(numbers[3]) =~= numbers.take(4));
    assert(numbers.take(4).push(numbers[4]) =~= numbers.take(5));
    assert(numbers.take(5).push(numbers[5]) =~= numbers);
    law_sum_adds_one_by_one(numbers.take(1), numbers[1]);
    law_sum_adds_one_by_one(numbers.take(2), numbers[2]);
    law_sum_adds_one_by_one(numbers.take(3), numbers[3]);
    law_sum_adds_one_by_one(numbers.take(4), numbers[4]);
    law_sum_adds_one_by_one(numbers.take(5), numbers[5]);
}

/// One more number adds itself to a sum, and no number has the sum zero.
pub proof fn law_sum_adds_one_by_one(numbers: Seq<u8>, n: u8)
    ensures
        sum(numbers.push(n)) == sum(numbers) + n,
        numbers.len() == 0 ==> sum(numbers) == 0,
{
    assert(numbers.push(n).drop_last() =~= numbers);
}

/// The rank of a percentile: at most that percentage of the sums are smaller, and
/// more than it are not larger.
pub proof fn law_percentile_rank(draws: Seq<Draw>, percent: nat)
    requires
        draws.len() > 0,
        percent < 100,
    ensures
        sums(draws).filter(|s: u32| s < percentile(draws, percent)).len() <= draws.len()
            * percent as int / 100,
        sums(draws).filter(|s: u32| s <= percentile(draws, percent)).len() > draws.len()
            * percent as int / 100,
{
    let key = own_key::<u32>();
    let all = sums(draws);
    let ordered = sorted_by_key(all, key);
    let n = draws.len() as int;
    let i = n * percent as int / 100;
    assert(0 <= n * percent <= n * 99) by (nonlinear_arith)
        requires
            n > 0,
            percent < 100,
    ;
    lemma_sorted_by_key(all, key);
    law_sorting_keeps_items(all, key);
    let v = percentile(draws, percent);
    let below = |s: u32| s < percentile(draws, percent);
    let not_above = |s: u32| s <= percentile(draws, percent);
    lemma_filter_reordered(all, ordered, below);
    lemma_filter_reordered(all, ordered, not_above);
    assert forall|j: int| i <= j < n implies !below(#[trigger] ordered[j]) by {
        assert(key(ordered[i]) <= key(ordered[j]));
    }
    assert forall|j: int| 0 <= j < i + 1 implies not_above(#[trigger] ordered[j]) by {
        assert(key(ordered[j]) <= key(ordered[i]));
    }
    lemma_filter_prefix(ordered, i, below);
    lemma_filter_prefix(ordered, i + 1, not_above);
}

/// The sums between which balanced tickets lie: at most 15 in 100 of the sums of
/// the draws are below the lower one and more than 15 in 100 are not above it; of
/// the upper one the same holds with 85.
pub proof fn law_middle_of_the_sums(st: Stats, draws: Seq<Draw>)
    requires
        draws.len() > 0,
        st.describes(draws),
    ensures
        100 * sums(draws).filter(|s: u32| s < st.sum_lo).len() <= 15 * draws.len(),
        100 * sums(draws).filter(|s: u32| s <= st.sum_lo).len() > 15 * draws.len(),
        100 * sums(draws).filter(|s: u32| s < st.sum_hi).len() <= 85 * draws.len(),
        100 * sums(draws).filter(|s: u32| s <= st.sum_hi).len() > 85 * draws.len(),
        st.sum_lo <= st.sum_hi,
{
    law_percentile_rank(draws, 15);
    law_percentile_rank(draws, 85);
    law_percentiles(draws, 15, 85);
    assert((|s: u32| s < st.sum_lo) =~= (|s: u32| s < percentile(draws, 15)));
    assert((|s: u32| s <= st.sum_lo) =~= (|s: u32| s <= percentile(draws, 15)));
    assert((|s: u32| s < st.sum_hi) =~= (|s: u32| s < percentile(draws, 85)));
    assert((|s: u32| s <= st.sum_hi) =~= (|s: u32| s <= percentile(draws, 85)));
}

/// Recent is what was drawn in the newest 250 draws: older ones have no influence,
/// and every one of those counts.
pub proof fn law_recent_draws(st: Stats, older: Seq<Draw>, newest: Seq<Draw>, a: int)
    requires
        st.describes(older + newest),
        newest.len() == 250 || (newest.len() < 250 && older.len() == 0),
        0 <= a < 57,
    ensures
        st.recent@[a] == frequency(newest, a),
{
    assert(window(older + newest) =~= newest);
}

/// The number that has waited longest has waited for the largest gap, and no gap
/// is larger than the history is long.
pub proof fn law_largest_gap(st: Stats, draws: Seq<Draw>, a: int)
    requires
        draws.len() > 0,
        st.describes(draws),
        1 <= a <= 56,
    ensures
        st.gap@[a] <= st.max_gap <= draws.len(),
        st.gap@[a] == 0 <==> draws.last().numbers@.contains(a as u8),
        st.gap@[a] == draws.len() <==> st.freq@[a] == 0,
        exists|b: int| 1 <= b <= 56 && #[trigger] st.gap@[b] == st.max_gap,
{
    assert forall|b: int| 1 <= b <= 56 implies #[trigger] st.gap@[b] <= draws.len() by {
        law_gaps(draws, b);
    }
    law_gaps(draws, a);
    assert(st.freq@[a] == frequency(draws, a));
    law_times_counts_occurrences(draws.last().numbers@, a as u8);
    draws.last().numbers@.to_multiset_ensures();
}

/// Popularity in tenths: all numbers above the days of a month are equally
/// popular, a day has eight more than those, a month of the year five more than
/// other days, and a lucky number four more than one that is not lucky beside it.
pub proof fn law_popularity(n: int, m: int)
    requires
        1 <= n <= 56,
        1 <= m <= 56,
    ensures
        n >= 32 ==> popularity_of(n) == 10,
        13 <= n <= 31 && m >= 32 && n != 13 && n != 21 ==> popularity_of(n) == popularity_of(m) + 8,
        n <= 12 && 13 <= m <= 31 && n != 3 && n != 7 && m != 13 && m != 21 ==> popularity_of(n)
            == popularity_of(m) + 5,
        (n == 3 || n == 7) && m <= 12 && m != 3 && m != 7 ==> popularity_of(n) == popularity_of(m)
            + 4,
        (n == 13 || n == 21) && 13 <= m <= 31 && m != 13 && m != 21 ==> popularity_of(n)
            == popularity_of(m) + 4,
{
}

/// There is one best partner of a number, and no other was drawn together with it
/// more often.
pub proof fn law_best_partner(st: Stats, draws: Seq<Draw>, n: int, m: int, b: int)
    requires
        st.describes(draws),
        1 <= n <= 56,
        is_best_pair(st.cooc, n, m),
        1 <= b <= 56,
        b != n,
    ensures
        1 <= m <= 56 && m != n,
        together(draws, n, b) <= together(draws, n, m),
        b < m ==> together(draws, n, b) < together(draws, n, m),
        is_best_pair(st.cooc, n, b) ==> b == m,
{
    assert(st.cooc.at(n, b) == together(draws, n, b));
    assert(st.cooc.at(n, m) == together(draws, n, m));
}

/// Draws of known balls can be counted where nine counts for each draw fit.
pub proof fn law_few_draws_are_countable(draws: Seq<Draw>)
    requires
        9 * draws.len() <= u32::MAX,
        no_ball_above(draws),
    ensures
        countable(draws),
{
    assert forall|a: int| 0 <= a < 57 implies #[trigger] frequency(draws, a) <= u32::MAX by {
        lemma_counts_fit(draws, a, a);
    }
    assert forall|a: int, b: int| 0 <= a < 57 && 0 <= b < 57 implies #[trigger] together(
        draws,
        a,
        b,
    ) <= u32::MAX by {
        lemma_counts_fit(draws, a, b);
    }
}

} // verus!
