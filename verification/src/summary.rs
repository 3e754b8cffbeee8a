//! Everything that is shown of the statistics.
use crate::calendar::next_draw;
use crate::draw::Draw;
use crate::ranking::top_k;
use crate::stats::{widen, Stats};
use vstd::prelude::*;

verus! {

use crate::calendar::{
    countable,
    dates_day,
    day_number,
    dmy,
    draw_days,
    is_next_day,
    law_announced_date,
    law_next_day,
    weekday_of,
};
use crate::draw::views;
use crate::ranking::{best, law_best, law_places, place};
use crate::stats::{
    balanced_weight_of,
    frequency,
    gap_since,
    is_best_pair,
    law_middle_of_the_sums,
    popularity_of,
    together,
    widened,
    window,
    WINDOW,
};

/// What is shown of the statistics. The lists have an entry for each ball
/// number, that of number 1 first.
#[derive(Clone)]
pub struct Summary {
    pub contest: u32,
    pub date: String,
    pub last: [u8; 6],
    pub draws: usize,
    pub window: usize,
    pub freq: Vec<u32>,
    pub recent: Vec<u32>,
    pub gap: Vec<u32>,
    pub rank: Vec<u32>,
    /// In tenths.
    pub popularity: Vec<u32>,
    /// In units of which `balanced_unit` make one.
    pub balanced_weight: Vec<u128>,
    pub balanced_unit: u32,
    pub best_pair: Vec<(u8, u32)>,
    pub sum_lo: u32,
    pub sum_hi: u32,
    pub max_gap: u32,
    pub f_den: u32,
    pub r_den: u32,
    pub hot6: Vec<u8>,
    pub cold6: Vec<u8>,
    pub pot: u64,
    pub next_date: String,
    pub next_weekday: u32,
}

/// Whether a date and a weekday are those of the next draw; both are empty where
/// no day is known to look for it from.
pub open spec fn announces(date: Seq<char>, w: u32, days: Seq<int>, today: int) -> bool {
    if days.len() == 0 {
        date.len() == 0 && w == 0
    } else {
        exists|day: int|
            #[trigger] is_next_day(days, today, day) && dates_day(date, day) && w == weekday_of(day)
    }
}

impl Summary {
    /// The lists hold what the statistics say of each number.
    pub open spec fn lists(&self, st: Stats) -> bool {
        &&& self.freq@ == st.freq@.subrange(1, 57)
        &&& self.recent@ == st.recent@.subrange(1, 57)
        &&& self.gap@ == st.gap@.subrange(1, 57)
        &&& self.rank@.len() == 56
        &&& forall|i: int|
            0 <= i < 56 ==> #[trigger] self.rank@[i] == place(widened(st.freq@), i + 1) + 1
        &&& self.popularity@.len() == 56
        &&& forall|i: int| 0 <= i < 56 ==> #[trigger] self.popularity@[i] == popularity_of(i + 1)
        &&& self.balanced_weight@.len() == 56
        &&& forall|i: int|
            0 <= i < 56 ==> #[trigger] self.balanced_weight@[i] == balanced_weight_of(st, i + 1)
        &&& self.best_pair@.len() == 56
        &&& forall|i: int|
            0 <= i < 56 ==> {
                &&& is_best_pair(st.cooc, i + 1, (#[trigger] self.best_pair@[i]).0 as int)
                &&& self.best_pair@[i].1 == st.cooc.at(i + 1, self.best_pair@[i].0 as int)
            }
    }

    /// This is the summary of the statistics, with the next draw after the given
    /// ones.
    pub open spec fn sums_up(&self, st: Stats, draws: Seq<Draw>, today: int) -> bool {
        &&& self.contest == st.contest
        &&& self.date@ == st.date@
        &&& self.last == st.last
        &&& self.draws == st.n
        &&& self.window == WINDOW
        &&& self.lists(st)
        &&& self.balanced_unit == if st.max_gap == 0 {
            1
        } else {
            st.max_gap
        }
        &&& self.sum_lo == st.sum_lo
        &&& self.sum_hi == st.sum_hi
        &&& self.max_gap == st.max_gap
        &&& self.f_den == 6 * st.n + 56
        &&& self.r_den == 6 * (if st.n < WINDOW {
            st.n as int
        } else {
            WINDOW as int
        }) + 56
        &&& self.hot6@ == best(widened(st.freq@), 6)
        &&& self.cold6@ == best(widened(st.gap@), 6)
        &&& self.pot == st.last_pot
        &&& announces(self.next_date@, self.next_weekday, draw_days(views(draws)), today)
    }
}

fn without_first(counts: &[u32; 57]) -> (list: Vec<u32>)
    ensures
        list@ == counts@.subrange(1, 57),
{
    let mut list: Vec<u32> = Vec::new();
    let mut n: usize = 1;
    while n < 57
        invariant
            1 <= n <= 57,
            list@ == counts@.subrange(1, n as int),
        decreases 57 - n,
    {
        list.push(counts[n]);
        n += 1;
        assert(list@ =~= counts@.subrange(1, n as int));
    }
    list
}

/// Sums up statistics, and says when the next draw after the given ones is.
pub fn summarize(st: &Stats, draws: &[Draw], today: i64) -> (summary: Summary)
    requires
        6 * st.n + 56 <= u32::MAX,
        countable(views(draws@), today as int),
    ensures
        summary.sums_up(*st, draws@, today as int),
{
    let (next_date, next_weekday): (String, u32) = match next_draw(draws, today) {
        Some(next) => next,
        None => (String::new(), 0),
    };
    let mut popularity: Vec<u32> = Vec::new();
    let mut balanced_weight: Vec<u128> = Vec::new();
    let mut best_pair: Vec<(u8, u32)> = Vec::new();
    let mut n: u8 = 0;
    while n < 56
        invariant
            n <= 56,
            popularity@.len() == n,
            balanced_weight@.len() == n,
            best_pair@.len() == n,
            forall|i: int| 0 <= i < n ==> #[trigger] popularity@[i] == popularity_of(i + 1),
            forall|i: int|
                0 <= i < n ==> #[trigger] balanced_weight@[i] == balanced_weight_of(*st, i + 1),
            forall|i: int|
                0 <= i < n ==> {
                    &&& is_best_pair(st.cooc, i + 1, (#[trigger] best_pair@[i]).0 as int)
                    &&& best_pair@[i].1 == st.cooc.at(i + 1, best_pair@[i].0 as int)
                },
        decreases 56 - n,
    {
        n += 1;
        popularity.push(Stats::popularity(n));
        balanced_weight.push(st.balanced_weight(n));
        best_pair.push(st.best_pair(n));
    }
    Summary {
        contest: st.contest,
        date: st.date.clone(),
        last: st.last,
        draws: st.n,
        window: WINDOW,
        freq: without_first(&st.freq),
        recent: without_first(&st.recent),
        gap: without_first(&st.gap),
        rank: without_first(&st.rank()),
        popularity,
        balanced_weight,
        balanced_unit: if st.max_gap == 0 {
            1
        } else {
            st.max_gap
        },
        best_pair,
        sum_lo: st.sum_lo,
        sum_hi: st.sum_hi,
        max_gap: st.max_gap,
        f_den: st.f_den(),
        r_den: st.r_den(),
        hot6: top_k(&widen(&st.freq), 6),
        cold6: top_k(&widen(&st.gap), 6),
        pot: st.last_pot,
        next_date,
        next_weekday,
    }
}

/// What a summary shows of a number and of two numbers is what the draws say: how
/// often and how recently it was drawn, its rank, its popularity and its best
/// partner, and whether it is one of the six hottest or coldest.
pub proof fn law_summary_of_numbers(
    summary: Summary,
    st: Stats,
    draws: Seq<Draw>,
    today: int,
    a: u8,
    b: u8,
)
    requires
        draws.len() > 0,
        st.describes(draws),
        summary.sums_up(st, draws, today),
        1 <= a <= 56,
        1 <= b <= 56,
    ensures
        summary.freq@.len() == 56 && summary.recent@.len() == 56 && summary.gap@.len() == 56,
        summary.rank@.len() == 56 && summary.popularity@.len() == 56,
        summary.balanced_weight@.len() == 56 && summary.best_pair@.len() == 56,
        summary.freq@[a - 1] == frequency(draws, a as int),
        draws.len() <= 250 ==> summary.recent@[a - 1] == frequency(draws, a as int),
        summary.gap@[a - 1] == gap_since(draws, a as int),
        1 <= summary.rank@[a - 1] <= 56,
        summary.rank@[a - 1] < summary.rank@[b - 1] <==> (summary.freq@[a - 1] > summary.freq@[b
            - 1] || (summary.freq@[a - 1] == summary.freq@[b - 1] && a < b)),
        summary.popularity@[a - 1] == popularity_of(a as int),
        summary.gap@[a - 1] == 0 ==> summary.balanced_weight@[a - 1] == (summary.freq@[a - 1] + 1)
            * summary.balanced_unit,
        a != b ==> together(draws, a as int, b as int) <= summary.best_pair@[a - 1].1,
        summary.best_pair@[a - 1].1 == together(
            draws,
            a as int,
            summary.best_pair@[a - 1].0 as int,
        ),
        summary.best_pair@[a - 1].0 != a,
        summary.hot6@.len() == 6 && summary.cold6@.len() == 6,
        summary.hot6@.contains(a) && !summary.hot6@.contains(b) ==> frequency(draws, a as int)
            >= frequency(draws, b as int),
        summary.cold6@.contains(a) && !summary.cold6@.contains(b) ==> gap_since(draws, a as int)
            >= gap_since(draws, b as int),
{
    assert(st.freq@[a as int] == frequency(draws, a as int));
    assert(st.freq@[b as int] == frequency(draws, b as int));
    assert(st.recent@[a as int] == frequency(window(draws), a as int));
    assert(st.gap@[a as int] == gap_since(draws, a as int));
    assert(st.gap@[b as int] == gap_since(draws, b as int));
    law_places(widened(st.freq@), a as int, b as int);
    assert(summary.rank@[a - 1] == place(widened(st.freq@), a as int) + 1);
    assert(summary.rank@[b - 1] == place(widened(st.freq@), b as int) + 1);
    assert(summary.popularity@[a - 1] == popularity_of(a - 1 + 1));
    assert(summary.balanced_weight@[a - 1] == balanced_weight_of(st, a - 1 + 1));
    let best = summary.best_pair@[a - 1];
    assert(is_best_pair(st.cooc, a as int, best.0 as int));
    assert(st.cooc.at(a as int, best.0 as int) == together(draws, a as int, best.0 as int));
    if a != b {
        assert(st.cooc.at(a as int, b as int) == together(draws, a as int, b as int));
    }
    law_best(widened(st.freq@), 6);
    law_best(widened(st.gap@), 6);
}

/// What a summary shows of the history as a whole: its length, its newest draw, how
/// many numbers were drawn in all and recently and one more for each ball, and the
/// day of the next draw, which is not before today and has the weekday shown.
pub proof fn law_summary_of_the_history(
    summary: Summary,
    st: Stats,
    draws: Seq<Draw>,
    today: int,
)
    requires
        draws.len() > 0,
        st.describes(draws),
        summary.sums_up(st, draws, today),
        countable(views(draws), today),
    ensures
        summary.draws == draws.len(),
        summary.window == 250,
        summary.contest == draws.last().contest,
        summary.date@ == draws.last().date@,
        summary.last@ == draws.last().numbers@,
        summary.pot == draws.last().pot,
        summary.f_den == 6 * draws.len() + 56,
        draws.len() <= 250 ==> summary.r_den == summary.f_den,
        draws.len() >= 250 ==> summary.r_den == 1556,
        summary.sum_lo <= summary.sum_hi,
        summary.balanced_unit >= 1,
        draw_days(views(draws)).len() > 0 ==> {
            let (y, m, d) = dmy(summary.next_date@)->0;
            &&& dmy(summary.next_date@) is Some
            &&& day_number(y, m, d) >= today
            &&& day_number(y, m, d) > draw_days(views(draws))[0]
            &&& summary.next_weekday == weekday_of(day_number(y, m, d))
        },
        draw_days(views(draws)).len() == 0 ==> summary.next_date@.len() == 0
            && summary.next_weekday == 0,
{
    law_middle_of_the_sums(st, draws);
    let days = draw_days(views(draws));
    if days.len() > 0 {
        let day = choose|day: int|
            #[trigger] is_next_day(days, today, day) && dates_day(summary.next_date@, day)
                && summary.next_weekday == weekday_of(day);
        law_next_day(days, today, day, today, 0);
        assert(i64::MIN <= days[0]);
        law_announced_date(summary.next_date@, day);
    }
}

} // verus!
