//! What is asked for, and the tickets that answer it.
use crate::chance::Dice;
use crate::stats::Stats;
use crate::text::{chars_of, read_unsigned, same_text, split_at};
use crate::tickets::{find_strategy, generate, Strategy, DETERMINISTIC, STRATEGIES};
use vstd::prelude::*;

verus! {

use crate::chance::{continues, is_ticket, new_rolls, Roll};
use crate::draw::Draw;
use crate::ranking::best;
use crate::stats::together;
use crate::text::{
    contents,
    decimal,
    joined,
    law_joined_is_split_back,
    law_other_texts_are_no_numbers,
    law_written_number_is_read,
    lemma_decimal,
    split,
    unsigned,
};
use vstd::arithmetic::div_mod::lemma_mod_add_multiples_vanish;
use crate::tickets::{rolls_for, samples, strategy_of, ticket};

/// What the given texts hold.
pub open spec fn texts(list: Seq<&str>) -> Seq<Seq<char>> {
    list.map_values(|t: &str| t@)
}

/// Whether a strategy uses no randomness.
pub open spec fn is_deterministic(id: Seq<char>) -> bool {
    id == "hot"@ || id == "cold"@
}

/// The strategies of a selection that use randomness.
pub open spec fn stochastic(selection: Seq<Seq<char>>) -> Seq<Seq<char>>
    decreases selection.len(),
{
    if selection.len() == 0 {
        Seq::empty()
    } else {
        let rest = stochastic(selection.drop_last());
        if is_deterministic(selection.last()) {
            rest
        } else {
            rest.push(selection.last())
        }
    }
}

/// The strategies of `count` tickets: each selected one once, as far as `count`
/// goes, then those that use randomness over and over.
pub open spec fn planned(selection: Seq<Seq<char>>, count: nat) -> Seq<Seq<char>> {
    let filler = stochastic(selection);
    if count <= selection.len() {
        selection.take(count as int)
    } else if filler.len() == 0 {
        selection
    } else {
        Seq::new(
            count,
            |i: int|
                if i < selection.len() {
                    selection[i]
                } else {
                    filler[(i - selection.len()) % filler.len() as int]
                },
        )
    }
}

fn deterministic(id: &str) -> (b: bool)
    ensures
        b == is_deterministic(id@),
{
    same_text(id, DETERMINISTIC[0]) || same_text(id, DETERMINISTIC[1])
}

proof fn lemma_stochastic(selection: Seq<Seq<char>>)
    ensures
        forall|i: int|
            0 <= i < stochastic(selection).len() ==> !is_deterministic(
                #[trigger] stochastic(selection)[i],
            ) && selection.contains(stochastic(selection)[i]),
    decreases selection.len(),
{
    if selection.len() > 0 {
        let rest = selection.drop_last();
        lemma_stochastic(rest);
        let all = stochastic(selection);
        assert forall|i: int| 0 <= i < all.len() implies !is_deterministic(#[trigger] all[i])
            && selection.contains(all[i]) by {
            if i < stochastic(rest).len() {
                assert(all[i] == stochastic(rest)[i]);
                let j = choose|j: int| 0 <= j < rest.len() && rest[j] == all[i];
                assert(selection[j] == all[i]);
            } else {
                assert(selection[selection.len() - 1] == all[i]);
            }
        }
    }
}

/// A plan has `count` tickets unless only deterministic strategies, fewer than
/// that, are selected; it starts with the selection, each strategy once, and
/// goes on with strategies of the selection that use randomness.
pub proof fn law_plan(selection: Seq<Seq<char>>, count: nat)
    ensures
        planned(selection, count).len() == if count <= selection.len() || stochastic(
            selection,
        ).len() > 0 {
            count
        } else {
            selection.len()
        },
        forall|i: int|
            0 <= i < planned(selection, count).len() && i < selection.len()
                ==> #[trigger] planned(selection, count)[i] == selection[i],
        forall|i: int|
            selection.len() <= i < planned(selection, count).len() ==> !is_deterministic(
                #[trigger] planned(selection, count)[i],
            ) && selection.contains(planned(selection, count)[i]),
{
    lemma_stochastic(selection);
    let filler = stochastic(selection);
    assert forall|i: int| selection.len() <= i < planned(selection, count).len() implies
        !is_deterministic(#[trigger] planned(selection, count)[i]) && selection.contains(
        planned(selection, count)[i],
    ) by {
        let j = (i - selection.len()) % filler.len() as int;
        assert(0 <= j < filler.len());
        assert(planned(selection, count)[i] == filler[j]);
    }
}

/// Spread `count` tickets across the selected strategies: each appears once,
/// then the remainder cycles through the non-deterministic ones only.
pub fn plan<'a>(selection: &[&'a str], count: usize) -> (out: Vec<&'a str>)
    ensures
        texts(out@) == planned(texts(selection@), count as nat),
{
    let ghost selected = texts(selection@);
    let mut out: Vec<&'a str> = Vec::new();
    let mut filler: Vec<&'a str> = Vec::new();
    let mut i: usize = 0;
    assert(texts(filler@) =~= stochastic(selected.take(0)));
    while i < selection.len()
        invariant
            i <= selection@.len(),
            selected == texts(selection@),
            out@.len() == if i < count {
                i
            } else {
                count
            },
            forall|j: int| 0 <= j < out@.len() ==> #[trigger] out@[j]@ == selected[j],
            texts(filler@) == stochastic(selected.take(i as int)),
        decreases selection@.len() - i,
    {
        let id: &'a str = selection[i];
        let ghost before = texts(filler@);
        assert(selected.take(i + 1).drop_last() =~= selected.take(i as int));
        if i < count {
            out.push(id);
        }
        if !deterministic(id) {
            filler.push(id);
            assert(texts(filler@) =~= before.push(id@));
        }
        i += 1;
    }
    assert(selected.take(i as int) =~= selected);
    if filler.len() > 0 {
        while out.len() < count
            invariant
                selected == texts(selection@),
                filler@.len() > 0,
                texts(filler@) == stochastic(selected),
                out@.len() <= count,
                count <= selected.len() ==> out@.len() == count,
                count > selected.len() ==> out@.len() >= selected.len(),
                forall|j: int|
                    0 <= j < out@.len() ==> #[trigger] out@[j]@ == planned(
                        selected,
                        count as nat,
                    )[j],
                selection.len() == selected.len(),
            decreases count - out@.len(),
        {
            let next: usize = (out.len() - selection.len()) % filler.len();
            assert(texts(filler@)[next as int] == filler@[next as int]@);
            out.push(filler[next]);
        }
    }
    assert(texts(out@) =~= planned(selected, count as nat));
    out
}

/// What an optional text holds.
pub open spec fn held(text: Option<&str>) -> Option<Seq<char>> {
    match text {
        Some(t) => Some(t@),
        None => None,
    }
}

/// Whether a strategy is asked for: by its id in a list separated by commas, or
/// because there is no list.
pub open spec fn asked_for(list: Option<Seq<char>>, id: Seq<char>) -> bool {
    match list {
        Some(ids) => split(ids, ',').contains(id),
        None => true,
    }
}

/// The first `n` strategies without those not asked for.
pub open spec fn selected(list: Option<Seq<char>>, n: nat) -> Seq<Seq<char>>
    decreases n,
{
    if n == 0 {
        Seq::empty()
    } else {
        let rest = selected(list, (n - 1) as nat);
        let id = STRATEGIES@[n - 1]@;
        if asked_for(list, id) {
            rest.push(id)
        } else {
            rest
        }
    }
}

/// The number that a text writes, brought into the given bounds; the usual one
/// where there is no text or it writes no number.
pub open spec fn bounded(text: Option<Seq<char>>, usual: int, least: int, most: int) -> int {
    match text {
        Some(t) => match unsigned(t, usize::MAX as nat) {
            Some(n) => if n < least {
                least
            } else if n > most {
                most
            } else {
                n as int
            },
            None => usual,
        },
        None => usual,
    }
}

/// A ticket to be made: with which strategy, and whether that one needs a
/// posterior.
pub struct Slot {
    pub strategy: &'static str,
    pub by_posterior: bool,
}

/// The strategies of the slots.
pub open spec fn ids(slots: Seq<Slot>) -> Seq<Seq<char>> {
    slots.map_values(|slot: Slot| slot.strategy@)
}

/// Tickets that are asked for: one of `k` numbers for each slot.
pub struct Request {
    pub slots: Vec<Slot>,
    pub k: usize,
}

fn read_bounded(text: Option<&str>, usual: usize, least: usize, most: usize) -> (n: usize)
    ensures
        n == bounded(held(text), usual as int, least as int, most as int),
{
    match text {
        Some(t) => {
            let chars: Vec<char> = chars_of(t);
            match read_unsigned(chars.as_slice(), usize::MAX as u64) {
                Some(n) => if n < least as u64 {
                    least
                } else if n > most as u64 {
                    most
                } else {
                    n as usize
                },
                None => usual,
            }
        },
        None => usual,
    }
}

fn is_asked_for(ids: &Vec<Vec<char>>, id: &str) -> (b: bool)
    ensures
        b == contents(ids@).contains(id@),
{
    let wanted: Vec<char> = chars_of(id);
    let mut i: usize = 0;
    while i < ids.len()
        invariant
            i <= ids@.len(),
            wanted@ == id@,
            forall|j: int| 0 <= j < i ==> #[trigger] contents(ids@)[j] != id@,
        decreases ids@.len() - i,
    {
        assert(contents(ids@)[i as int] == ids@[i as int]@);
        if same_chars(&ids[i], &wanted) {
            return true;
        }
        i += 1;
    }
    false
}

fn same_chars(a: &Vec<char>, b: &Vec<char>) -> (same: bool)
    ensures
        same == (a@ == b@),
{
    if a.len() != b.len() {
        return false;
    }
    let mut i: usize = 0;
    while i < a.len()
        invariant
            i <= a@.len() == b@.len(),
            forall|j: int| 0 <= j < i ==> a@[j] == b@[j],
        decreases a@.len() - i,
    {
        if a[i] != b[i] {
            return false;
        }
        i += 1;
    }
    assert(a@ =~= b@);
    true
}

/// Reads what is asked for, and plans its tickets: the strategies, in their own
/// order (all of them by default), the number of tickets (1 to 12, 8 by default)
/// and the numbers on each (6 to 10, 6 by default). `None` if no strategy has an
/// id that is asked for.
pub fn read_request(
    strategies: Option<&str>,
    count: Option<&str>,
    k: Option<&str>,
) -> (request: Option<Request>)
    ensures
        match request {
            Some(r) => {
                &&& selected(held(strategies), 8).len() > 0
                &&& ids(r.slots@) == planned(
                    selected(held(strategies), 8),
                    bounded(held(count), 8, 1, 12) as nat,
                )
                &&& forall|i: int|
                    0 <= i < r.slots@.len() ==> (#[trigger] r.slots@[i]).by_posterior == (
                    strategy_of(r.slots@[i].strategy@) == Some(Strategy::Bayes))
                &&& r.k == bounded(held(k), 6, 6, 10)
                &&& 1 <= r.slots@.len() <= 12
                &&& 6 <= r.k <= 10
            },
            None => selected(held(strategies), 8).len() == 0,
        },
{
    let asked: Vec<Vec<char>> = match strategies {
        Some(list) => split_at(chars_of(list).as_slice(), ','),
        None => Vec::new(),
    };
    let mut selection: Vec<&'static str> = Vec::new();
    let mut i: usize = 0;
    assert(texts(selection@) =~= selected(held(strategies), 0));
    while i < 8
        invariant
            i <= 8,
            strategies is Some ==> contents(asked@) == split(strategies->0@, ','),
            texts(selection@) == selected(held(strategies), i as nat),
        decreases 8 - i,
    {
        let id: &'static str = STRATEGIES[i];
        let ghost before = texts(selection@);
        if strategies.is_none() || is_asked_for(&asked, id) {
            selection.push(id);
            assert(texts(selection@) =~= before.push(id@));
        }
        i += 1;
    }
    assert(texts(selection@).len() == selection@.len());
    if selection.len() == 0 {
        return None;
    }
    let tickets: usize = read_bounded(count, 8, 1, 12);
    let plan: Vec<&'static str> = plan(selection.as_slice(), tickets);
    proof {
        law_plan(texts(selection@), tickets as nat);
        assert(texts(plan@).len() == plan@.len());
    }
    Some(Request { slots: fill_slots(&plan), k: read_bounded(k, 6, 6, 10) })
}

fn fill_slots(plan: &Vec<&'static str>) -> (slots: Vec<Slot>)
    ensures
        ids(slots@) == texts(plan@),
        slots@.len() == plan@.len(),
        forall|i: int|
            0 <= i < slots@.len() ==> (#[trigger] slots@[i]).by_posterior == (strategy_of(
                slots@[i].strategy@,
            ) == Some(Strategy::Bayes)),
{
    let mut slots: Vec<Slot> = Vec::new();
    let mut i: usize = 0;
    while i < plan.len()
        invariant
            i <= plan@.len(),
            slots@.len() == i,
            forall|j: int| 0 <= j < i ==> (#[trigger] slots@[j]).strategy@ == plan@[j]@,
            forall|j: int|
                0 <= j < i ==> (#[trigger] slots@[j]).by_posterior == (strategy_of(
                    slots@[j].strategy@,
                ) == Some(Strategy::Bayes)),
        decreases plan@.len() - i,
    {
        let strategy: &'static str = plan[i];
        let by_posterior: bool = match find_strategy(strategy) {
            Some(Strategy::Bayes) => true,
            _ => false,
        };
        slots.push(Slot { strategy, by_posterior });
        i += 1;
    }
    assert(ids(slots@) =~= texts(plan@));
    slots
}

/// How often `n` was drawn together with the other numbers of a ticket.
pub open spec fn partners(st: Stats, numbers: Seq<u8>, n: int) -> int
    decreases numbers.len(),
{
    if numbers.len() == 0 {
        0
    } else {
        partners(st, numbers.drop_last(), n) + if numbers.last() == n {
            0
        } else {
            st.cooc.at(n, numbers.last() as int) as int
        }
    }
}

/// A ticket with the strategy it is made with, and for each of its numbers how
/// often it was drawn together with the others.
pub struct Ticket {
    pub strategy: &'static str,
    pub numbers: Vec<u8>,
    pub cooc_sum: Vec<u64>,
}

impl Ticket {
    /// The counts are those of the numbers.
    pub open spec fn counts_partners(&self, st: Stats) -> bool {
        &&& self.cooc_sum@.len() == self.numbers@.len()
        &&& forall|i: int|
            0 <= i < self.numbers@.len() ==> #[trigger] self.cooc_sum@[i] == partners(
                st,
                self.numbers@,
                self.numbers@[i] as int,
            )
    }
}

/// Whether a ticket is made without a roll.
pub open spec fn draws_nothing(id: Seq<char>) -> bool {
    match strategy_of(id) {
        Some(strategy) => !samples(strategy),
        None => true,
    }
}

/// Whether the numbers are those that a strategy makes of the rolls.
pub open spec fn is_made(
    st: Stats,
    id: Seq<char>,
    k: nat,
    posterior: Seq<u64>,
    rolls: Seq<Roll>,
    numbers: Seq<u8>,
) -> bool {
    match strategy_of(id) {
        Some(strategy) => {
            &&& rolls_for(st, strategy, k, rolls)
            &&& numbers == ticket(st, strategy, k, posterior, rolls)
            &&& is_ticket(numbers, k)
        },
        None => rolls.len() == 0 && numbers.len() == 0,
    }
}

/// Whether the tickets are made one after the other, each with the strategy and
/// the posterior at its position, of the rolls that follow those of the tickets
/// before it.
pub open spec fn are_made(
    st: Stats,
    ids: Seq<Seq<char>>,
    k: nat,
    posteriors: Seq<[u64; 57]>,
    rolls: Seq<Roll>,
    tickets: Seq<Ticket>,
) -> bool
    decreases ids.len(),
{
    if ids.len() == 0 {
        rolls.len() == 0 && tickets.len() == 0
    } else {
        &&& tickets.len() == ids.len()
        &&& tickets.last().strategy@ == ids.last()
        &&& tickets.last().counts_partners(st)
        &&& exists|cut: int|
            0 <= cut <= rolls.len() && are_made(
                st,
                ids.drop_last(),
                k,
                posteriors,
                #[trigger] rolls.take(cut),
                tickets.drop_last(),
            ) && is_made(
                st,
                ids.last(),
                k,
                posteriors[ids.len() - 1]@,
                rolls.skip(cut),
                tickets.last().numbers@,
            )
    }
}

fn count_partners(st: &Stats, numbers: &Vec<u8>, n: u8) -> (count: u64)
    requires
        n <= 56,
        numbers@.len() <= 56,
        forall|i: int| 0 <= i < numbers@.len() ==> #[trigger] numbers@[i] <= 56,
    ensures
        count == partners(*st, numbers@, n as int),
{
    let mut count: u64 = 0;
    let mut i: usize = 0;
    while i < numbers.len()
        invariant
            i <= numbers@.len() <= 56,
            n <= 56,
            forall|i: int| 0 <= i < numbers@.len() ==> #[trigger] numbers@[i] <= 56,
            count <= u32::MAX * i,
            count == partners(*st, numbers@.take(i as int), n as int),
        decreases numbers@.len() - i,
    {
        assert(numbers@.take(i + 1).drop_last() =~= numbers@.take(i as int));
        if numbers[i] != n {
            count = count + st.cooc(n, numbers[i]) as u64;
        }
        i += 1;
    }
    assert(numbers@.take(i as int) =~= numbers@);
    count
}

fn make_ticket(
    st: &Stats,
    id: &'static str,
    k: usize,
    posterior: &[u64; 57],
    dice: &mut Dice,
) -> (made: Ticket)
    requires
        k <= 56,
    ensures
        continues(old(dice).rolls(), final(dice).rolls()),
        made.strategy@ == id@,
        is_made(
            *st,
            id@,
            k as nat,
            posterior@,
            new_rolls(old(dice).rolls(), final(dice).rolls()),
            made.numbers@,
        ),
        made.counts_partners(*st),
        draws_nothing(id@) ==> *final(dice) == *old(dice),
{
    let numbers: Vec<u8> = generate(st, id, k, posterior, dice);
    let mut cooc_sum: Vec<u64> = Vec::new();
    let mut i: usize = 0;
    while i < numbers.len()
        invariant
            i <= numbers@.len() <= 56,
            forall|i: int| 0 <= i < numbers@.len() ==> #[trigger] numbers@[i] <= 56,
            cooc_sum@.len() == i,
            forall|j: int|
                0 <= j < i ==> #[trigger] cooc_sum@[j] == partners(
                    *st,
                    numbers@,
                    numbers@[j] as int,
                ),
        decreases numbers@.len() - i,
    {
        cooc_sum.push(count_partners(st, &numbers, numbers[i]));
        i += 1;
    }
    Ticket { strategy: id, numbers, cooc_sum }
}

/// Makes the tickets of a request, one for each slot. There is a posterior for
/// each of them, which a bayes ticket is made of.
pub fn make_tickets(
    st: &Stats,
    request: &Request,
    posteriors: &[[u64; 57]],
    dice: &mut Dice,
) -> (tickets: Vec<Ticket>)
    requires
        request.k <= 56,
        posteriors@.len() >= request.slots@.len(),
    ensures
        continues(old(dice).rolls(), final(dice).rolls()),
        are_made(
            *st,
            ids(request.slots@),
            request.k as nat,
            posteriors@,
            new_rolls(old(dice).rolls(), final(dice).rolls()),
            tickets@,
        ),
        (forall|i: int|
            0 <= i < request.slots@.len() ==> draws_nothing(
                (#[trigger] request.slots@[i]).strategy@,
            )) ==> *final(dice) == *old(dice),
{
    let ghost all = ids(request.slots@);
    let ghost start = dice.rolls();
    assert(start.take(start.len() as int) =~= start);
    let mut tickets: Vec<Ticket> = Vec::new();
    let mut i: usize = 0;
    while i < request.slots.len()
        invariant
            i <= request.slots@.len() <= posteriors@.len(),
            request.k <= 56,
            all == ids(request.slots@),
            start == old(dice).rolls(),
            continues(start, dice.rolls()),
            tickets@.len() == i,
            are_made(
                *st,
                all.take(i as int),
                request.k as nat,
                posteriors@,
                new_rolls(start, dice.rolls()),
                tickets@,
            ),
            (forall|j: int|
                0 <= j < request.slots@.len() ==> draws_nothing(
                    (#[trigger] request.slots@[j]).strategy@,
                )) ==> *dice == *old(dice),
        decreases request.slots@.len() - i,
    {
        let ghost before = dice.rolls();
        let ghost made_before = tickets@;
        let id: &'static str = request.slots[i].strategy;
        let made: Ticket = make_ticket(st, id, request.k, &posteriors[i], dice);
        tickets.push(made);
        proof {
            let ids_now = all.take(i + 1);
            let rolls = new_rolls(start, dice.rolls());
            let cut = before.len() - start.len();
            assert(ids_now.drop_last() =~= all.take(i as int));
            assert(ids_now.last() == id@);
            assert(tickets@.drop_last() =~= made_before);
            assert(dice.rolls().take(start.len() as int) =~= dice.rolls().take(
                before.len() as int,
            ).take(start.len() as int));
            assert(rolls.take(cut) =~= new_rolls(start, before)) by {
                assert(dice.rolls().take(before.len() as int) == before);
                assert forall|j: int| 0 <= j < cut implies rolls.take(cut)[j] == new_rolls(
                    start,
                    before,
                )[j] by {
                    assert(dice.rolls().take(before.len() as int)[start.len() + j]
                        == before[start.len() + j]);
                }
            }
            assert(rolls.skip(cut) =~= new_rolls(before, dice.rolls()));
        }
        i += 1;
    }
    assert(all.take(i as int) =~= all);
    tickets
}

/// Whatever the rolls, the tickets of a request are those that are planned, and
/// each whose strategy is known has `k` different numbers of 1 to 56 in ascending
/// order.
pub proof fn law_tickets_are_those_planned(
    st: Stats,
    ids: Seq<Seq<char>>,
    k: nat,
    posteriors: Seq<[u64; 57]>,
    rolls: Seq<Roll>,
    tickets: Seq<Ticket>,
)
    requires
        are_made(st, ids, k, posteriors, rolls, tickets),
    ensures
        tickets.len() == ids.len(),
        forall|i: int|
            0 <= i < ids.len() ==> {
                &&& (#[trigger] tickets[i]).strategy@ == ids[i]
                &&& tickets[i].counts_partners(st)
                &&& strategy_of(ids[i]) is Some ==> is_ticket(tickets[i].numbers@, k)
            },
    decreases ids.len(),
{
    if ids.len() > 0 {
        let cut = choose|cut: int|
            0 <= cut <= rolls.len() && are_made(
                st,
                ids.drop_last(),
                k,
                posteriors,
                #[trigger] rolls.take(cut),
                tickets.drop_last(),
            ) && is_made(
                st,
                ids.last(),
                k,
                posteriors[ids.len() - 1]@,
                rolls.skip(cut),
                tickets.last().numbers@,
            );
        law_tickets_are_those_planned(
            st,
            ids.drop_last(),
            k,
            posteriors,
            rolls.take(cut),
            tickets.drop_last(),
        );
        assert forall|i: int| 0 <= i < ids.len() implies {
            &&& (#[trigger] tickets[i]).strategy@ == ids[i]
            &&& tickets[i].counts_partners(st)
            &&& strategy_of(ids[i]) is Some ==> is_ticket(tickets[i].numbers@, k)
        } by {
            if i < ids.len() - 1 {
                assert(tickets.drop_last()[i] == tickets[i]);
            }
        }
    }
}

/// The strategies that are selected are known and asked for, and all that are
/// asked for are selected; without a list, each of them.
pub proof fn law_selection(list: Option<Seq<char>>, n: nat)
    requires
        n <= 8,
    ensures
        selected(list, n).len() <= n,
        forall|i: int|
            0 <= i < selected(list, n).len() ==> asked_for(list, #[trigger] selected(list, n)[i])
                && strategy_of(selected(list, n)[i]) is Some,
        forall|j: int|
            0 <= j < n && asked_for(list, #[trigger] STRATEGIES@[j]@) ==> selected(
                list,
                n,
            ).contains(STRATEGIES@[j]@),
        list is None ==> selected(list, n).len() == n,
    decreases n,
{
    if n > 0 {
        let before = selected(list, (n - 1) as nat);
        law_selection(list, (n - 1) as nat);
        assert(strategy_of(STRATEGIES@[n - 1]@) is Some);
        assert forall|j: int|
            0 <= j < n && asked_for(list, #[trigger] STRATEGIES@[j]@) implies selected(
            list,
            n,
        ).contains(STRATEGIES@[j]@) by {
            if j < n - 1 {
                let i = choose|i: int| 0 <= i < before.len() && before[i] == STRATEGIES@[j]@;
                assert(selected(list, n)[i] == STRATEGIES@[j]@);
            } else {
                assert(selected(list, n).last() == STRATEGIES@[j]@);
            }
        }
    }
}

/// The strategies that use randomness are those selected but for hot and cold, in
/// the order of the selection.
pub proof fn law_stochastic(selection: Seq<Seq<char>>)
    ensures
        stochastic(selection) == selection.filter(
            |id: Seq<char>| id != "hot"@ && id != "cold"@,
        ),
    decreases selection.len(),
{
    reveal(Seq::filter);
    if selection.len() > 0 {
        law_stochastic(selection.drop_last());
    }
}

/// Behind the selection, a plan goes through the strategies that use randomness in
/// their order, over and over: it begins with them, each is the same as that one
/// round later, and any round's worth of tickets in a row has each of them once.
pub proof fn law_plan_goes_round(selection: Seq<Seq<char>>, count: nat, i: int)
    requires
        selection.len() <= i < planned(selection, count).len(),
    ensures
        ({
            let plan = planned(selection, count);
            let round = stochastic(selection);
            &&& round.len() > 0
            &&& i - selection.len() < round.len() ==> plan[i] == round[i - selection.len()]
            &&& i + round.len() < plan.len() ==> plan[i + round.len()] == plan[i]
            &&& i + round.len() <= plan.len() ==> plan.subrange(
                i,
                i + round.len(),
            ).to_multiset() == round.to_multiset()
        }),
    decreases i,
{
    let plan = planned(selection, count);
    let round = stochastic(selection);
    let size = round.len() as int;
    let from = i - selection.len();
    lemma_small_mod_int(from, size);
    assert((from + size) % size == from % size) by {
        lemma_mod_add_multiples_vanish(from, size);
        assert(size + from == from + size);
    }
    if i + size <= plan.len() {
        let here = plan.subrange(i, i + size);
        if i == selection.len() {
            assert forall|j: int| 0 <= j < size implies here[j] == round[j] by {
                lemma_small_mod_int(j, size);
            }
            assert(here =~= round);
        } else {
            let before = plan.subrange(i - 1, i - 1 + size);
            law_plan_goes_round(selection, count, i - 1);
            assert(plan[i - 1 + size] == plan[i - 1]);
            assert(before =~= seq![plan[i - 1]] + before.drop_first());
            assert(here =~= before.drop_first() + seq![plan[i - 1]]);
            vstd::seq_lib::lemma_seq_union_to_multiset_commutative(
                seq![plan[i - 1]],
                before.drop_first(),
            );
        }
    }
}

proof fn lemma_small_mod_int(x: int, size: int)
    ensures
        0 <= x < size ==> x % size == x,
{
    if 0 <= x < size {
        vstd::arithmetic::div_mod::lemma_small_mod(x as nat, size as nat);
    }
}

/// No strategy that uses randomness is planned more than once more often than
/// another.
pub proof fn law_plan_is_fair(
    selection: Seq<Seq<char>>,
    extra: nat,
    a: Seq<char>,
    b: Seq<char>,
)
    requires
        selection.no_duplicates(),
        selection.contains(a) && a != "hot"@ && a != "cold"@,
        selection.contains(b) && b != "hot"@ && b != "cold"@,
    ensures
        ({
            let plan = planned(selection, selection.len() + extra);
            &&& plan.len() == selection.len() + extra
            &&& plan.to_multiset().count(a) <= plan.to_multiset().count(b) + 1
            &&& plan.to_multiset().count(a) >= 1
        }),
{
    let round = stochastic(selection);
    let plan = planned(selection, selection.len() + extra);
    let rest = Seq::new(extra, |i: int| round[i % round.len() as int]);
    lemma_stochastic_members(selection, a);
    lemma_stochastic_members(selection, b);
    assert(plan =~= selection + rest);
    vstd::seq_lib::lemma_multiset_commutative(selection, rest);
    selection.to_multiset_ensures();
    selection.lemma_multiset_has_no_duplicates();
    assert(selection.to_multiset().count(a) == 1 && selection.to_multiset().count(b) == 1);
    lemma_rounds_are_fair(round, extra, a, b);
}

/// What uses randomness stays in the selection, and stays once.
proof fn lemma_stochastic_members(selection: Seq<Seq<char>>, a: Seq<char>)
    requires
        selection.no_duplicates(),
    ensures
        selection.contains(a) && a != "hot"@ && a != "cold"@ ==> stochastic(selection).contains(a),
        stochastic(selection).no_duplicates(),
    decreases selection.len(),
{
    if selection.len() > 0 {
        let rest = selection.drop_last();
        let last = selection[selection.len() - 1];
        assert(rest.no_duplicates());
        lemma_stochastic_members(rest, a);
        lemma_stochastic(rest);
        let before = stochastic(rest);
        let now = stochastic(selection);
        if selection.contains(a) && !is_deterministic(a) {
            let i = choose|i: int| 0 <= i < selection.len() && selection[i] == a;
            if i < rest.len() {
                assert(rest[i] == a);
                let j = choose|j: int| 0 <= j < before.len() && before[j] == a;
                assert(now[j] == a);
            } else {
                assert(now[before.len() as int] == a);
            }
        }
        if !is_deterministic(last) {
            assert(!before.contains(last)) by {
                if before.contains(last) {
                    let j = choose|j: int| 0 <= j < before.len() && before[j] == last;
                    assert(rest.contains(before[j]));
                    let x = choose|x: int| 0 <= x < rest.len() && rest[x] == last;
                    assert(selection[x] == selection[selection.len() - 1]);
                }
            }
        }
    }
}

proof fn lemma_rounds_are_fair(
    round: Seq<Seq<char>>,
    extra: nat,
    a: Seq<char>,
    b: Seq<char>,
)
    requires
        round.no_duplicates(),
        round.contains(a),
        round.contains(b),
    ensures
        ({
            let rest = Seq::new(extra, |i: int| round[i % round.len() as int]);
            rest.to_multiset().count(a) <= rest.to_multiset().count(b) + 1
        }),
    decreases extra,
{
    let size = round.len() as int;
    let rest = Seq::new(extra, |i: int| round[i % round.len() as int]);
    if extra < size {
        assert forall|i: int| 0 <= i < extra implies rest[i] == round[i] by {
            lemma_small_mod_int(i, size);
        }
        rest.to_multiset_ensures();
        assert(rest.no_duplicates());
        rest.lemma_multiset_has_no_duplicates();
        if rest.to_multiset().count(a) > 0 {
            assert(rest.to_multiset().contains(a));
        }
    } else {
        let fewer = (extra - size) as nat;
        let later = Seq::new(fewer, |i: int| round[i % round.len() as int]);
        lemma_rounds_are_fair(round, fewer, a, b);
        assert forall|i: int| 0 <= i < extra implies rest[i] == (round + later)[i] by {
            if i < size {
                lemma_small_mod_int(i, size);
            } else {
                lemma_mod_add_multiples_vanish(i - size, size);
                assert(size + (i - size) == i);
            }
        }
        assert(rest =~= round + later);
        vstd::seq_lib::lemma_multiset_commutative(round, later);
        round.to_multiset_ensures();
        round.lemma_multiset_has_no_duplicates();
        assert(round.to_multiset().count(a) == 1 && round.to_multiset().count(b) == 1);
    }
}

/// A list names the strategies that it holds between its commas.
pub proof fn law_list_of_strategies(named: Seq<Seq<char>>, id: Seq<char>)
    requires
        named.len() > 0,
        forall|i: int| 0 <= i < named.len() ==> !(#[trigger] named[i]).contains(','),
    ensures
        asked_for(Some(joined(named, ',')), id) <==> named.contains(id),
        asked_for(None, id),
{
    law_joined_is_split_back(named, ',');
}

/// What is selected is what is asked for of all strategies, in their order.
pub proof fn law_selection_keeps_order(list: Option<Seq<char>>)
    ensures
        selected(list, 8) == texts(STRATEGIES@).filter(|id: Seq<char>| asked_for(list, id)),
{
    lemma_selection_keeps_order(list, 8);
    assert(texts(STRATEGIES@).take(8) =~= texts(STRATEGIES@));
}

proof fn lemma_selection_keeps_order(list: Option<Seq<char>>, n: nat)
    requires
        n <= 8,
    ensures
        selected(list, n) == texts(STRATEGIES@).take(n as int).filter(
            |id: Seq<char>| asked_for(list, id),
        ),
    decreases n,
{
    reveal(Seq::filter);
    if n > 0 {
        let all = texts(STRATEGIES@).take(n as int);
        lemma_selection_keeps_order(list, (n - 1) as nat);
        assert(all.drop_last() =~= texts(STRATEGIES@).take(n - 1));
    }
}

/// A written number is taken as it is within its bounds, and the nearer bound in its
/// place outside them.
pub proof fn law_numbers_are_bounded(n: nat, usual: int, least: int, most: int)
    requires
        n <= usize::MAX,
        0 <= least <= most,
    ensures
        least <= n <= most ==> bounded(Some(decimal(n)), usual, least, most) == n,
        n < least ==> bounded(Some(decimal(n)), usual, least, most) == least,
        n > most ==> bounded(Some(decimal(n)), usual, least, most) == most,
        bounded(None, usual, least, most) == usual,
        bounded(Some(Seq::empty()), usual, least, most) == usual,
        bounded(Some(seq!['-'] + decimal(n)), usual, least, most) == usual,
        bounded(Some(decimal(n).push('x')), usual, least, most) == usual,
{
    lemma_decimal(n);
    law_other_texts_are_no_numbers(
        decimal(n).push('x'),
        usize::MAX as nat,
        decimal(n).len() as int,
    );
    law_written_number_is_read(n, usize::MAX as nat);
}

/// The partners of a number of a ticket are counted one by one: each other number of
/// the ticket adds how often the two were drawn together.
pub proof fn law_partners(st: Stats, draws: Seq<Draw>, numbers: Seq<u8>, n: int, c: u8)
    requires
        st.describes(draws),
        0 <= n < 57,
        c < 57,
    ensures
        partners(st, numbers.push(c), n) == partners(st, numbers, n) + if n == c {
            0
        } else {
            together(draws, n, c as int) as int
        },
        partners(st, Seq::empty(), n) == 0,
{
    assert(numbers.push(c).drop_last() =~= numbers);
    assert(st.cooc.at(n, c as int) == together(draws, n, c as int));
}

/// Each ticket of a request is made of rolls of its own, which follow those of the
/// ticket before it, and a bayes ticket of the posterior that stands at its position.
pub proof fn law_tickets_are_made_in_turn(
    st: Stats,
    ids: Seq<Seq<char>>,
    k: nat,
    posteriors: Seq<[u64; 57]>,
    rolls: Seq<Roll>,
    tickets: Seq<Ticket>,
) -> (cuts: Seq<int>)
    requires
        are_made(st, ids, k, posteriors, rolls, tickets),
    ensures
        cuts.len() == ids.len() + 1,
        cuts[0] == 0,
        cuts.last() == rolls.len(),
        tickets.len() == ids.len(),
        forall|i: int|
            0 <= i < ids.len() ==> {
                &&& 0 <= #[trigger] cuts[i] <= cuts[i + 1] <= rolls.len()
                &&& is_made(
                    st,
                    ids[i],
                    k,
                    posteriors[i]@,
                    rolls.subrange(cuts[i], cuts[i + 1]),
                    tickets[i].numbers@,
                )
                &&& strategy_of(ids[i]) == Some(Strategy::Bayes) ==> tickets[i].numbers@ == best(
                    posteriors[i]@,
                    k,
                )
            },
    decreases ids.len(),
{
    if ids.len() == 0 {
        seq![0int]
    } else {
        let fewer = ids.drop_last();
        let cut = choose|cut: int|
            0 <= cut <= rolls.len() && are_made(
                st,
                fewer,
                k,
                posteriors,
                #[trigger] rolls.take(cut),
                tickets.drop_last(),
            ) && is_made(
                st,
                ids.last(),
                k,
                posteriors[ids.len() - 1]@,
                rolls.skip(cut),
                tickets.last().numbers@,
            );
        let earlier = law_tickets_are_made_in_turn(
            st,
            fewer,
            k,
            posteriors,
            rolls.take(cut),
            tickets.drop_last(),
        );
        let cuts = earlier.push(rolls.len() as int);
        assert forall|i: int| 0 <= i < ids.len() implies {
            &&& 0 <= #[trigger] cuts[i] <= cuts[i + 1] <= rolls.len()
            &&& is_made(
                st,
                ids[i],
                k,
                posteriors[i]@,
                rolls.subrange(cuts[i], cuts[i + 1]),
                tickets[i].numbers@,
            )
            &&& strategy_of(ids[i]) == Some(Strategy::Bayes) ==> tickets[i].numbers@ == best(
                posteriors[i]@,
                k,
            )
        } by {
            if i < fewer.len() {
                assert(earlier[i] == cuts[i] && earlier[i + 1] == cuts[i + 1]);
                assert(fewer[i] == ids[i] && tickets.drop_last()[i] == tickets[i]);
                assert(rolls.take(cut).subrange(cuts[i], cuts[i + 1]) =~= rolls.subrange(
                    cuts[i],
                    cuts[i + 1],
                ));
            } else {
                assert(cuts[i] == earlier.last() && cuts[i] == cut);
                assert(rolls.subrange(cuts[i], cuts[i + 1]) =~= rolls.skip(cut));
            }
        }
        cuts
    }
}

} // verus!
