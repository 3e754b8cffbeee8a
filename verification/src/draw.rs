//! The draw history and its CSV form.
use crate::sort::{sort_by_key, Keyed};
use crate::text::{chars_of, read_unsigned, split_at, text_of, trim};
use vstd::prelude::*;

verus! {

use crate::sort::{
    law_sorting_keeps_items,
    lemma_sorted_by_key,
    lemma_sorted_map,
    lemma_sorted_members,
    own_key,
    sorted_by_key,
};
use crate::text::{
    contents,
    decimal,
    is_digit,
    is_space,
    joined,
    law_joined_is_split_back,
    law_written_number_is_read,
    lemma_decimal,
    lemma_split_around,
    lemma_split_single,
    split,
    trimmed,
    unsigned,
};

/// One draw of the lottery.
pub struct Draw {
    pub contest: u32,
    pub date: String,
    pub numbers: [u8; 6],
    pub pot: u64,
}

/// What a draw holds.
#[verifier::ext_equal]
pub struct DrawView {
    pub contest: u32,
    pub date: Seq<char>,
    pub numbers: Seq<u8>,
    pub pot: u64,
}

impl View for Draw {
    type V = DrawView;

    open spec fn view(&self) -> DrawView {
        DrawView {
            contest: self.contest,
            date: self.date@,
            numbers: self.numbers@,
            pot: self.pot,
        }
    }
}

impl Keyed for Draw {
    open spec fn sort_key(&self) -> int {
        self.contest as int
    }

    fn key(&self) -> (k: u64) {
        self.contest as u64
    }
}

/// What the draws of a list hold.
pub open spec fn views(draws: Seq<Draw>) -> Seq<DrawView> {
    draws.map_values(|d: Draw| d@)
}

/// The ball that a cell names: a number from 1 to 56.
pub open spec fn ball(cell: Seq<char>) -> Option<nat> {
    match unsigned(cell, 56) {
        Some(n) => if n >= 1 {
            Some(n)
        } else {
            None
        },
        None => None,
    }
}

/// The draw on a line of the CSV. The columns are product, contest, six balls,
/// the extra ball (not read), pot and date; a pot that is no number counts as
/// zero. A line that is too short, or whose contest or balls are no such
/// numbers, holds no draw.
pub open spec fn draw_on(line: Seq<char>) -> Option<DrawView> {
    let cells = split(trimmed(line), ',');
    let contest = unsigned(cells[1], u32::MAX as nat);
    if cells.len() >= 11 && contest is Some && (forall|i: int|
        0 <= i < 6 ==> ball(#[trigger] cells[2 + i]) is Some) {
        Some(
            DrawView {
                contest: contest->0 as u32,
                date: cells[10],
                numbers: sorted_by_key(
                    Seq::new(6, |i: int| ball(cells[2 + i])->0 as u8),
                    own_key::<u8>(),
                ),
                pot: match unsigned(trimmed(cells[9]), u64::MAX as nat) {
                    Some(pot) => pot as u64,
                    None => 0,
                },
            },
        )
    } else {
        None
    }
}

/// The draws on the given lines.
pub open spec fn draws_on(lines: Seq<Seq<char>>) -> Seq<DrawView>
    decreases lines.len(),
{
    if lines.len() == 0 {
        Seq::empty()
    } else {
        let rest = draws_on(lines.drop_last());
        match draw_on(lines.last()) {
            Some(d) => rest.push(d),
            None => rest,
        }
    }
}

/// Whether a draw shows that six of 56 balls are drawn.
pub open spec fn shows_era(d: DrawView) -> bool {
    exists|i: int| 0 <= i < d.numbers.len() && #[trigger] d.numbers[i] >= 50
}

/// How many draws stand before the first that shows the era.
pub open spec fn before_era(draws: Seq<DrawView>) -> nat
    decreases draws.len(),
{
    if draws.len() == 0 || shows_era(draws.first()) {
        0
    } else {
        1 + before_era(draws.drop_first())
    }
}

/// The draws from the first that shows the era on; none if none does.
pub open spec fn era(draws: Seq<DrawView>) -> Seq<DrawView> {
    draws.skip(before_era(draws) as int)
}

pub open spec fn contest_key() -> spec_fn(DrawView) -> int {
    |d: DrawView| d.contest as int
}

/// The history that a CSV holds: the draws on its lines but the first, in the
/// order of their contests, from the first that shows the era on.
pub open spec fn history(csv: Seq<char>) -> Seq<DrawView> {
    era(sorted_by_key(draws_on(split(csv, '\n').skip(1)), contest_key()))
}

/// Six balls of 1 to 56, the smaller ones first.
pub open spec fn playable(numbers: Seq<u8>) -> bool {
    &&& numbers.len() == 6
    &&& forall|i: int| 0 <= i < 6 ==> 1 <= #[trigger] numbers[i] <= 56
    &&& forall|i: int, j: int| 0 <= i <= j < 6 ==> numbers[i] <= numbers[j]
}

/// A draw that a line holds has six balls of 1 to 56 in order.
pub proof fn law_draw_on_line_is_playable(line: Seq<char>)
    ensures
        draw_on(line) is Some ==> playable(draw_on(line)->0.numbers),
{
    if draw_on(line) is Some {
        let cells = split(trimmed(line), ',');
        let drawn = Seq::new(6, |i: int| ball(cells[2 + i])->0 as u8);
        let numbers = draw_on(line)->0.numbers;
        lemma_sorted_by_key(drawn, own_key::<u8>());
        lemma_sorted_members(drawn, own_key::<u8>());
        assert forall|i: int| 0 <= i < 6 implies 1 <= #[trigger] numbers[i] <= 56 by {
            assert(drawn.contains(numbers[i]));
            let j = choose|j: int| 0 <= j < 6 && drawn[j] == numbers[i];
            assert(ball(cells[2 + j]) is Some);
        }
        let key = own_key::<u8>();
        assert forall|i: int, j: int| 0 <= i <= j < 6 implies numbers[i] <= numbers[j] by {
            assert(key(numbers[i]) <= key(numbers[j]));
        }
    }
}

proof fn lemma_draws_on_playable(lines: Seq<Seq<char>>)
    ensures
        forall|i: int|
            0 <= i < draws_on(lines).len() ==> playable((#[trigger] draws_on(lines)[i]).numbers),
    decreases lines.len(),
{
    if lines.len() > 0 {
        lemma_draws_on_playable(lines.drop_last());
        law_draw_on_line_is_playable(lines.last());
        let rest = draws_on(lines.drop_last());
        assert forall|i: int| 0 <= i < draws_on(lines).len() implies playable(
            (#[trigger] draws_on(lines)[i]).numbers,
        ) by {
            if i < rest.len() {
                assert(draws_on(lines)[i] == rest[i]);
            }
        }
    }
}

proof fn lemma_before_era(draws: Seq<DrawView>)
    ensures
        before_era(draws) <= draws.len(),
        forall|i: int| 0 <= i < before_era(draws) ==> !shows_era(#[trigger] draws[i]),
        before_era(draws) < draws.len() ==> shows_era(draws[before_era(draws) as int]),
    decreases draws.len(),
{
    if draws.len() > 0 && !shows_era(draws.first()) {
        let rest = draws.drop_first();
        lemma_before_era(rest);
        assert forall|i: int| 0 <= i < before_era(draws) implies !shows_era(
            #[trigger] draws[i],
        ) by {
            if i > 0 {
                assert(draws[i] == rest[i - 1]);
            }
        }
    }
}

/// Every draw of a history has six balls of 1 to 56 in order, the contests
/// ascend, and the first draw shows the era.
pub proof fn law_history(csv: Seq<char>)
    ensures
        forall|i: int| 0 <= i < history(csv).len() ==> playable((#[trigger] history(csv)[i]).numbers),
        forall|i: int, j: int|
            0 <= i <= j < history(csv).len() ==> (#[trigger] history(csv)[i]).contest <= (
            #[trigger] history(csv)[j]).contest,
        history(csv).len() > 0 ==> shows_era(history(csv).first()),
        history(csv).len() > 0 ==> history(csv).first().numbers[5] >= 50,
{
    let read = draws_on(split(csv, '\n').skip(1));
    let key = contest_key();
    let sorted = sorted_by_key(read, key);
    let kept = history(csv);
    let gone = sorted.len() - kept.len();
    lemma_draws_on_playable(split(csv, '\n').skip(1));
    lemma_sorted_by_key(read, key);
    lemma_sorted_members(read, key);
    lemma_before_era(sorted);
    assert forall|i: int| 0 <= i < kept.len() implies playable((#[trigger] kept[i]).numbers) by {
        assert(kept[i] == sorted[i + gone]);
        assert(read.contains(sorted[i + gone]));
    }
    assert forall|i: int, j: int| 0 <= i <= j < kept.len() implies (#[trigger] kept[i]).contest <= (
    #[trigger] kept[j]).contest by {
        assert(kept[i] == sorted[i + gone] && kept[j] == sorted[j + gone]);
        assert(key(sorted[i + gone]) <= key(sorted[j + gone]));
    }
    if kept.len() > 0 {
        assert(kept.first() == sorted[gone as int]);
        let numbers = kept[0].numbers;
        let j = choose|j: int| 0 <= j < numbers.len() && #[trigger] numbers[j] >= 50;
        assert(numbers[j] <= numbers[5]);
    }
}

/// Every draw of the sorted list that is not kept is older than the era.
pub proof fn law_only_older_draws_are_left_out(csv: Seq<char>, i: int)
    requires
        0 <= i < sorted_by_key(draws_on(split(csv, '\n').skip(1)), contest_key()).len(),
    ensures
        ({
            let all = sorted_by_key(draws_on(split(csv, '\n').skip(1)), contest_key());
            let gone = all.len() - history(csv).len();
            if i < gone {
                !shows_era(all[i]) && forall|j: int|
                    0 <= j < all[i].numbers.len() ==> #[trigger] all[i].numbers[j] < 50
            } else {
                history(csv)[i - gone] == all[i]
            }
        }),
{
    lemma_before_era(sorted_by_key(draws_on(split(csv, '\n').skip(1)), contest_key()));
}

/// Whether two lines have the same cells, but for that of the extra ball.
pub open spec fn same_but_extra_ball(line: Seq<char>, other: Seq<char>) -> bool {
    let cells = split(trimmed(line), ',');
    let others = split(trimmed(other), ',');
    &&& cells.len() == others.len()
    &&& forall|i: int| 0 <= i < cells.len() && i != 8 ==> #[trigger] cells[i] == others[i]
}

proof fn lemma_same_draw(line: Seq<char>, other: Seq<char>)
    requires
        same_but_extra_ball(line, other),
    ensures
        draw_on(line) == draw_on(other),
{
    let cells = split(trimmed(line), ',');
    let others = split(trimmed(other), ',');
    if cells.len() >= 11 {
        assert forall|i: int| 0 <= i < 6 implies #[trigger] cells[2 + i] == others[2 + i] by {}
        assert(cells[1] == others[1] && cells[9] == others[9] && cells[10] == others[10]);
        assert forall|i: int| 0 <= i < 6 implies ball(cells[2 + i]) == ball(
            #[trigger] others[2 + i],
        ) by {
            assert(cells[2 + i] == others[2 + i]);
        }
        assert(Seq::new(6, |i: int| ball(cells[2 + i])->0 as u8) =~= Seq::new(
            6,
            |i: int| ball(others[2 + i])->0 as u8,
        ));
    }
}

proof fn lemma_same_draws(lines: Seq<Seq<char>>, others: Seq<Seq<char>>)
    requires
        lines.len() == others.len(),
        forall|i: int|
            0 <= i < lines.len() ==> same_but_extra_ball(#[trigger] lines[i], others[i]),
    ensures
        draws_on(lines) == draws_on(others),
    decreases lines.len(),
{
    if lines.len() > 0 {
        lemma_same_draws(lines.drop_last(), others.drop_last());
        assert(same_but_extra_ball(lines[lines.len() - 1], others[lines.len() - 1]));
        lemma_same_draw(lines.last(), others.last());
    }
}

/// The extra ball is ignored: two files whose lines, the first apart, differ in
/// it alone hold the same history.
pub proof fn law_extra_ball_is_ignored(csv: Seq<char>, other: Seq<char>)
    requires
        split(csv, '\n').len() == split(other, '\n').len(),
        forall|i: int|
            1 <= i < split(csv, '\n').len() ==> same_but_extra_ball(
                #[trigger] split(csv, '\n')[i],
                split(other, '\n')[i],
            ),
    ensures
        history(csv) == history(other),
{
    let lines = split(csv, '\n');
    let others = split(other, '\n');
    crate::text::lemma_split_joined(csv, '\n');
    assert forall|i: int| 0 <= i < lines.skip(1).len() implies same_but_extra_ball(
        #[trigger] lines.skip(1)[i],
        others.skip(1)[i],
    ) by {
        assert(lines.skip(1)[i] == lines[i + 1] && others.skip(1)[i] == others[i + 1]);
    }
    lemma_same_draws(lines.skip(1), others.skip(1));
}

fn read_ball(cell: &Vec<char>) -> (n: Option<u8>)
    ensures
        n is Some <==> ball(cell@) is Some,
        n is Some ==> n->0 == ball(cell@)->0,
{
    match read_unsigned(cell.as_slice(), 56) {
        Some(n) => if n >= 1 {
            Some(n as u8)
        } else {
            None
        },
        None => None,
    }
}

fn read_draw(line: &Vec<char>) -> (d: Option<Draw>)
    ensures
        d is Some <==> draw_on(line@) is Some,
        d is Some ==> d->0@ == draw_on(line@)->0,
{
    let cells: Vec<Vec<char>> = split_at(trim(line.as_slice()), ',');
    let ghost spec_cells = split(trimmed(line@), ',');
    assert forall|i: int| 0 <= i < cells@.len() implies #[trigger] spec_cells[i] == cells@[i]@ by {
        assert(contents(cells@)[i] == cells@[i]@);
    }
    if cells.len() < 11 {
        return None;
    }
    let contest: u32 = match read_unsigned(cells[1].as_slice(), u32::MAX as u64) {
        Some(n) => n as u32,
        None => {
            return None;
        },
    };
    let mut drawn: Vec<u8> = Vec::new();
    let mut i: usize = 0;
    while i < 6
        invariant
            i <= 6,
            cells@.len() >= 11,
            spec_cells == split(trimmed(line@), ','),
            spec_cells.len() == cells@.len(),
            forall|j: int| 0 <= j < cells@.len() ==> #[trigger] spec_cells[j] == cells@[j]@,
            drawn@.len() == i,
            forall|j: int| 0 <= j < i ==> ball(#[trigger] spec_cells[2 + j]) is Some,
            forall|j: int| 0 <= j < i ==> #[trigger] drawn@[j] == ball(spec_cells[2 + j])->0,
        decreases 6 - i,
    {
        let ghost before = drawn@;
        assert(spec_cells[2 + i] == cells@[2 + i]@);
        match read_ball(&cells[2 + i]) {
            Some(n) => {
                drawn.push(n);
                assert forall|j: int| 0 <= j < i + 1 implies ball(spec_cells[2 + j]) is Some
                    && #[trigger] drawn@[j] == ball(spec_cells[2 + j])->0 by {
                    if j < i {
                        assert(drawn@[j] == before[j]);
                    } else {
                        assert(spec_cells[2 + j] == cells@[2 + i]@);
                    }
                }
            },
            None => {
                return None;
            },
        }
        i += 1;
    }
    assert forall|j: int| 0 <= j < 6 implies ball(#[trigger] spec_cells[2 + j]) is Some by {
        assert(drawn@[j] == ball(spec_cells[2 + j])->0);
    }
    assert(drawn@ =~= Seq::new(6, |i: int| ball(spec_cells[2 + i])->0 as u8));
    let ghost all = drawn@;
    let sorted: Vec<u8> = sort_by_key(drawn);
    proof {
        lemma_sorted_by_key(all, own_key::<u8>());
    }
    let numbers: [u8; 6] = [sorted[0], sorted[1], sorted[2], sorted[3], sorted[4], sorted[5]];
    assert(numbers@ =~= sorted@);
    let pot: u64 = match read_unsigned(trim(cells[9].as_slice()), u64::MAX) {
        Some(pot) => pot,
        None => 0,
    };
    Some(Draw { contest, date: text_of(cells[10].as_slice()), numbers, pot })
}

fn shows(d: &Draw) -> (b: bool)
    ensures
        b == shows_era(d@),
{
    let mut i: usize = 0;
    while i < 6
        invariant
            i <= 6,
            forall|j: int| 0 <= j < i ==> d.numbers@[j] < 50,
        decreases 6 - i,
    {
        if d.numbers[i] >= 50 {
            assert(d@.numbers[i as int] >= 50);
            return true;
        }
        i += 1;
    }
    false
}

/// Draws of the 6-of-56 era (from the first contest containing a number
/// >= 50; none without such a contest), oldest to newest. The extra ball is
/// ignored.
pub fn parse(csv: &str) -> (draws: Vec<Draw>)
    ensures
        views(draws@) == history(csv@),
        forall|i: int| 0 <= i < draws@.len() ==> playable((#[trigger] draws@[i]).numbers@),
{
    let lines: Vec<Vec<char>> = split_at(chars_of(csv).as_slice(), '\n');
    let ghost spec_lines = split(csv@, '\n');
    let mut read: Vec<Draw> = Vec::new();
    let mut i: usize = 1;
    proof {
        crate::text::lemma_split_joined(csv@, '\n');
        assert(spec_lines.skip(1).take(0) =~= Seq::empty());
        assert(views(read@) =~= draws_on(spec_lines.skip(1).take(0)));
    }
    while i < lines.len()
        invariant
            1 <= i <= lines@.len(),
            spec_lines == contents(lines@),
            views(read@) == draws_on(spec_lines.skip(1).take(i - 1)),
        decreases lines@.len() - i,
    {
        let ghost before = views(read@);
        let ghost next = spec_lines.skip(1).take(i as int);
        assert(next.drop_last() =~= spec_lines.skip(1).take(i - 1));
        assert(next.last() == lines@[i as int]@);
        if let Some(d) = read_draw(&lines[i]) {
            read.push(d);
            assert(views(read@) =~= before.push(d@));
        }
        i += 1;
    }
    assert(spec_lines.skip(1).take(i - 1) =~= spec_lines.skip(1));
    let ghost all = read@;
    let mut draws: Vec<Draw> = sort_by_key(read);
    let ghost sorted = views(draws@);
    proof {
        let view = |d: Draw| d@;
        lemma_sorted_map(all, view, own_key::<Draw>(), contest_key());
        lemma_before_era(sorted);
        law_history(csv@);
    }
    let mut start: usize = 0;
    while start < draws.len() && !shows(&draws[start])
        invariant
            start <= draws@.len(),
            sorted == views(draws@),
            forall|j: int| 0 <= j < start ==> !shows_era(#[trigger] sorted[j]),
        decreases draws@.len() - start,
    {
        assert(sorted[start as int] == draws@[start as int]@);
        start += 1;
    }
    if start < draws.len() {
        assert(sorted[start as int] == draws@[start as int]@);
    }
    let draws: Vec<Draw> = draws.split_off(start);
    assert(views(draws@) =~= sorted.skip(start as int));
    assert forall|i: int| 0 <= i < draws@.len() implies playable(
        (#[trigger] draws@[i]).numbers@,
    ) by {
        assert(views(draws@)[i] == draws@[i]@);
    }
    draws
}

/// The draws on lines that follow each other are those on the first ones and those on
/// the others, and a line has at most one.
pub proof fn law_draws_line_by_line(lines: Seq<Seq<char>>, others: Seq<Seq<char>>, line: Seq<char>)
    ensures
        draws_on(lines + others) == draws_on(lines) + draws_on(others),
        draw_on(line) is Some ==> draws_on(seq![line]) == seq![draw_on(line)->0],
        draw_on(line) is None ==> draws_on(seq![line]).len() == 0,
    decreases others.len(),
{
    if others.len() == 0 {
        assert(lines + others =~= lines);
        assert(draws_on(lines) + draws_on(others) =~= draws_on(lines));
    } else {
        law_draws_line_by_line(lines, others.drop_last(), line);
        assert((lines + others).drop_last() =~= lines + others.drop_last());
        assert(draws_on(lines + others) =~= draws_on(lines) + draws_on(others));
    }
    assert(seq![line].drop_last() =~= Seq::empty());
    assert(draws_on(Seq::<Seq<char>>::empty()).len() == 0);
    if draw_on(line) is Some {
        assert(draws_on(seq![line]) =~= seq![draw_on(line)->0]);
    }
}

/// The first line is not read, and it alone: the draws are those on the lines behind
/// it, in the order of their contests, none lost and none added.
pub proof fn law_first_line_is_not_read(header: Seq<char>, other: Seq<char>, body: Seq<char>)
    requires
        !header.contains('\n'),
        !other.contains('\n'),
    ensures
        history(header.push('\n') + body) == history(other.push('\n') + body),
        ({
            let read = draws_on(split(body, '\n'));
            let kept = history(header.push('\n') + body);
            let all = sorted_by_key(read, contest_key());
            &&& all.to_multiset() == read.to_multiset()
            &&& kept.len() <= all.len()
            &&& kept == all.skip(all.len() - kept.len())
            &&& forall|i: int|
                0 <= i < all.len() - kept.len() ==> !shows_era(#[trigger] all[i])
        }),
{
    lemma_split_around(header, body, '\n');
    lemma_split_around(other, body, '\n');
    lemma_split_single(header, '\n');
    lemma_split_single(other, '\n');
    let lines = split(body, '\n');
    assert(split(header.push('\n') + body, '\n').skip(1) =~= lines);
    assert(split(other.push('\n') + body, '\n').skip(1) =~= lines);
    let read = draws_on(lines);
    law_sorting_keeps_items(read, contest_key());
    lemma_before_era(sorted_by_key(read, contest_key()));
}

/// The cells of a line of the CSV that tells of a draw.
pub open spec fn cells_of(
    product: Seq<char>,
    contest: nat,
    balls: Seq<nat>,
    extra: Seq<char>,
    pot: nat,
    date: Seq<char>,
) -> Seq<Seq<char>> {
    seq![
        product,
        decimal(contest),
        decimal(balls[0]),
        decimal(balls[1]),
        decimal(balls[2]),
        decimal(balls[3]),
        decimal(balls[4]),
        decimal(balls[5]),
        extra,
        decimal(pot),
        date,
    ]
}

proof fn lemma_decimal_is_plain(n: nat)
    ensures
        !decimal(n).contains(','),
        trimmed(decimal(n)) == decimal(n),
{
    lemma_decimal(n);
    let s = decimal(n);
    if s.contains(',') {
        let i = choose|i: int| 0 <= i < s.len() && s[i] == ',';
        assert(is_digit(s[i]));
    }
    assert(is_digit(s[0]) && is_digit(s[s.len() - 1]));
}

proof fn lemma_joined_ends(cells: Seq<Seq<char>>)
    requires
        cells.len() > 0,
        cells[0].len() > 0,
        cells.last().len() > 0,
    ensures
        joined(cells, ',').len() > 0,
        joined(cells, ',').first() == cells[0].first(),
        joined(cells, ',').last() == cells.last().last(),
    decreases cells.len(),
{
    if cells.len() > 1 {
        let rest = cells.drop_last();
        let whole = joined(cells, ',');
        lemma_joined_starts(rest);
        assert(whole[whole.len() - 1] == cells.last()[cells.last().len() - 1]);
    }
}

proof fn lemma_joined_starts(cells: Seq<Seq<char>>)
    requires
        cells.len() > 0,
        cells[0].len() > 0,
    ensures
        joined(cells, ',').len() > 0,
        joined(cells, ',')[0] == cells[0][0],
    decreases cells.len(),
{
    if cells.len() > 1 {
        lemma_joined_starts(cells.drop_last());
    }
}

/// A line that tells of a draw is read as that draw: its contest, its six balls in
/// ascending order, its pot and its date, each from its own column. With a ball that
/// is not one of 1 to 56, or a contest that is too large, it is no draw; a pot that is
/// too large counts as zero.
pub proof fn law_written_draw_is_read_back(
    product: Seq<char>,
    contest: nat,
    balls: Seq<nat>,
    extra: Seq<char>,
    pot: nat,
    date: Seq<char>,
)
    requires
        balls.len() == 6,
        product.len() > 0 && !is_space(product.first()) && !product.contains(','),
        !extra.contains(','),
        date.len() > 0 && !is_space(date.last()) && !date.contains(','),
    ensures
        ({
            let line = joined(cells_of(product, contest, balls, extra, pot, date), ',');
            let valid = contest <= u32::MAX && forall|i: int|
                0 <= i < 6 ==> 1 <= #[trigger] balls[i] <= 56;
            &&& !valid ==> draw_on(line) is None
            &&& valid ==> draw_on(line) is Some
            &&& valid ==> {
                let d = draw_on(line)->0;
                &&& d.contest == contest
                &&& d.pot == if pot <= u64::MAX {
                    pot
                } else {
                    0
                }
                &&& d.date == date
                &&& playable(d.numbers)
                &&& d.numbers.to_multiset() == balls.map_values(|n: nat| n as u8).to_multiset()
            }
        }),
{
    let cells = cells_of(product, contest, balls, extra, pot, date);
    let line = joined(cells, ',');
    lemma_decimal_is_plain(contest);
    lemma_decimal_is_plain(pot);
    law_written_number_is_read(contest, u32::MAX as nat);
    law_written_number_is_read(pot, u64::MAX as nat);
    assert forall|i: int| 0 <= i < 6 implies cells[2 + i] == decimal(#[trigger] balls[i])
        && !cells[2 + i].contains(',') && (ball(cells[2 + i]) is Some <==> 1 <= balls[i] <= 56) && (
    ball(cells[2 + i]) is Some ==> ball(cells[2 + i])->0 == balls[i]) by {
        lemma_decimal_is_plain(balls[i]);
        law_written_number_is_read(balls[i], 56);
    }
    assert forall|i: int| 0 <= i < cells.len() implies !(#[trigger] cells[i]).contains(',') by {
        if 2 <= i < 8 {
            assert(cells[2 + (i - 2)] == decimal(balls[i - 2]));
        }
    }
    law_joined_is_split_back(cells, ',');
    lemma_joined_ends(cells);
    assert(trimmed(line) == line);
    assert(split(trimmed(line), ',') == cells);
    let valid = contest <= u32::MAX && forall|i: int|
        0 <= i < 6 ==> 1 <= #[trigger] balls[i] <= 56;
    if valid {
        assert forall|i: int| 0 <= i < 6 implies ball(#[trigger] cells[2 + i]) is Some by {
            assert(1 <= balls[i] <= 56);
        }
        let drawn = Seq::new(6, |i: int| ball(cells[2 + i])->0 as u8);
        assert(drawn =~= balls.map_values(|n: nat| n as u8)) by {
            assert forall|i: int| 0 <= i < 6 implies drawn[i] == balls[i] as u8 by {
                assert(1 <= balls[i] <= 56);
                assert(ball(cells[2 + i])->0 == balls[i]);
            }
        }
        law_sorting_keeps_items(drawn, own_key::<u8>());
        law_draw_on_line_is_playable(line);
    } else if contest <= u32::MAX {
        let i = choose|i: int| 0 <= i < 6 && !(1 <= #[trigger] balls[i] <= 56);
        assert(ball(cells[2 + i]) is None);
    }
}

/// A line of fewer than eleven cells holds no draw.
pub proof fn law_short_lines_hold_no_draw(cells: Seq<Seq<char>>)
    requires
        0 < cells.len() < 11,
        forall|i: int| 0 <= i < cells.len() ==> !(#[trigger] cells[i]).contains(','),
        cells[0].len() > 0 && !is_space(cells[0].first()),
        cells.last().len() > 0 && !is_space(cells.last().last()),
    ensures
        draw_on(joined(cells, ',')) is None,
{
    law_joined_is_split_back(cells, ',');
    lemma_joined_ends(cells);
    assert(trimmed(joined(cells, ',')) == joined(cells, ','));
}

} // verus!
