//! What the site serves, and what it does to stay up to date.
use crate::calendar::can_count;
use crate::draw::{parse, Draw};
use crate::pot::extract_pot;
use crate::stats::{can_describe, Stats};
use crate::summary::{summarize, Summary};
use crate::text::{chars_of, replace, text_of, write_decimal};
use std::sync::Arc;
use vstd::prelude::*;

verus! {

use crate::draw::{history, law_history, views};
use crate::pot::advertised_pot;
use crate::stats::{
    countable,
    law_countability_depends_on_contents,
    law_few_draws_are_countable,
};
use crate::text::{decimal, law_replacing, law_replacing_by_itself, occurs_at, replaced};

/// What stands before the page.
pub const HEAD: &'static str = r#"<!doctype html>
<html lang="es-MX">
<head>
<meta charset="utf-8">
<meta name="viewport" content="width=device-width, initial-scale=1">
<meta name="description" content="Chiripa — apuestas del Melate generadas con 8 estrategias estadísticas sobre el histórico oficial. Sitio no oficial, solo entretenimiento: toda combinación tiene la misma probabilidad.">
<link rel="icon" href="data:image/svg+xml,<svg xmlns='http://www.w3.org/2000/svg' viewBox='0 0 100 100'><text y='.9em' font-size='90'>🍀</text></svg>">
</head>
<body>
"#;

/// What stands behind the page.
pub const FOOT: &'static str = "\n</body>\n</html>\n";

/// Fewer draws than these look corrupt.
pub const FEWEST_DRAWS: usize = 100;

/// The most draws whose frequencies, and one more for each ball, add up to a
/// number of the type they are shown in.
pub const MOST_DRAWS: usize = 715_827_873;

/// Seconds of a day.
pub const DAY: u64 = 86_400;

/// Seconds from one refresh to the next: two days.
pub const REFRESH: u64 = 172_800;

/// What the site serves.
#[derive(Clone)]
pub struct AppState {
    pub page: String,
    pub summary: Option<Summary>,
    pub stats: Option<Arc<Stats>>,
    pub next_pot: Option<u64>,
    pub updated: u64,
    pub downloads: u32,
    pub tigris_backup: bool,
}

impl AppState {
    /// The site before anything is published.
    pub fn new() -> (state: AppState)
        ensures
            state.page@.len() == 0,
            state.summary is None,
            state.stats is None,
            state.next_pot is None,
            state.updated == 0,
            state.downloads == 0,
            !state.tigris_backup,
    {
        AppState {
            page: String::new(),
            summary: None,
            stats: None,
            next_pot: None,
            updated: 0,
            downloads: 0,
            tigris_backup: false,
        }
    }

    /// The site serves a page with the statistics of the given draws.
    pub open spec fn serves(&self, draws: Seq<Draw>, template: Seq<char>, today: int) -> bool {
        &&& self.page@ == page_text(template, draws.last().contest as nat, draws.last().date@)
        &&& self.stats is Some
        &&& self.stats->0.describes(draws)
        &&& self.summary is Some
        &&& self.summary->0.sums_up(*self.stats->0, draws, today)
    }

    /// The site serves what a history says.
    pub open spec fn publishes(&self, csv: Seq<char>, template: Seq<char>, today: int) -> bool {
        exists|draws: Seq<Draw>|
            #[trigger] views(draws) == history(csv) && self.serves(draws, template, today)
    }
}

/// The page: the template with the last contest and its date filled in, between
/// the two ends.
pub open spec fn page_text(template: Seq<char>, contest: nat, date: Seq<char>) -> Seq<char> {
    HEAD@ + replaced(
        replaced(template, "__LAST_DRAW__"@, decimal(contest)),
        "__LAST_DATE__"@,
        date,
    ) + FOOT@
}

/// Whether a history can be published: it has enough draws, their counts and six
/// times their number and 56 fit their type, and their dates can be counted with.
pub open spec fn publishable(csv: Seq<char>, today: int) -> bool {
    &&& history(csv).len() >= FEWEST_DRAWS
    &&& 6 * history(csv).len() + 56 <= u32::MAX
    &&& exists|draws: Seq<Draw>|
        #[trigger] views(draws) == history(csv) && countable(draws)
    &&& crate::calendar::countable(history(csv), today)
}

fn extend(out: &mut Vec<char>, chars: &Vec<char>)
    ensures
        final(out)@ == old(out)@ + chars@,
{
    let ghost before = out@;
    let mut i: usize = 0;
    while i < chars.len()
        invariant
            i <= chars@.len(),
            out@ == before + chars@.take(i as int),
        decreases chars@.len() - i,
    {
        out.push(chars[i]);
        i += 1;
        assert(out@ =~= before + chars@.take(i as int));
    }
    assert(chars@.take(i as int) =~= chars@);
}

fn write_page(template: &str, contest: u32, date: &str) -> (page: String)
    ensures
        page@ == page_text(template@, contest as nat, date@),
{
    let mut page: Vec<char> = chars_of(HEAD);
    proof {
        reveal_strlit("__LAST_DRAW__");
        reveal_strlit("__LAST_DATE__");
    }
    let with_draw: Vec<char> = replace(
        chars_of(template).as_slice(),
        chars_of("__LAST_DRAW__").as_slice(),
        write_decimal(contest as u64).as_slice(),
    );
    let with_date: Vec<char> = replace(
        with_draw.as_slice(),
        chars_of("__LAST_DATE__").as_slice(),
        chars_of(date).as_slice(),
    );
    extend(&mut page, &with_date);
    extend(&mut page, &chars_of(FOOT));
    text_of(page.as_slice())
}

/// Rebuilds page and statistics from a history. Returns false, and leaves the
/// site as it is, if the history looks corrupt: it has fewer than 100 draws, or
/// its counts do not fit their type, or its dates cannot be counted with.
pub fn publish(
    state: &mut AppState,
    csv: &str,
    template: &str,
    now: u64,
    downloaded: bool,
) -> (done: bool)
    requires
        downloaded && publishable(csv@, now as int / DAY as int) ==> old(state).downloads
            < u32::MAX,
    ensures
        done == publishable(csv@, now as int / DAY as int),
        !done ==> *final(state) == *old(state),
        done ==> {
            &&& final(state).publishes(csv@, template@, now as int / DAY as int)
            &&& final(state).updated == now
            &&& final(state).downloads == old(state).downloads + if downloaded {
                1int
            } else {
                0
            }
            &&& final(state).next_pot == old(state).next_pot
            &&& final(state).tigris_backup == old(state).tigris_backup
        },
{
    let today: i64 = (now / DAY) as i64;
    let draws: Vec<Draw> = parse(csv);
    assert(views(draws@).len() == draws@.len());
    if draws.len() < FEWEST_DRAWS || draws.len() > MOST_DRAWS {
        return false;
    }
    if !can_describe(draws.as_slice()) {
        proof {
            assert forall|other: Seq<Draw>|
                #[trigger] views(other) == history(csv@) implies !countable(other) by {
                if countable(other) {
                    law_countability_depends_on_contents(other, draws@);
                }
            }
        }
        return false;
    }
    assert(views(draws@) == history(csv@) && countable(draws@));
    if !can_count(draws.as_slice(), today) {
        return false;
    }
    let st: Stats = Stats::new(draws.as_slice());
    let page: String = write_page(template, st.contest, st.date.as_str());
    let summary: Summary = summarize(&st, draws.as_slice(), today);
    state.page = page;
    state.summary = Some(summary);
    state.updated = now;
    if downloaded {
        state.downloads = state.downloads + 1;
    }
    state.stats = Some(Arc::new(st));
    assert(views(draws@) == history(csv@) && state.serves(draws@, template@, today as int));
    true
}

/// How the site is doing.
pub struct Health {
    pub ok: bool,
    pub contest: u32,
    pub date: String,
    pub updated_secs_ago: u64,
    pub downloads: u32,
    pub tigris_backup: bool,
}

/// Says how the site is doing; without statistics the contest is 0 and the date
/// empty.
pub fn health(state: &AppState, now: u64) -> (health: Health)
    ensures
        health.ok == (state.page@.len() > 0),
        match state.stats {
            Some(st) => health.contest == st.contest && health.date@ == st.date@,
            None => health.contest == 0 && health.date@.len() == 0,
        },
        health.updated_secs_ago == if now >= state.updated {
            now - state.updated
        } else {
            0
        },
        health.downloads == state.downloads,
        health.tigris_backup == state.tigris_backup,
{
    let (contest, date): (u32, String) = match &state.stats {
        Some(st) => (st.contest, st.date.clone()),
        None => (0, String::new()),
    };
    Health {
        ok: !state.page.as_str().is_empty(),
        contest,
        date,
        updated_secs_ago: now.saturating_sub(state.updated),
        downloads: state.downloads,
        tigris_backup: state.tigris_backup,
    }
}

/// What a refresh does next.
pub enum Step {
    /// Fetch the page that advertises the pot.
    FetchPot,
    /// Fetch the official history.
    FetchOfficial,
    /// Upload the history to the bucket.
    Upload { csv: String },
    /// Download the history from the bucket.
    Download,
    /// Wait for the next refresh.
    Sleep,
}

/// What came of a step.
pub enum Reply {
    /// The text that was asked for.
    Text { text: String },
    /// Nothing was asked for, and all went well.
    Done,
    Failed,
}

/// The step that helps out where the official history could not be published:
/// the backup is needed if there is no page yet.
pub open spec fn is_fallback(step: Step, state: AppState, bucket: bool) -> bool {
    if bucket && state.page@.len() == 0 {
        step is Download
    } else {
        step is Sleep
    }
}

fn fall_back(state: &AppState, bucket: bool) -> (step: Step)
    ensures
        is_fallback(step, *state, bucket),
{
    if bucket && state.page.as_str().is_empty() {
        Step::Download
    } else {
        Step::Sleep
    }
}

/// What a refresh does after the fetch of the official history: it is published,
/// and backed up where there is a bucket.
pub open spec fn after_official(
    before: AppState,
    after: AppState,
    next: Step,
    reply: Reply,
    bucket: bool,
    template: Seq<char>,
    now: u64,
) -> bool {
    match reply {
        Reply::Text { text } if publishable(text@, now as int / DAY as int) => {
            &&& after.publishes(text@, template, now as int / DAY as int)
            &&& after.updated == now
            &&& after.downloads == before.downloads + 1
            &&& after.next_pot == before.next_pot
            &&& after.tigris_backup == before.tigris_backup
            &&& if bucket {
                next is Upload && next->csv@ == text@
            } else {
                next is Sleep
            }
        },
        _ => after == before && is_fallback(next, after, bucket),
    }
}

/// What a refresh does after the download of the backup: it is published, which
/// does not count as a download of the official history.
pub open spec fn after_backup(
    before: AppState,
    after: AppState,
    reply: Reply,
    template: Seq<char>,
    now: u64,
) -> bool {
    match reply {
        Reply::Text { text } if publishable(text@, now as int / DAY as int) => {
            &&& after.publishes(text@, template, now as int / DAY as int)
            &&& after.updated == now
            &&& after.downloads == before.downloads
            &&& after.next_pot == before.next_pot
            &&& after.tigris_backup == before.tigris_backup
        },
        _ => after == before,
    }
}

/// What a refresh does after a step and the reply to it.
pub open spec fn advances(
    before: AppState,
    after: AppState,
    step: Step,
    next: Step,
    reply: Reply,
    bucket: bool,
    template: Seq<char>,
    now: u64,
) -> bool {
    match step {
        Step::FetchPot => {
            &&& next is FetchOfficial
            &&& match reply {
                Reply::Text { text } if advertised_pot(text@) is Some => {
                    &&& after.next_pot is Some
                    &&& after.next_pot->0 == advertised_pot(text@)->0
                    &&& after == (AppState {
                        next_pot: after.next_pot,
                        ..before
                    })
                },
                _ => after == before,
            }
        },
        Step::FetchOfficial => after_official(
            before,
            after,
            next,
            reply,
            bucket,
            template,
            now,
        ),
        Step::Upload { csv } => {
            &&& next is Sleep
            &&& after == (AppState {
                tigris_backup: before.tigris_backup || reply is Done,
                ..before
            })
        },
        Step::Download => next is Sleep && after_backup(
            before,
            after,
            reply,
            template,
            now,
        ),
        Step::Sleep => next is FetchPot && after == before,
    }
}

/// A published page is not empty.
proof fn lemma_page_is_not_empty(template: Seq<char>, contest: nat, date: Seq<char>)
    ensures
        page_text(template, contest, date).len() > 0,
{
    reveal_strlit("\n</body>\n</html>\n");
}

/// Once there is a page, no step of a refresh takes it away.
pub proof fn law_page_is_never_lost(
    before: AppState,
    after: AppState,
    step: Step,
    next: Step,
    reply: Reply,
    bucket: bool,
    template: Seq<char>,
    now: u64,
)
    requires
        advances(before, after, step, next, reply, bucket, template, now),
        before.page@.len() > 0,
    ensures
        after.page@.len() > 0,
{
    assert forall|csv: Seq<char>, today: int| #[trigger]
        after.publishes(csv, template, today) implies after.page@.len() > 0 by {
        let draws = choose|draws: Seq<Draw>|
            #[trigger] views(draws) == history(csv) && after.serves(draws, template, today);
        lemma_page_is_not_empty(template, draws.last().contest as nat, draws.last().date@);
    }
}

/// If the official history does not come or looks corrupt, the last good version
/// stays, and the backup is asked for only where there is none.
pub proof fn law_last_good_version_stays(
    before: AppState,
    after: AppState,
    next: Step,
    reply: Reply,
    bucket: bool,
    template: Seq<char>,
    now: u64,
)
    requires
        advances(before, after, Step::FetchOfficial, next, reply, bucket, template, now),
        reply is Text ==> !publishable(reply->text@, now as int / DAY as int),
    ensures
        after == before,
        before.page@.len() > 0 ==> next is Sleep,
        before.page@.len() == 0 && bucket ==> next is Download,
{
}

/// How many steps of a refresh there are at most before it sleeps.
pub open spec fn steps_left(step: Step) -> nat {
    match step {
        Step::FetchPot => 3,
        Step::FetchOfficial => 2,
        Step::Upload { csv } => 1,
        Step::Download => 1,
        Step::Sleep => 0,
    }
}

/// Every refresh comes to its end, whatever the replies, and then the next one
/// begins.
pub proof fn law_refresh_ends(
    before: AppState,
    after: AppState,
    step: Step,
    next: Step,
    reply: Reply,
    bucket: bool,
    template: Seq<char>,
    now: u64,
)
    requires
        advances(before, after, step, next, reply, bucket, template, now),
    ensures
        step !is Sleep ==> steps_left(next) < steps_left(step),
        step is Sleep ==> next is FetchPot,
{
}

/// Takes the reply to a step of the refresh into account, and says what is next.
pub fn advance(
    state: &mut AppState,
    step: Step,
    reply: Reply,
    bucket: bool,
    template: &str,
    now: u64,
) -> (next: Step)
    requires
        step is FetchOfficial && reply is Text && publishable(
            reply->text@,
            now as int / DAY as int,
        ) ==> old(state).downloads < u32::MAX,
    ensures
        advances(
            *old(state),
            *final(state),
            step,
            next,
            reply,
            bucket,
            template@,
            now,
        ),
{
    match step {
        Step::FetchPot => {
            if let Reply::Text { text } = reply {
                if let Some(pot) = extract_pot(text.as_str()) {
                    state.next_pot = Some(pot);
                }
            }
            Step::FetchOfficial
        },
        Step::FetchOfficial => match reply {
            Reply::Text { text } => if publish(state, text.as_str(), template, now, true) {
                if bucket {
                    Step::Upload { csv: text }
                } else {
                    Step::Sleep
                }
            } else {
                fall_back(state, bucket)
            },
            _ => fall_back(state, bucket),
        },
        Step::Upload { csv } => {
            if let Reply::Done = reply {
                state.tigris_backup = true;
            }
            Step::Sleep
        },
        Step::Download => {
            if let Reply::Text { text } = reply {
                publish(state, text.as_str(), template, now, false);
            }
            Step::Sleep
        },
        Step::Sleep => Step::FetchPot,
    }
}

/// A day has 24 hours of 3600 seconds, and a refresh comes every 48 hours.
pub proof fn law_seconds(now: u64)
    ensures
        (now as int / DAY as int) * 24 * 3600 <= now,
        now < (now as int / DAY as int + 1) * 24 * 3600,
        REFRESH == 48 * 3600,
{
}

/// A history is published with 100 draws and not with fewer, as long as nine counts
/// for each draw fit and its dates can be counted with.
pub proof fn law_hundred_draws_are_enough(csv: Seq<char>, draws: Seq<Draw>, today: int)
    requires
        views(draws) == history(csv),
        9 * draws.len() <= u32::MAX,
        crate::calendar::countable(history(csv), today),
    ensures
        publishable(csv, today) <==> draws.len() >= 100,
{
    law_history(csv);
    assert(views(draws).len() == draws.len());
    assert forall|i: int, j: int| 0 <= i < draws.len() && 0 <= j < 6 implies #[trigger]
        draws[i].numbers@[j] <= 56 by {
        assert(views(draws)[i] == draws[i]@);
        assert(history(csv)[i].numbers[j] <= 56);
    }
    law_few_draws_are_countable(draws);
}

/// What is published is of the newest draw of the history, and of all of it.
pub proof fn law_published_history(
    state: AppState,
    csv: Seq<char>,
    template: Seq<char>,
    today: int,
)
    requires
        state.publishes(csv, template, today),
        history(csv).len() > 0,
    ensures
        state.stats is Some,
        state.stats->0.n == history(csv).len(),
        state.stats->0.contest == history(csv).last().contest,
        state.stats->0.date@ == history(csv).last().date,
        state.stats->0.last@ == history(csv).last().numbers,
        state.stats->0.last_pot == history(csv).last().pot,
        state.summary is Some,
        state.summary->0.contest == history(csv).last().contest,
        state.summary->0.pot == history(csv).last().pot,
        state.page@ == page_text(
            template,
            history(csv).last().contest as nat,
            history(csv).last().date,
        ),
        state.page@.len() > 0,
{
    let draws = choose|draws: Seq<Draw>|
        #[trigger] views(draws) == history(csv) && state.serves(draws, template, today);
    assert(views(draws).len() == draws.len());
    assert(views(draws).last() == draws.last()@);
    lemma_page_is_not_empty(template, draws.last().contest as nat, draws.last().date@);
}

/// A page begins with the head and ends with the foot, and a template without marks
/// stands between them as it is.
pub proof fn law_page(template: Seq<char>, contest: nat, date: Seq<char>)
    ensures
        ({
            let page = page_text(template, contest, date);
            let inner = page.subrange(HEAD@.len() as int, page.len() - FOOT@.len());
            &&& page == HEAD@ + inner + FOOT@
            &&& (forall|i: int| !#[trigger] occurs_at(template, "__LAST_DRAW__"@, i)) && (forall|
                i: int,
            | !#[trigger] occurs_at(template, "__LAST_DATE__"@, i)) ==> inner == template
            &&& (forall|i: int| !#[trigger] occurs_at(template, "__LAST_DRAW__"@, i)) ==> inner
                == replaced(template, "__LAST_DATE__"@, date)
            &&& contest == 0 && date == "__LAST_DATE__"@ ==> inner == replaced(
                template,
                "__LAST_DRAW__"@,
                "0"@,
            )
        }),
{
    reveal_strlit("__LAST_DRAW__");
    reveal_strlit("__LAST_DATE__");
    reveal_strlit("0");
    let page = page_text(template, contest, date);
    let inner = page.subrange(HEAD@.len() as int, page.len() - FOOT@.len());
    let with_draw = replaced(template, "__LAST_DRAW__"@, decimal(contest));
    let with_date = replaced(with_draw, "__LAST_DATE__"@, date);
    law_replacing(template, "__LAST_DRAW__"@, decimal(contest), 0);
    law_replacing(template, "__LAST_DATE__"@, date, 0);
    law_replacing_by_itself(with_draw, "__LAST_DATE__"@);
    assert(inner =~= with_date);
    assert(page =~= HEAD@ + inner + FOOT@);
    if contest == 0 {
        assert(decimal(contest) =~= "0"@);
    }
}

/// Which step changes what: the pot comes from the page that advertises it, the
/// statistics from a history that can be published, a download is counted for the
/// official one alone, and a backup is there once an upload went well.
pub proof fn law_what_a_step_changes(
    before: AppState,
    after: AppState,
    step: Step,
    next: Step,
    reply: Reply,
    bucket: bool,
    template: Seq<char>,
    now: u64,
)
    requires
        advances(before, after, step, next, reply, bucket, template, now),
    ensures
        after.next_pot != before.next_pot ==> step is FetchPot && reply is Text && after.next_pot
            is Some && advertised_pot(reply->text@) == Some(after.next_pot->0 as nat),
        step is FetchPot && reply is Text && advertised_pot(reply->text@) is Some ==> after.next_pot
            is Some && after.next_pot->0 == advertised_pot(reply->text@)->0,
        after.tigris_backup == (before.tigris_backup || (step is Upload && reply is Done)),
        after.downloads == before.downloads + if step is FetchOfficial && reply is Text
            && publishable(reply->text@, now as int / DAY as int) {
            1int
        } else {
            0
        },
        (step is FetchOfficial || step is Download) && reply is Text && publishable(
            reply->text@,
            now as int / DAY as int,
        ) ==> after.updated == now && after.publishes(
            reply->text@,
            template,
            now as int / DAY as int,
        ),
        !((step is FetchOfficial || step is Download) && reply is Text && publishable(
            reply->text@,
            now as int / DAY as int,
        )) ==> after.page == before.page && after.stats == before.stats && after.summary
            == before.summary && after.updated == before.updated,
        next is Upload ==> step is FetchOfficial && bucket && reply is Text && next->csv@
            == reply->text@ && after.downloads == before.downloads + 1,
        next is Download ==> step is FetchOfficial && bucket && before.page@.len() == 0
            && after.downloads == before.downloads,
{
}

/// A page is a document in Mexican Spanish whose body is the filled-in template.
pub proof fn law_page_is_a_document(template: Seq<char>, contest: nat, date: Seq<char>)
    ensures
        ({
            let page = page_text(template, contest, date);
            let opening = "<!doctype html>\n<html lang=\"es-MX\">\n<head>\n<meta charset=\"utf-8\">\n"@;
            let body = "</head>\n<body>\n"@;
            let closing = "\n</body>\n</html>\n"@;
            &&& page.len() >= opening.len() + closing.len()
            &&& page.take(opening.len() as int) == opening
            &&& page.skip(page.len() - closing.len()) == closing
            &&& HEAD@.len() >= opening.len() + body.len()
            &&& HEAD@.skip(HEAD@.len() - body.len()) == body
            &&& FOOT@ == closing
        }),
{
    reveal_strlit(
        r#"<!doctype html>
<html lang="es-MX">
<head>
<meta charset="utf-8">
<meta name="viewport" content="width=device-width, initial-scale=1">
<meta name="description" content="Chiripa — apuestas del Melate generadas con 8 estrategias estadísticas sobre el histórico oficial. Sitio no oficial, solo entretenimiento: toda combinación tiene la misma probabilidad.">
<link rel="icon" href="data:image/svg+xml,<svg xmlns='http://www.w3.org/2000/svg' viewBox='0 0 100 100'><text y='.9em' font-size='90'>🍀</text></svg>">
</head>
<body>
"#,
    );
    reveal_strlit("<!doctype html>\n<html lang=\"es-MX\">\n<head>\n<meta charset=\"utf-8\">\n");
    reveal_strlit("</head>\n<body>\n");
    reveal_strlit("\n</body>\n</html>\n");
    let page = page_text(template, contest, date);
    let opening = "<!doctype html>\n<html lang=\"es-MX\">\n<head>\n<meta charset=\"utf-8\">\n"@;
    let body = "</head>\n<body>\n"@;
    let closing = "\n</body>\n</html>\n"@;
    assert(page.take(opening.len() as int) =~= opening);
    assert(page.skip(page.len() - closing.len()) =~= closing);
    assert(HEAD@.skip(HEAD@.len() - body.len()) =~= body);
}

} // verus!
