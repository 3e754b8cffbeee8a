use chiripa::site::{advance, health, publish, AppState, Reply, Step, FOOT, HEAD};
use chiripa::text::{
    chars_of, find_from, read_signed, read_unsigned, replace, same_text, split_at, text_of, trim,
    write_decimal,
};

const TEMPLATE: &str = "<h1>__LAST_DRAW__</h1>__LAST_DATE__ __LAST_DRAW__";
const NOW: u64 = 1_800_000_000;

fn history(draws: u32) -> String {
    let mut csv = String::from("header\n");
    for contest in 1..=draws {
        csv.push_str(&format!("40,{contest},50,2,3,4,5,6,7,{contest},15/11/2026\n"));
    }
    csv
}

fn text(text: &str) -> Reply {
    Reply::Text { text: text.to_string() }
}

#[test]
fn publishing_fills_the_page() {
    let mut state = AppState::new();
    assert!(publish(&mut state, &history(100), TEMPLATE, NOW, true));
    assert_eq!(state.page, format!("{HEAD}<h1>100</h1>15/11/2026 100{FOOT}"));
    assert_eq!(state.updated, NOW);
    assert_eq!(state.downloads, 1);
    assert_eq!(state.next_pot, None);
    assert!(!state.tigris_backup);
    assert_eq!(state.stats.unwrap().contest, 100);
    assert!(publish(&mut AppState::new(), &history(101), TEMPLATE, NOW, false));
}

#[test]
fn summary_of_what_is_published() {
    let mut state = AppState::new();
    assert!(publish(&mut state, &history(120), TEMPLATE, NOW, false));
    assert_eq!(state.downloads, 0);
    let s = state.summary.unwrap();
    assert_eq!((s.contest, s.draws, s.window, s.pot), (120, 120, 250, 120));
    assert_eq!(s.date, "15/11/2026");
    assert_eq!(s.last, [2, 3, 4, 5, 6, 50]);
    assert_eq!(s.freq.len(), 56);
    assert_eq!((s.freq[0], s.freq[1], s.freq[49]), (0, 120, 120));
    assert_eq!((s.recent[1], s.gap[0], s.gap[1]), (120, 120, 0));
    assert_eq!((s.rank[1], s.rank[49], s.rank[0]), (1, 6, 7));
    assert_eq!((s.popularity[0], s.popularity[55]), (23, 10));
    assert_eq!((s.balanced_weight[0], s.balanced_weight[1]), (240, 121 * 120));
    assert_eq!(s.balanced_unit, 120);
    assert_eq!((s.best_pair[0], s.best_pair[1]), ((2, 0), (3, 120)));
    assert_eq!((s.sum_lo, s.sum_hi, s.max_gap), (70, 70, 120));
    assert_eq!((s.f_den, s.r_den), (776, 776));
    assert_eq!(s.hot6, vec![2, 3, 4, 5, 6, 50]);
    assert_eq!(s.cold6, vec![1, 7, 8, 9, 10, 11]);
    // 1,800,000,000 s is Friday 15/01/2027; the draws fall on Sundays.
    assert_eq!((s.next_date.as_str(), s.next_weekday), ("17/01/2027", 0));
}

#[test]
fn corrupt_histories_leave_the_site_as_it_is() {
    let mut state = AppState::new();
    assert!(!publish(&mut state, &history(99), TEMPLATE, NOW, true));
    assert!(!publish(&mut state, "", TEMPLATE, NOW, true));
    let before_the_era = history(100).replace(",50,2,", ",49,2,");
    assert!(!publish(&mut state, &before_the_era, TEMPLATE, NOW, true));
    let far = history(100).replace("2026", "9223372036854775807");
    assert!(!publish(&mut state, &far, TEMPLATE, NOW, true));
    assert_eq!(state.page, "");
    assert_eq!((state.updated, state.downloads), (0, 0));
    assert!(state.stats.is_none() && state.summary.is_none());
}

#[test]
fn dates_that_are_none_leave_the_next_draw_open() {
    let mut state = AppState::new();
    let undated = history(100).replace("15/11/2026", "soon");
    assert!(publish(&mut state, &undated, TEMPLATE, NOW, true));
    let s = state.summary.unwrap();
    assert_eq!((s.next_date.as_str(), s.next_weekday), ("", 0));
}

#[test]
fn health_before_and_after() {
    let mut state = AppState::new();
    let before = health(&state, NOW);
    assert!(!before.ok);
    assert_eq!((before.contest, before.date.as_str()), (0, ""));
    assert_eq!(before.updated_secs_ago, NOW);
    assert!(publish(&mut state, &history(100), TEMPLATE, NOW, true));
    state.tigris_backup = true;
    let after = health(&state, NOW + 5);
    assert!(after.ok && after.tigris_backup);
    assert_eq!((after.contest, after.date.as_str()), (100, "15/11/2026"));
    assert_eq!((after.updated_secs_ago, after.downloads), (5, 1));
    assert_eq!(health(&state, NOW - 5).updated_secs_ago, 0);
}

#[test]
fn refresh_with_a_bucket() {
    let mut state = AppState::new();
    let csv = history(100);
    let page = text("Bolsas_Logo_MelateRR.svg Bolsa\">$ 5.00");
    let step = advance(&mut state, Step::FetchPot, page, true, TEMPLATE, NOW);
    assert!(matches!(step, Step::FetchOfficial));
    assert_eq!(state.next_pot, Some(5));
    let step = advance(&mut state, step, text(&csv), true, TEMPLATE, NOW);
    match &step {
        Step::Upload { csv: backup } => assert_eq!(*backup, csv),
        _ => panic!("the history is backed up"),
    }
    assert_eq!(state.downloads, 1);
    let step = advance(&mut state, step, Reply::Done, true, TEMPLATE, NOW);
    assert!(matches!(step, Step::Sleep) && state.tigris_backup);
    let step = advance(&mut state, step, Reply::Done, true, TEMPLATE, NOW);
    assert!(matches!(step, Step::FetchPot));
}

#[test]
fn refresh_without_a_bucket() {
    let mut state = AppState::new();
    let step = advance(&mut state, Step::FetchPot, text("nothing"), false, TEMPLATE, NOW);
    assert!(matches!(step, Step::FetchOfficial));
    assert_eq!(state.next_pot, None);
    let failed = advance(&mut state, Step::FetchOfficial, Reply::Failed, false, TEMPLATE, NOW);
    assert!(matches!(failed, Step::Sleep));
    let done = advance(&mut state, step, text(&history(100)), false, TEMPLATE, NOW);
    assert!(matches!(done, Step::Sleep));
    assert_eq!(state.downloads, 1);
}

#[test]
fn backup_helps_out_without_a_page() {
    let mut state = AppState::new();
    let step = advance(&mut state, Step::FetchOfficial, text("broken"), true, TEMPLATE, NOW);
    assert!(matches!(step, Step::Download));
    let step = advance(&mut state, step, text(&history(100)), true, TEMPLATE, NOW);
    assert!(matches!(step, Step::Sleep));
    assert!(!state.page.is_empty());
    assert_eq!(state.downloads, 0);
    let page = state.page.clone();
    let step = advance(&mut state, Step::FetchOfficial, Reply::Failed, true, TEMPLATE, NOW + 9);
    assert!(matches!(step, Step::Sleep), "the last good version stays");
    assert_eq!(state.page, page);
    assert_eq!(state.updated, NOW);
}

#[test]
fn failed_steps_change_nothing() {
    let mut state = AppState::new();
    state.next_pot = Some(3);
    let step = advance(&mut state, Step::FetchPot, Reply::Failed, true, TEMPLATE, NOW);
    assert!(matches!(step, Step::FetchOfficial));
    let upload = Step::Upload { csv: String::new() };
    let step = advance(&mut state, upload, Reply::Failed, true, TEMPLATE, NOW);
    assert!(matches!(step, Step::Sleep));
    let step = advance(&mut state, Step::Download, Reply::Failed, true, TEMPLATE, NOW);
    assert!(matches!(step, Step::Sleep));
    assert_eq!(state.next_pot, Some(3));
    assert!(!state.tigris_backup && state.page.is_empty());
}

#[test]
fn texts_are_taken_apart_and_put_together() {
    let chars = chars_of("\u{3000} a\u{f1}o,,b \t");
    assert_eq!(text_of(&chars), "\u{3000} a\u{f1}o,,b \t");
    assert_eq!(text_of(trim(&chars)), "a\u{f1}o,,b");
    assert_eq!(trim(&chars_of(" \n ")).len(), 0);
    let pieces: Vec<String> = split_at(trim(&chars), ',').iter().map(|p| text_of(p)).collect();
    assert_eq!(pieces, vec!["a\u{f1}o", "", "b"]);
    assert_eq!(split_at(&[], ',').len(), 1);
    assert!(same_text("a\u{f1}o", "a\u{f1}o") && !same_text("a", "ab") && !same_text("a", "b"));
}

#[test]
fn parts_of_texts_are_found_and_replaced() {
    let text = chars_of("aaabaa");
    assert_eq!(find_from(&text, &chars_of("aa"), 0), Some(0));
    assert_eq!(find_from(&text, &chars_of("aa"), 2), Some(4));
    assert_eq!(find_from(&text, &chars_of("aa"), 5), None);
    assert_eq!(find_from(&text, &[], 6), Some(6));
    assert_eq!(text_of(&replace(&text, &chars_of("aa"), &chars_of("x"))), "xabx");
    assert_eq!(text_of(&replace(&text, &chars_of("c"), &chars_of("x"))), "aaabaa");
}

#[test]
fn numbers_are_read_and_written() {
    assert_eq!(read_unsigned(&chars_of("007"), 255), Some(7));
    assert_eq!(read_unsigned(&chars_of("256"), 255), None);
    assert_eq!(read_unsigned(&chars_of("+"), 255), None);
    assert_eq!(read_unsigned(&chars_of("-0"), 255), None);
    assert_eq!(read_unsigned(&chars_of("18446744073709551615"), u64::MAX), Some(u64::MAX));
    assert_eq!(read_unsigned(&chars_of("18446744073709551616"), u64::MAX), None);
    assert_eq!(read_signed(&chars_of("-9223372036854775808")), Some(i64::MIN));
    assert_eq!(read_signed(&chars_of("9223372036854775808")), None);
    assert_eq!(read_signed(&chars_of("+12")), Some(12));
    assert_eq!(read_signed(&chars_of("--1")), None);
    assert_eq!(text_of(&write_decimal(0)), "0");
    assert_eq!(text_of(&write_decimal(u64::MAX)), "18446744073709551615");
}

#[test]
fn full_counter_is_no_matter_where_nothing_is_published() {
    let mut state = AppState::new();
    state.downloads = u32::MAX;
    assert!(!publish(&mut state, &history(99), TEMPLATE, NOW, true));
    assert!(publish(&mut state, &history(100), TEMPLATE, NOW, false));
    let step = advance(&mut state, Step::FetchOfficial, text("broken"), true, TEMPLATE, NOW);
    assert!(matches!(step, Step::Sleep));
    assert_eq!(state.downloads, u32::MAX);
}
