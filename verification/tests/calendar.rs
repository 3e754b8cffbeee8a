use chiripa::calendar::{
    can_count, civil_from_days, days_from_civil, next_draw, parse_dmy, weekday, LAST_DAY,
};
use chiripa::draw::{parse, Draw};

const FIXTURE: &str = "\
NPRODUCTO,CONCURSO,R1,R2,R3,R4,R5,R6,R7,BOLSA,FECHA
40,1,1,2,3,4,5,6,7,0,01/01/2006
40,2,5,10,15,20,25,50,7,0,02/01/2006
40,3,5,10,30,40,45,56,7,0,03/01/2006
40,4,2,5,10,15,50,51,7,0,04/01/2006
";

fn dated(dates: &[&str]) -> Vec<Draw> {
    dates
        .iter()
        .enumerate()
        .map(|(i, date)| Draw {
            contest: i as u32,
            date: date.to_string(),
            numbers: [1, 2, 3, 4, 5, 50],
            pot: 0,
        })
        .collect()
}

#[test]
fn civil_days_anchors_and_roundtrip() {
    assert_eq!(days_from_civil(1970, 1, 1), 0);
    assert_eq!(weekday(days_from_civil(1970, 1, 1)), 4, "1970-01-01 was a Thursday");
    assert_eq!(weekday(days_from_civil(2026, 9, 20)), 0, "2026-09-20 was a Sunday");
    for &(y, m, d) in &[(2026, 9, 20), (2000, 2, 29), (1984, 8, 19), (2100, 12, 31)] {
        assert_eq!(civil_from_days(days_from_civil(y, m, d)), (y, m, d));
    }
}

#[test]
fn dmy_parsing() {
    assert_eq!(parse_dmy("20/09/2026"), Some((2026, 9, 20)));
    assert_eq!(parse_dmy(" 02/01/2006 "), Some((2006, 1, 2)));
    assert_eq!(parse_dmy("2026-09-20"), None);
    assert_eq!(parse_dmy("40/01/2026"), None);
}

#[test]
fn next_draw_follows_the_cadence() {
    // Fixture era draws fall on 02..04/01/2006 = Mon, Tue, Wed.
    let draws = parse(FIXTURE);
    let today = days_from_civil(2006, 1, 4);
    let (date, wd) = next_draw(&draws, today).unwrap();
    assert_eq!(date, "09/01/2006", "next Monday after Wed Jan 4");
    assert_eq!(wd, 1, "Monday");
    // If the CSV is stale, the next draw is never in the past.
    let later = days_from_civil(2006, 3, 15); // a Wednesday
    let (date2, wd2) = next_draw(&draws, later).unwrap();
    assert_eq!(date2, "15/03/2006", "that same Wednesday");
    assert_eq!(wd2, 3);
}

#[test]
fn every_day_has_its_date() {
    assert_eq!(civil_from_days(0), (1970, 1, 1));
    assert_eq!(civil_from_days(-1), (1969, 12, 31));
    assert_eq!(civil_from_days(59), (1970, 3, 1));
    assert_eq!(civil_from_days(-719_468), (0, 3, 1));
    assert_eq!(civil_from_days(-719_469), (0, 2, 29));
    assert_eq!(days_from_civil(-400, 3, 1), -719_468 - 146_097);
    let mut last = civil_from_days(-800_000);
    for z in -799_999..-798_000i64 {
        let date = civil_from_days(z);
        assert!(date > last);
        assert_eq!(days_from_civil(date.0, date.1, date.2), z);
        last = date;
    }
}

#[test]
fn days_of_dates_that_do_not_exist_run_over() {
    assert_eq!(days_from_civil(2026, 2, 31), days_from_civil(2026, 3, 3));
    assert_eq!(days_from_civil(2026, 3, 0), days_from_civil(2026, 2, 28));
}

#[test]
fn weekdays_before_the_epoch() {
    assert_eq!(weekday(-4), 0);
    assert_eq!(weekday(-5), 6);
    assert_eq!(weekday(2), 6);
    assert_eq!(weekday(3), 0);
}

#[test]
fn dates_are_read_leniently() {
    assert_eq!(parse_dmy("1/2/-3"), Some((-3, 2, 1)));
    assert_eq!(parse_dmy("+1/+2/+3/4"), Some((3, 2, 1)));
    assert_eq!(parse_dmy("31/02/2026"), Some((2026, 2, 31)));
    assert_eq!(parse_dmy("00/02/2026"), None);
    assert_eq!(parse_dmy("01/13/2026"), None);
    assert_eq!(parse_dmy("01/12"), None);
    assert_eq!(parse_dmy("01/12/"), None);
    assert_eq!(parse_dmy("01/ 12/2026"), None);
    assert_eq!(parse_dmy("-1/12/2026"), None);
    assert_eq!(parse_dmy(""), None);
    assert_eq!(parse_dmy("01/01/9223372036854775808"), None);
}

#[test]
fn next_draw_is_the_day_after_the_last_at_the_earliest() {
    // Sunday, and a last draw that is newer than today.
    let draws = dated(&["15/11/2026"]);
    assert_eq!(next_draw(&draws, 0), Some((String::from("22/11/2026"), 0)));
    let daily = dated(&["14/11/2026", "13/11/2026", "15/11/2026"]);
    assert_eq!(next_draw(&daily, 0), Some((String::from("20/11/2026"), 5)));
}

#[test]
fn next_draw_needs_a_date() {
    assert_eq!(next_draw(&[], 5), None);
    assert_eq!(next_draw(&dated(&["never", "40/01/2026"]), 5), None);
}

#[test]
fn only_the_newest_draws_give_the_cadence() {
    let mut dates = vec!["16/11/2026"];
    dates.extend(["15/11/2026"; 30]);
    let today = days_from_civil(2026, 11, 16);
    assert_eq!(next_draw(&dated(&dates), today), Some((String::from("22/11/2026"), 0)));
    let newest = dated(&dates[..30]);
    assert_eq!(next_draw(&newest, today), Some((String::from("16/11/2026"), 1)));
}

#[test]
fn dates_that_cannot_be_counted_with_are_told() {
    assert!(can_count(&dated(&["01/01/2026"]), 0));
    assert!(can_count(&dated(&["no date"]), i64::MAX), "nothing to look for");
    assert!(!can_count(&dated(&["01/01/2026"]), LAST_DAY + 1));
    let on = |day: i64| {
        let (y, m, d) = civil_from_days(day);
        format!("{d:02}/{m:02}/{y}")
    };
    assert!(can_count(&dated(&[&on(LAST_DAY - 7)]), 0), "the next draw is on the last day");
    assert!(!can_count(&dated(&[&on(LAST_DAY - 6)]), 0));
    assert!(can_count(&dated(&[&on(LAST_DAY), &on(LAST_DAY - 7)]), 0));
    assert_eq!(
        next_draw(&dated(&[&on(LAST_DAY), &on(LAST_DAY - 7)]), 0),
        Some((on(LAST_DAY), weekday(LAST_DAY)))
    );
    assert!(!can_count(&dated(&["01/01/9223372036854775807"]), 0));
    assert!(!can_count(&dated(&["01/01/-9223372036854775808"]), 0));
}

#[test]
fn written_dates_are_read_back() {
    for day in [0i64, 20_000, 30_000_000, -800_000] {
        let draws = dated(&["01/01/-9000"]);
        let (date, w) = next_draw(&draws, day).unwrap();
        let (y, m, d) = parse_dmy(&date).unwrap();
        let found = days_from_civil(y, m, d);
        assert!(day <= found && found < day + 7);
        assert_eq!(weekday(found), w);
    }
}
