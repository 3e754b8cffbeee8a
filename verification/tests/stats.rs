use chiripa::combinatorics::comb;
use chiripa::draw::{parse, Draw};
use chiripa::pot::extract_pot;
use chiripa::ranking::{ranks, top_k};
use chiripa::sort::sort_by_key;
use chiripa::stats::{can_describe, Stats, STERN_SCALE, WINDOW};

/// Hand-computed fixture. Contest 1 (no number >= 50) is pre-era; the
/// era is contests 2, 3 and 4 (N = 3).
const FIXTURE: &str = "\
NPRODUCTO,CONCURSO,R1,R2,R3,R4,R5,R6,R7,BOLSA,FECHA
40,1,1,2,3,4,5,6,7,0,01/01/2006
40,2,5,10,15,20,25,50,7,0,02/01/2006
40,3,5,10,30,40,45,56,7,0,03/01/2006
40,4,2,5,10,15,50,51,7,0,04/01/2006
";

fn fixture() -> Stats {
    Stats::new(&parse(FIXTURE))
}

/// A history of 2400 draws with six different numbers each, newest first.
fn long_history() -> String {
    let mut seed: u64 = 2006;
    let mut lines: Vec<String> = Vec::new();
    for contest in 1..=2400u64 {
        let mut numbers: Vec<u64> = Vec::new();
        while numbers.len() < 6 {
            seed = seed.wrapping_mul(6364136223846793005).wrapping_add(1442695040888963407);
            let n = (seed >> 33) % 56 + 1;
            if !numbers.contains(&n) {
                numbers.push(n);
            }
        }
        if contest == 1 {
            numbers = vec![50, 3, 11, 24, 30, 47];
        }
        let cells: Vec<String> = numbers.iter().map(|n| n.to_string()).collect();
        let pot = 30_000_000 + contest * 1_000;
        let day = contest % 28 + 1;
        let month = contest / 28 % 12 + 1;
        let year = 2000 + contest / 336;
        lines.push(format!(
            "40,{contest},{},7,{pot},{day:02}/{month:02}/{year}",
            cells.join(",")
        ));
    }
    lines.reverse();
    format!("NPRODUCTO,CONCURSO,R1,R2,R3,R4,R5,R6,R7,BOLSA,FECHA\n{}\n", lines.join("\n"))
}

fn whole_era() -> Stats {
    Stats::new(&parse(&long_history()))
}

#[test]
fn parse_filters_the_era() {
    let d = parse(FIXTURE);
    assert_eq!(d.len(), 3, "contest 1 (max 6 < 50) is not part of the era");
    assert_eq!(d[0].contest, 2);
    assert_eq!(d[2].numbers, [2, 5, 10, 15, 50, 51]);
}

#[test]
fn frequencies_by_hand() {
    let st = fixture();
    // 5 and 10 appear in all 3 draws; 15 and 50 in two; 20 in one.
    assert_eq!(st.freq[5], 3);
    assert_eq!(st.freq[10], 3);
    assert_eq!(st.freq[15], 2);
    assert_eq!(st.freq[50], 2);
    assert_eq!(st.freq[20], 1);
    assert_eq!(st.freq[9], 0);
    // total: 3 draws x 6 numbers
    assert_eq!((1..=56).map(|n| st.freq[n]).sum::<u32>(), 18);
}

#[test]
fn gaps_by_hand() {
    let st = fixture();
    assert_eq!(st.gap[50], 0, "appeared in the latest draw");
    assert_eq!(st.gap[30], 1, "appeared one draw before the latest");
    assert_eq!(st.gap[20], 2, "appeared only in the first era draw");
    assert_eq!(st.gap[9], 3, "never drawn: gap = N");
    assert_eq!(st.max_gap, 3);
}

#[test]
fn cooccurrences_by_hand() {
    let st = fixture();
    assert_eq!(st.cooc(5, 10), 3, "5 and 10 drawn together in all 3 draws");
    assert_eq!(st.cooc(15, 50), 2, "contests 2 and 4");
    assert_eq!(st.cooc(20, 56), 0);
    assert_eq!(st.cooc(5, 10), st.cooc(10, 5), "symmetric");
    // total: N x 6 x 5 ordered pairs
    let total: u32 = (1..=56)
        .flat_map(|a| (1..=56).map(move |b| (a, b)))
        .map(|(a, b)| st.cooc(a, b))
        .sum();
    assert_eq!(total, 3 * 30);
}

#[test]
fn sum_percentiles_by_hand() {
    let st = fixture();
    // sums: c2=125, c3=186, c4=133 -> sorted [125, 133, 186]
    // p15: index floor(3*0.15)=0 -> 125; p85: floor(3*0.85)=2 -> 186
    assert_eq!(st.sum_lo, 125);
    assert_eq!(st.sum_hi, 186);
}

#[test]
fn exact_combinatorics() {
    assert_eq!(comb(56, 6), 32_468_436, "the Melate jackpot odds");
    assert_eq!(comb(7, 6), 7);
    assert_eq!(comb(8, 6), 28);
    assert_eq!(comb(9, 6), 84);
    assert_eq!(comb(10, 6), 210);
    assert_eq!(comb(6, 6), 1);
    assert_eq!(comb(5, 6), 0);
}

#[test]
fn real_csv_invariants() {
    let st = whole_era();
    assert!(st.n >= 2300, "the 6-of-56 era spans over 2300 draws");
    assert_eq!(
        (1..=56).map(|n| st.freq[n]).sum::<u32>(),
        6 * st.n as u32,
        "every draw contributes exactly 6 numbers"
    );
    assert_eq!((1..=56).map(|n| st.recent[n]).sum::<u32>(), 6 * WINDOW as u32);
    assert!(st.last.iter().all(|&n| st.gap[n as usize] == 0));
    assert!(st.sum_lo < st.sum_hi);
    assert!((100..=250).contains(&st.sum_lo), "p15 sum in a sane range");
    assert_eq!(st.f_den(), 6 * st.n as u32 + 56);
}

#[test]
fn advertised_pot_is_extracted_from_homepage_html() {
    let html = r#"<img src="x/Bolsas_Logo_Zodiaco.svg"><div class="Bolsa">$ 24,042,600.00</div>
<img src="x/Bolsas_Logo_MelateRR.svg"><div class="Bolsa">$ 310,300,000.00</div>"#;
    assert_eq!(extract_pot(html), Some(310_300_000));
    assert_eq!(extract_pot("no carousel here"), None);
    assert_eq!(extract_pot(r#"Bolsas_Logo_MelateRR.svg but no amount"#), None);
}

#[test]
fn pot_is_parsed() {
    let st = fixture();
    assert_eq!(st.last_pot, 0, "fixture pots are 0");
    let era = whole_era();
    assert!(era.last_pot > 1_000_000, "real pot is in the millions");
}

#[test]
fn best_pair_matches_cooc() {
    let st = whole_era();
    let (m, v) = st.best_pair(8);
    assert_eq!(st.cooc(8, m), v);
    assert!((1..=56u8).filter(|&x| x != 8).all(|x| st.cooc(8, x) <= v));
}

#[test]
fn pot_of_zero_or_too_large_is_none() {
    let page = |amount: &str| format!("Bolsas_Logo_MelateRR.svg Bolsa\">${amount}<");
    assert_eq!(extract_pot(&page(" 0.00")), None);
    assert_eq!(extract_pot(&page("")), None);
    assert_eq!(extract_pot(&page(" x 5")), None);
    assert_eq!(extract_pot(&page("1 2,3")), Some(123));
    assert_eq!(extract_pot(&page("18,446,744,073,709,551,615")), Some(u64::MAX));
    assert_eq!(extract_pot(&page("18,446,744,073,709,551,616")), None);
}

#[test]
fn pot_follows_its_logo() {
    let other = "Bolsas_Logo_Melate.svg Bolsa\">$ 7.00 ";
    let own = "Bolsas_Logo_MelateRR.svg \u{e1}\u{1f340} Bolsa\">$ 9.00";
    assert_eq!(extract_pot(&format!("{other}{own}")), extract_pot(own));
    assert_eq!(extract_pot(own), Some(9));
    assert_eq!(extract_pot(other), None);
}

#[test]
fn lines_that_hold_no_draw_are_skipped() {
    let csv = "header\n\
        40,9,50,2,3,4,5,6,7,0,01/01/2006\n\
        40,10,50,2,3,4,5,6,7,0\n\
        40,x,50,2,3,4,5,6,7,0,01/01/2006\n\
        40,11,57,2,3,4,5,6,7,0,01/01/2006\n\
        40,12,0,2,3,4,5,6,7,0,01/01/2006\n\
        40,13, 1,2,3,4,5,6,7,0,01/01/2006\n\
        \n\
        \u{a0} 40,+14,+6,5,4,3,2,1,7,  77 ,02/01/2006,more \r\n\
        40,15,1,2,3,4,5,6,7,none,03/01/2006";
    let draws = parse(csv);
    assert_eq!(draws.len(), 3);
    assert_eq!(draws[1].contest, 14);
    assert_eq!(draws[1].numbers, [1, 2, 3, 4, 5, 6]);
    assert_eq!(draws[1].pot, 77);
    assert_eq!(draws[1].date, "02/01/2006");
    assert_eq!(draws[2].pot, 0);
    assert_eq!(parse("").len(), 0);
    assert_eq!(parse("40,9,50,2,3,4,5,6,7,0,01/01/2006").len(), 0);
}

#[test]
fn draws_are_ordered_by_contest_and_equal_ones_keep_their_order() {
    let csv = "h\n40,3,50,2,3,4,5,6,7,1,a\n40,2,50,2,3,4,5,6,7,2,b\n40,3,1,2,3,4,5,6,7,3,c\n\
        40,1,49,2,3,4,5,6,7,4,d\n";
    let pots: Vec<u64> = parse(csv).iter().map(|d| d.pot).collect();
    assert_eq!(pots, vec![2, 1, 3]);
    let without_era = "h\n40,2,1,2,3,4,5,6,7,2,b\n40,1,1,2,3,4,5,6,7,1,a\n";
    assert_eq!(parse(without_era).len(), 0, "no draw belongs to the era");
}

#[test]
fn sorting_keeps_the_order_of_equal_keys() {
    let draw = |contest: u32, pot: u64| Draw {
        contest,
        date: String::new(),
        numbers: [1, 2, 3, 4, 5, 6],
        pot,
    };
    let sorted = sort_by_key(vec![draw(2, 1), draw(1, 2), draw(2, 3), draw(1, 4), draw(0, 5)]);
    let pots: Vec<u64> = sorted.iter().map(|d| d.pot).collect();
    assert_eq!(pots, vec![5, 2, 4, 1, 3]);
    assert_eq!(sort_by_key(vec![3u8, 1, 2]), vec![1, 2, 3]);
}

#[test]
fn statistics_of_the_last_draw() {
    let st = fixture();
    assert_eq!(st.n, 3);
    assert_eq!(st.contest, 4);
    assert_eq!(st.date, "04/01/2006");
    assert_eq!(st.last, [2, 5, 10, 15, 50, 51]);
    assert_eq!(st.recent, st.freq, "fewer draws than the window");
    assert_eq!(st.f_den(), 74);
    assert_eq!(st.r_den(), 74);
    assert_eq!(whole_era().r_den(), 6 * 250 + 56);
}

#[test]
fn only_the_window_is_recent() {
    let mut csv = String::from("header\n");
    for contest in 1..=260 {
        let first = if contest <= 10 { 50 } else { 51 };
        csv.push_str(&format!("40,{contest},{first},2,3,4,5,6,7,0,x\n"));
    }
    let st = Stats::new(&parse(&csv));
    assert_eq!(st.freq[50], 10);
    assert_eq!(st.recent[50], 0);
    assert_eq!(st.recent[51], 250);
    assert_eq!(st.gap[50], 250);
    assert_eq!(st.gap[51], 0);
    assert_eq!(st.gap[1], 260);
    assert_eq!(st.max_gap, 260);
    assert_eq!(st.sum_lo, 71);
    assert_eq!(st.sum_hi, 71);
}

#[test]
fn ranks_put_ties_in_order() {
    let st = fixture();
    let rank = st.rank();
    assert_eq!(rank[0], 0);
    assert_eq!(rank[5], 1);
    assert_eq!(rank[10], 2);
    assert_eq!(rank[15], 3);
    assert_eq!(rank[50], 4);
    assert_eq!(rank[2], 5);
    assert_eq!(rank[1], 13, "12 numbers were drawn, 1 is the lowest of the others");
    let mut all: Vec<u32> = rank[1..].to_vec();
    all.sort();
    assert_eq!(all, (1..=56).collect::<Vec<u32>>());
}

#[test]
fn best_numbers_are_taken_in_order() {
    let mut score = [0u64; 57];
    score[0] = 99;
    score[40] = 5;
    score[7] = 9;
    score[8] = 5;
    assert_eq!(top_k(&score, 2), vec![7, 8]);
    assert_eq!(top_k(&score, 4), vec![1, 7, 8, 40]);
    assert_eq!(top_k(&score, 0), Vec::<u8>::new());
    assert_eq!(top_k(&score, 60).len(), 56);
    assert_eq!(ranks(&score)[40], 3);
}

#[test]
fn popularity_and_its_weight() {
    assert_eq!(Stats::popularity(56), 10);
    assert_eq!(Stats::popularity(32), 10);
    assert_eq!(Stats::popularity(31), 18);
    assert_eq!(Stats::popularity(21), 22);
    assert_eq!(Stats::popularity(13), 22);
    assert_eq!(Stats::popularity(12), 23);
    assert_eq!(Stats::popularity(7), 27);
    for n in 1..=56u8 {
        let p = Stats::popularity(n) as u64;
        assert_eq!(Stats::stern_weight(n) * p * p, STERN_SCALE);
    }
    assert_eq!(Stats::stern_weight(50), 46_662_561);
    assert_eq!(Stats::stern_weight(3), 6_400_900);
}

#[test]
fn balanced_weights_by_hand() {
    let st = fixture();
    // (freq + 1) * (1 + gap / 3), times 3
    assert_eq!(st.balanced_weight(5), 4 * 3);
    assert_eq!(st.balanced_weight(20), 2 * 5);
    assert_eq!(st.balanced_weight(9), 6);
}

#[test]
fn best_pair_prefers_the_lower_number() {
    let st = fixture();
    assert_eq!(st.best_pair(5), (10, 3));
    assert_eq!(st.best_pair(10), (5, 3));
    assert_eq!(st.best_pair(20), (5, 1));
    assert_eq!(st.best_pair(9), (1, 0), "never drawn");
    assert_eq!(st.best_pair(1), (2, 0));
}

#[test]
fn binomials_at_their_edges() {
    assert_eq!(comb(0, 0), 1);
    assert_eq!(comb(10, 0), 1);
    assert_eq!(comb(56, 50), comb(56, 6));
    assert_eq!(comb(62, 31), 465_428_353_255_261_088);
    assert_eq!(comb(u64::MAX, 1), u64::MAX);
    assert_eq!(comb(3, u64::MAX), 0);
}

#[test]
fn draws_that_can_be_described() {
    assert!(can_describe(&parse(FIXTURE)));
    assert!(can_describe(&[]));
    let draw = |numbers: [u8; 6]| Draw { contest: 1, date: String::new(), numbers, pot: 0 };
    assert!(can_describe(&[draw([0, 0, 0, 56, 56, 56])]));
    assert!(!can_describe(&[draw([1, 2, 3, 4, 5, 6]), draw([1, 2, 3, 4, 5, 57])]));
    let st = Stats::new(&[draw([1, 1, 1, 2, 2, 50])]);
    assert_eq!(st.freq[1], 3);
    assert_eq!(st.cooc(1, 2), 6, "each of three with each of two");
    assert_eq!(st.cooc(1, 1), 0);
}

#[test]
fn order_matters_to_gaps_alone() {
    let mut draws = parse(FIXTURE);
    let st = Stats::new(&draws);
    draws.reverse();
    let reversed = Stats::new(&draws);
    assert_eq!(st.n, reversed.n);
    assert_eq!(st.freq, reversed.freq);
    assert_eq!(st.recent, reversed.recent);
    assert_eq!((st.sum_lo, st.sum_hi), (reversed.sum_lo, reversed.sum_hi));
    for a in 1..=56u8 {
        assert!((1..=56u8).all(|b| st.cooc(a, b) == reversed.cooc(a, b)));
    }
    assert_eq!((st.gap[20], reversed.gap[20]), (2, 0));
    assert_eq!((st.contest, reversed.contest), (4, 2));
}

#[test]
fn pairs_of_a_number_add_up() {
    let st = whole_era();
    for a in 1..=56u8 {
        let row: u32 = (1..=56u8).map(|b| st.cooc(a, b)).sum();
        assert_eq!(row, 5 * st.freq[a as usize]);
        assert!((1..=56u8).all(|b| st.cooc(a, b) <= st.freq[a as usize].min(st.freq[b as usize])));
    }
}

#[test]
fn extra_ball_is_ignored() {
    let with = |extra: &str| {
        let csv = format!("h\n40,1,1,2,3,4,5,50,{extra},9,01/01/2006\n");
        let draws = parse(&csv);
        assert_eq!(draws.len(), 1);
        (draws[0].contest, draws[0].numbers, draws[0].pot, draws[0].date.clone())
    };
    assert_eq!(with("7"), with("56"));
    assert_eq!(with("7"), with("none"));
    assert_eq!(with("7"), with(""));
}
