use chiripa::chance::{full_pool, pick, weighted_sample, Dice};
use chiripa::draw::parse;
use chiripa::planning::{make_tickets, plan, read_request, Request};
use chiripa::stats::Stats;
use chiripa::tickets::{
    find_strategy, generate, posterior_shapes, Shape, Strategy, DETERMINISTIC, STRATEGIES,
};
use rand::rngs::StdRng;
use rand::SeedableRng;

/// A history of 2400 draws with six different numbers each.
fn long_history() -> String {
    let mut seed: u64 = 2006;
    let mut csv = String::from("NPRODUCTO,CONCURSO,R1,R2,R3,R4,R5,R6,R7,BOLSA,FECHA\n");
    for contest in 1..=2400u64 {
        let mut numbers: Vec<u64> = Vec::new();
        while numbers.len() < 6 {
            seed = seed.wrapping_mul(6364136223846793005).wrapping_add(1442695040888963407);
            let n = (seed >> 33) % 56 + 1;
            if !numbers.contains(&n) {
                numbers.push(n);
            }
        }
        let cells: Vec<String> = numbers.iter().map(|n| n.to_string()).collect();
        csv.push_str(&format!("40,{contest},{},7,30000000,01/01/2006\n", cells.join(",")));
    }
    csv
}

fn whole_era() -> Stats {
    Stats::new(&parse(&long_history()))
}

fn small() -> Stats {
    Stats::new(&parse(
        "h\n40,2,5,10,15,20,25,50,7,0,x\n40,3,5,10,30,40,45,56,7,0,x\n40,4,2,5,10,15,50,51,7,0,x\n",
    ))
}

fn dice(seed: u64) -> Dice {
    Dice::new(StdRng::seed_from_u64(seed))
}

#[test]
fn hot_picks_the_most_frequent() {
    let st = whole_era();
    let mut rng = dice(1);
    let c = generate(&st, "hot", 6, &[0; 57], &mut rng);
    let worst_inside = c.iter().map(|&n| st.freq[n as usize]).min().unwrap();
    let best_outside = (1..=56u8)
        .filter(|n| !c.contains(n))
        .map(|n| st.freq[n as usize])
        .max()
        .unwrap();
    assert!(worst_inside >= best_outside);
}

#[test]
fn every_strategy_yields_k_valid_numbers() {
    let st = whole_era();
    let mut rng = dice(2);
    for id in STRATEGIES {
        for k in [6, 7, 10] {
            let c = generate(&st, id, k, &posterior_shapes(&st), &mut rng);
            assert_eq!(c.len(), k, "{id} with k={k}");
            assert!(c.windows(2).all(|w| w[0] < w[1]), "{id}: sorted, no repeats");
            assert!(c.iter().all(|&n| (1..=56).contains(&n)), "{id}: range");
        }
    }
}

#[test]
fn balanced_honors_its_constraints() {
    let st = whole_era();
    let mut rng = dice(3);
    for _ in 0..50 {
        let c = generate(&st, "balanced", 6, &[0; 57], &mut rng);
        let sum: u32 = c.iter().map(|&n| n as u32).sum();
        let evens = c.iter().filter(|&&n| n % 2 == 0).count();
        let lows = c.iter().filter(|&&n| n <= 28).count();
        assert!((st.sum_lo..=st.sum_hi).contains(&sum));
        assert!((2..=4).contains(&evens));
        assert!((2..=4).contains(&lows));
    }
}

#[test]
fn sterncover_avoids_popular_shapes() {
    let st = whole_era();
    let mut rng = dice(4);
    for _ in 0..50 {
        let c = generate(&st, "sterncover", 6, &[0; 57], &mut rng);
        assert!(c.iter().filter(|&&n| n >= 32).count() >= 4);
        assert!(!c.windows(2).any(|w| w[1] - w[0] == 1), "no consecutive numbers");
    }
}

#[test]
fn weighted_sampling_respects_weights() {
    // A number holding all the weight always wins; near-zero never does.
    let mut w = [0u128; 57];
    w[7] = 1_000_000_000_000;
    w[13] = 1;
    let mut rng = dice(6);
    for _ in 0..100 {
        assert_eq!(weighted_sample(&w, 1, &mut rng), vec![7]);
    }
}

#[test]
fn plan_spreads_tickets_correctly() {
    let sel = ["hot", "cold", "weighted", "markov"];
    let p = plan(&sel, 8);
    assert_eq!(p.len(), 8);
    assert_eq!(p.iter().filter(|&&s| s == "hot").count(), 1, "deterministic: once");
    assert_eq!(p.iter().filter(|&&s| s == "cold").count(), 1);
    // only deterministic strategies selected: nothing to fill with
    assert_eq!(plan(&["hot", "cold"], 8).len(), 2);
    assert_eq!(plan(&sel, 2), vec!["hot", "cold"]);
}

#[test]
fn plan_cycles_through_the_strategies_with_randomness() {
    assert_eq!(
        plan(&["hot", "bayes", "markov"], 7),
        vec!["hot", "bayes", "markov", "bayes", "markov", "bayes", "markov"]
    );
    assert_eq!(plan(&[], 3).len(), 0);
    assert_eq!(plan(&["markov"], 0).len(), 0);
}

#[test]
fn dice_stay_below_their_span_and_move_on() {
    let mut rng = dice(7);
    let mut seen = [0u32; 3];
    for _ in 0..3000 {
        seen[rng.roll(3) as usize] += 1;
    }
    assert!(seen.iter().all(|&n| n > 800), "each side comes up: {seen:?}");
    assert_eq!(rng.roll(1), 0);
    let big = 1u128 << 100;
    let a = rng.roll(big);
    let b = rng.roll(big);
    assert!(a < big && b < big && a != b);
}

#[test]
fn rolls_pick_by_weight() {
    let mut w = [0u128; 57];
    w[2] = 3;
    w[5] = 1;
    w[9] = 2;
    let pool = full_pool();
    assert_eq!(pool, (1..=56).collect::<Vec<u8>>());
    let picked: Vec<u8> = (0..6).map(|at| pool[pick(&w, &pool, at)]).collect();
    assert_eq!(picked, vec![2, 2, 2, 5, 9, 9]);
}

#[test]
fn samples_take_each_number_once() {
    let mut w = [0u128; 57];
    w[2] = 3;
    w[5] = 1;
    w[9] = 2;
    let mut rng = dice(8);
    assert_eq!(weighted_sample(&w, 3, &mut rng), vec![2, 5, 9]);
    assert_eq!(weighted_sample(&[1; 57], 56, &mut rng), full_pool());
    assert_eq!(weighted_sample(&w, 0, &mut rng), Vec::<u8>::new());
}

#[test]
fn samples_follow_the_weights_on_the_whole() {
    let mut w = [0u128; 57];
    w[1] = 1;
    w[56] = 3;
    let mut rng = dice(9);
    let ones = (0..4000).filter(|_| weighted_sample(&w, 1, &mut rng) == vec![1]).count();
    assert!((850..1150).contains(&ones), "a quarter of 4000: {ones}");
}

#[test]
fn best_tickets_by_hand() {
    let st = small();
    let mut rng = dice(10);
    assert_eq!(generate(&st, "hot", 4, &[0; 57], &mut rng), vec![5, 10, 15, 50]);
    assert_eq!(generate(&st, "cold", 6, &[0; 57], &mut rng), vec![1, 3, 4, 6, 7, 8]);
    let mut posterior = [0u64; 57];
    posterior[44] = 2;
    posterior[3] = 1;
    assert_eq!(generate(&st, "bayes", 3, &posterior, &mut rng), vec![1, 3, 44]);
    assert_eq!(generate(&st, "no such", 6, &posterior, &mut rng), Vec::<u8>::new());
    assert_eq!(generate(&st, "markov", 0, &posterior, &mut rng), Vec::<u8>::new());
    assert_eq!(generate(&st, "hot", 99, &posterior, &mut rng).len(), 56);
}

#[test]
fn markov_prefers_partners() {
    let st = small();
    let mut rng = dice(11);
    let pairs = (0..3000)
        .map(|_| generate(&st, "markov", 2, &[0; 57], &mut rng))
        .filter(|c| *c == vec![5, 10])
        .count();
    // (4 / 74) * (4 / 70) for each order: about 18.5 of 3000, two numbers of 56
    // taken evenly would be about 2.
    assert!((6..45).contains(&pairs), "5 with 10: {pairs}");
}

#[test]
fn shapes_by_hand() {
    let balanced = Shape::Balanced { lo: 100, hi: 110, least: 2, most: 4 };
    assert!(balanced.accepts(&vec![1, 2, 3, 40, 28, 29]));
    assert!(!balanced.accepts(&vec![1, 2, 3, 4, 28, 29]), "sum");
    assert!(!balanced.accepts(&vec![1, 3, 5, 41, 27, 29]), "no even number");
    assert!(!balanced.accepts(&vec![20, 21, 22, 18, 1, 19]), "all low");
    let unpopular = Shape::Unpopular { high: 2 };
    assert!(unpopular.accepts(&vec![1, 32, 40]));
    assert!(!unpopular.accepts(&vec![1, 31, 40]));
    assert!(!unpopular.accepts(&vec![1, 32, 33]));
    assert!(!unpopular.accepts(&vec![]));
}

#[test]
fn strategies_are_found_by_their_ids() {
    let found: Vec<Option<Strategy>> = STRATEGIES.iter().map(|id| find_strategy(id)).collect();
    assert_eq!(
        found,
        vec![
            Some(Strategy::Hot),
            Some(Strategy::Cold),
            Some(Strategy::Weighted),
            Some(Strategy::Recent),
            Some(Strategy::Bayes),
            Some(Strategy::Balanced),
            Some(Strategy::SternCover),
            Some(Strategy::Markov),
        ]
    );
    assert_eq!(find_strategy("Hot"), None);
    assert_eq!(find_strategy(""), None);
    assert_eq!(DETERMINISTIC, ["hot", "cold"]);
}

#[test]
fn posterior_shapes_are_one_more_than_the_frequencies() {
    let shapes = posterior_shapes(&small());
    assert_eq!(shapes[0], 0);
    assert_eq!(shapes[5], 4);
    assert_eq!(shapes[50], 3);
    assert_eq!(shapes[9], 1);
}

fn planned(request: &Request) -> Vec<&'static str> {
    request.slots.iter().map(|slot| slot.strategy).collect()
}

#[test]
fn requests_have_defaults_and_bounds() {
    let r = read_request(None, None, None).unwrap();
    assert_eq!(planned(&r), STRATEGIES.to_vec());
    assert_eq!(r.k, 6);
    let by_posterior: Vec<bool> = r.slots.iter().map(|slot| slot.by_posterior).collect();
    assert_eq!(by_posterior, STRATEGIES.map(|id| id == "bayes").to_vec());
    let r = read_request(Some("markov,hot,unknown,hot"), Some("99"), Some("7")).unwrap();
    assert_eq!(planned(&r)[..3], ["hot", "markov", "markov"]);
    assert_eq!((r.slots.len(), r.k), (12, 7));
    let r = read_request(Some("cold,markov"), Some("0"), Some("+2")).unwrap();
    assert_eq!((planned(&r), r.k), (vec!["cold"], 6));
    let r = read_request(Some("markov"), Some("-3"), Some("11")).unwrap();
    assert_eq!((r.slots.len(), r.k), (8, 10));
    let r = read_request(Some("cold"), Some("3"), None).unwrap();
    assert_eq!(planned(&r), vec!["cold"], "nothing to fill with");
    assert!(read_request(Some(""), None, None).is_none());
    assert!(read_request(Some(" hot"), None, None).is_none());
}

#[test]
fn tickets_without_chance_leave_the_generator_alone() {
    let st = small();
    let mut used = dice(13);
    let mut fresh = dice(13);
    for id in ["hot", "cold", "bayes", "no such"] {
        generate(&st, id, 6, &[0; 57], &mut used);
    }
    let request = read_request(Some("hot,cold"), None, None).unwrap();
    make_tickets(&st, &request, &[[0; 57]; 2], &mut used);
    assert_eq!(used.roll(1 << 100), fresh.roll(1 << 100));
}

#[test]
fn best_tickets_are_nested() {
    let st = whole_era();
    let mut rng = dice(14);
    for id in DETERMINISTIC {
        for k in 0..56 {
            let fewer = generate(&st, id, k, &[0; 57], &mut rng);
            let more = generate(&st, id, k + 1, &[0; 57], &mut rng);
            assert!(fewer.iter().all(|n| more.contains(n)));
        }
    }
}

#[test]
fn tickets_of_a_request() {
    let st = small();
    let request = read_request(Some("hot,bayes"), Some("3"), None).unwrap();
    let mut first = [0u64; 57];
    first[9] = 1;
    let mut third = [0u64; 57];
    third[56] = 1;
    let tickets = make_tickets(&st, &request, &[first, first, third], &mut dice(12));
    assert_eq!(tickets.len(), 3);
    assert_eq!(tickets[0].strategy, "hot");
    assert_eq!(tickets[0].numbers, vec![2, 5, 10, 15, 20, 50]);
    // 5 with 2, 10, 15, 20 and 50: 1 + 3 + 2 + 1 + 2
    assert_eq!(tickets[0].cooc_sum[1], 9);
    assert_eq!(tickets[0].cooc_sum, vec![4, 9, 9, 8, 4, 8]);
    assert_eq!(tickets[1].strategy, "bayes");
    assert_eq!(tickets[1].numbers, vec![1, 2, 3, 4, 5, 9]);
    assert_eq!(tickets[2].strategy, "bayes");
    assert_eq!(tickets[2].numbers, vec![1, 2, 3, 4, 5, 56]);
}
