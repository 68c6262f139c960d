use fleet_scheduler::feasibility::{
    can_place, can_place_on_driver, can_place_on_vehicle, insufficient_break, on_break, overlaps,
};
use fleet_scheduler::operators::{inherit, release_drawn, tournament_winner};
use fleet_scheduler::{
    crossover, initialize_random_state, mutate, select_parent, Break, Config, Driver, Evolution,
    Interval, Order, Problem, Random, SolverState, Step, StopReason, Vehicle,
};

const MINUTE: i64 = 60_000;
const HOUR: i64 = 60 * MINUTE;

fn driver(id: &str) -> Driver {
    Driver { id: id.to_string(), breaks: None, preference: None }
}

fn vehicle(id: &str, max_weight: u64) -> Vehicle {
    Vehicle { id: id.to_string(), tags: None, max_weight, max_volume: None }
}

fn order(id: &str, start: i64, end: i64, weight: u64) -> Order {
    Order {
        id: id.to_string(),
        start_time: start,
        end_time: end,
        priority: None,
        tags: None,
        weight,
        volume: None,
    }
}

fn problem(drivers: Vec<Driver>, vehicles: Vec<Vehicle>, orders: Vec<Order>) -> Problem {
    Problem { drivers, vehicles, orders, mandatory_break: 30 * MINUTE, preference_bonus: 1 }
}

fn iv(start: i64, end: i64) -> Interval {
    Interval { start, end }
}

/// Runs a search to its end with no time passing, and returns the last
/// evolution together with every reported best score.
fn run(p: &Problem, config: &Config, seed: u64) -> (Evolution, Vec<u128>) {
    let mut rng = Random::from_seed(seed);
    let mut evo = Evolution::new(p, config, &mut rng);
    let mut bests = Vec::new();
    loop {
        match evo.step(p, config, 0, &mut rng) {
            Step::Progress { best_score, .. } => bests.push(best_score),
            Step::Stagnated { best_score, .. } => {
                bests.push(best_score);
                break;
            }
            Step::Stopped(_) => break,
        }
    }
    (evo, bests)
}

#[test]
fn overlaps_is_symmetric_and_half_open() {
    let pairs = [
        (iv(0, 10), iv(5, 15)),
        (iv(0, 10), iv(10, 20)),
        (iv(0, 10), iv(20, 30)),
        (iv(0, 30), iv(10, 20)),
        (iv(5, 5), iv(0, 10)),
    ];
    for (a, b) in pairs {
        assert_eq!(overlaps(a, b), overlaps(b, a));
    }
    assert!(overlaps(iv(0, 10), iv(5, 15)));
    assert!(!overlaps(iv(0, 10), iv(10, 20)));
    assert!(overlaps(iv(0, 30), iv(10, 20)));
}

#[test]
fn insufficient_break_measures_the_gap() {
    let gap = 30 * MINUTE;
    assert!(insufficient_break(iv(0, HOUR), iv(HOUR + 29 * MINUTE, 2 * HOUR), gap));
    assert!(!insufficient_break(iv(0, HOUR), iv(HOUR + 30 * MINUTE, 2 * HOUR), gap));
    assert!(insufficient_break(iv(HOUR + 10 * MINUTE, 2 * HOUR), iv(0, HOUR), gap));
    assert!(!insufficient_break(iv(0, HOUR), iv(30 * MINUTE, 2 * HOUR), gap));
}

#[test]
fn on_break_is_half_open() {
    let mut d = driver("d");
    d.breaks = Some(vec![Break { from: 10 * HOUR, to: 10 * HOUR + 30 * MINUTE }]);
    assert!(on_break(&d, 10 * HOUR));
    assert!(on_break(&d, 10 * HOUR + 20 * MINUTE));
    assert!(!on_break(&d, 10 * HOUR + 30 * MINUTE));
    assert!(!on_break(&d, 9 * HOUR));
    assert!(!on_break(&driver("e"), 10 * HOUR));
}

#[test]
fn vehicle_limits_weight_volume_and_tags() {
    let v = vehicle("v", 100);
    let none: Vec<Interval> = Vec::new();
    let light = order("a", 0, HOUR, 100);
    let heavy = order("b", 0, HOUR, 101);
    assert!(can_place_on_vehicle(&light, &v, &none, 30 * MINUTE));
    assert!(!can_place_on_vehicle(&heavy, &v, &none, 30 * MINUTE));

    let mut bulky = order("c", 0, HOUR, 1);
    bulky.volume = Some(5);
    assert!(!can_place_on_vehicle(&bulky, &v, &none, 30 * MINUTE));
    let mut roomy = vehicle("w", 100);
    roomy.max_volume = Some(5);
    assert!(can_place_on_vehicle(&bulky, &roomy, &none, 30 * MINUTE));
    roomy.max_volume = Some(4);
    assert!(!can_place_on_vehicle(&bulky, &roomy, &none, 30 * MINUTE));

    let mut tagged = order("d", 0, HOUR, 1);
    tagged.tags = Some(vec!["frozen".to_string(), "fragile".to_string()]);
    assert!(!can_place_on_vehicle(&tagged, &v, &none, 30 * MINUTE));
    let mut cold = vehicle("x", 100);
    cold.tags = Some(vec!["frozen".to_string()]);
    assert!(!can_place_on_vehicle(&tagged, &cold, &none, 30 * MINUTE));
    cold.tags = Some(vec!["fragile".to_string(), "frozen".to_string(), "large".to_string()]);
    assert!(can_place_on_vehicle(&tagged, &cold, &none, 30 * MINUTE));
}

#[test]
fn vehicle_keeps_the_mandatory_break_too() {
    let v = vehicle("v", 100);
    let committed = vec![iv(0, HOUR)];
    let close = order("a", HOUR + 10 * MINUTE, 2 * HOUR, 1);
    let far = order("b", HOUR + 30 * MINUTE, 2 * HOUR, 1);
    assert!(!can_place_on_vehicle(&close, &v, &committed, 30 * MINUTE));
    assert!(can_place_on_vehicle(&far, &v, &committed, 30 * MINUTE));
}

#[test]
fn break_window_excludes_the_later_order() {
    let mut d = driver("d");
    d.breaks = Some(vec![Break { from: 10 * HOUR, to: 10 * HOUR + 30 * MINUTE }]);
    let v = vehicle("v", 100);
    let early = order("early", 9 * HOUR, 9 * HOUR + 45 * MINUTE, 1);
    let late = order("late", 10 * HOUR + 20 * MINUTE, 11 * HOUR, 1);
    let none: Vec<Interval> = Vec::new();
    assert!(can_place(&early, &d, &v, &none, &none, 30 * MINUTE));
    assert!(!can_place_on_driver(&late, &d, &none, 30 * MINUTE));
    assert!(!can_place_on_driver(&late, &d, &vec![early.interval()], 30 * MINUTE));

    let p = problem(vec![d], vec![v], vec![early, late]);
    let (evo, _) = run(&p, &Config::standard(), 7);
    for c in &evo.population {
        assert!(c.placements.iter().all(|pl| pl.order != 1));
        assert_eq!(c.placements.len(), 1);
    }
}

#[test]
fn scenario_two_separate_orders_are_both_assigned() {
    let p = problem(
        vec![driver("d1")],
        vec![vehicle("v1", 100)],
        vec![order("o1", 8 * HOUR, 9 * HOUR, 10), order("o2", 12 * HOUR, 13 * HOUR, 10)],
    );
    let config = Config::standard();
    let (evo, _) = run(&p, &config, 1);
    let best = evo.best(&p, &config);
    assert_eq!(best.score, 20);
    let out = best.assignments(&p);
    assert_eq!(out.len(), 2);
    let mut ids: Vec<String> = out.iter().map(|a| a.order_id.clone()).collect();
    ids.sort();
    assert_eq!(ids, vec!["o1".to_string(), "o2".to_string()]);
    assert!(out.iter().all(|a| a.driver_id == "d1" && a.vehicle_id == "v1"));
}

#[test]
fn scenario_identical_windows_assign_exactly_one() {
    let p = problem(
        vec![driver("d1")],
        vec![vehicle("v1", 100)],
        vec![order("o1", 8 * HOUR, 9 * HOUR, 10), order("o2", 8 * HOUR, 9 * HOUR, 10)],
    );
    let config = Config::standard();
    let (evo, _) = run(&p, &config, 2);
    let best = evo.best(&p, &config);
    assert_eq!(best.score, 10);
    assert_eq!(best.assignments(&p).len(), 1);
}

#[test]
fn scenario_tagged_order_never_assigned_to_untagged_vehicle() {
    let mut frozen = order("o1", 8 * HOUR, 9 * HOUR, 10);
    frozen.tags = Some(vec!["frozen".to_string()]);
    let p = problem(
        vec![driver("d1")],
        vec![vehicle("v1", 100)],
        vec![frozen, order("o2", 12 * HOUR, 13 * HOUR, 10)],
    );
    let config = Config::standard();
    let mut rng = Random::from_seed(3);
    let mut evo = Evolution::new(&p, &config, &mut rng);
    loop {
        for c in &evo.population {
            assert!(c.assignments(&p).iter().all(|a| a.order_id != "o1"));
        }
        match evo.step(&p, &config, 0, &mut rng) {
            Step::Progress { .. } => {}
            _ => break,
        }
    }
    for c in &evo.population {
        assert!(c.assignments(&p).iter().all(|a| a.order_id != "o1"));
    }
}

#[test]
fn preference_bonus_and_priority_count_in_the_score() {
    let mut d = driver("d1");
    d.preference = Some("v1".to_string());
    let mut o = order("o1", 0, HOUR, 1);
    o.priority = Some(3);
    let p = problem(vec![d], vec![vehicle("v1", 10)], vec![o]);
    let mut s = SolverState::new();
    assert!(s.placeable(&p, 0, 0, 0));
    s.commit(&p, 0, 0, 0);
    assert_eq!(s.score, 31);
    assert_eq!(s.calculate_score(&p), 31);
    s.release_at(&p, 0);
    assert_eq!(s.score, 0);
    assert!(s.placements.is_empty());
}

#[test]
fn release_frees_only_the_released_order() {
    let p = problem(
        vec![driver("d1"), driver("d2")],
        vec![vehicle("v1", 100), vehicle("v2", 100)],
        vec![order("o1", 0, HOUR, 1), order("o2", 0, HOUR, 1)],
    );
    let mut s = SolverState::new();
    s.commit(&p, 0, 0, 0);
    assert!(!s.placeable(&p, 1, 0, 1));
    assert!(!s.placeable(&p, 1, 1, 0));
    s.commit(&p, 1, 1, 1);
    s.release_at(&p, 0);
    assert_eq!(s.placements.len(), 1);
    assert_eq!(s.placements[0].order, 1);
    assert_eq!(s.score, 10);
    assert!(s.placeable(&p, 0, 0, 0));
    assert!(!s.placeable(&p, 0, 1, 0));
}

fn crowded_problem() -> Problem {
    let mut orders = Vec::new();
    for k in 0..12i64 {
        let mut o = order(&format!("o{}", k), (k % 6) * HOUR, (k % 6) * HOUR + 50 * MINUTE, 5 * (k as u64 % 4));
        if k % 5 == 0 {
            o.priority = Some(2);
        }
        orders.push(o);
    }
    let mut d1 = driver("d1");
    d1.preference = Some("v2".to_string());
    problem(vec![d1, driver("d2")], vec![vehicle("v1", 10), vehicle("v2", 20)], orders)
}

fn check_candidate(p: &Problem, c: &SolverState) {
    assert_eq!(c.score, c.calculate_score(p));
    for (i, a) in c.placements.iter().enumerate() {
        let o = &p.orders[a.order];
        assert!(o.weight <= p.vehicles[a.vehicle].max_weight);
        for b in c.placements.iter().skip(i + 1) {
            assert_ne!(a.order, b.order);
            if a.driver == b.driver || a.vehicle == b.vehicle {
                let w = o.interval();
                let x = p.orders[b.order].interval();
                assert!(!overlaps(w, x));
                assert!(!insufficient_break(w, x, p.mandatory_break));
            }
        }
    }
}

#[test]
fn operators_keep_candidates_consistent() {
    let p = crowded_problem();
    let mut rng = Random::from_seed(11);
    let a = initialize_random_state(&p, &mut rng);
    let b = initialize_random_state(&p, &mut rng);
    check_candidate(&p, &a);
    check_candidate(&p, &b);
    let mut child = crossover(&a, &b, &p, &mut rng);
    check_candidate(&p, &child);
    for _ in 0..20 {
        mutate(&mut child, &p, &mut rng);
        check_candidate(&p, &child);
    }
    let population = vec![a, b];
    let chosen = select_parent(&population, 3, &mut rng);
    assert!(population.iter().any(|c| c.score == chosen.score && c.placements.len() == chosen.placements.len()));
}

#[test]
fn best_score_never_falls_and_population_size_holds() {
    let p = crowded_problem();
    let config = Config::standard();
    let (evo, bests) = run(&p, &config, 5);
    assert!(!bests.is_empty());
    for w in bests.windows(2) {
        assert!(w[1] >= w[0]);
    }
    assert_eq!(evo.population.len(), config.population_size);
    assert!(evo.stopped.is_some());
}

#[test]
fn generation_cap_and_time_budget_stop_the_search() {
    let p = crowded_problem();
    let mut config = Config::standard();
    config.generation_cap = 3;
    config.population_size = 10;
    config.stagnation_cap = 1000;
    let mut rng = Random::from_seed(9);
    let mut evo = Evolution::new(&p, &config, &mut rng);
    for g in 1..=3u64 {
        match evo.step(&p, &config, 0, &mut rng) {
            Step::Progress { generation, .. } => assert_eq!(generation, g),
            other => panic!("unexpected {:?}", other),
        }
        assert_eq!(evo.population.len(), 10);
    }
    assert_eq!(evo.step(&p, &config, 0, &mut rng), Step::Stopped(StopReason::GenerationCap));
    assert_eq!(evo.step(&p, &config, 0, &mut rng), Step::Stopped(StopReason::GenerationCap));

    let mut other = Evolution::new(&p, &config, &mut rng);
    assert_eq!(other.step(&p, &config, 10_001, &mut rng), Step::Stopped(StopReason::TimeBudget));
    assert_eq!(other.generation, 0);
}

#[test]
fn stagnation_stops_after_the_cap() {
    let p = problem(vec![driver("d1")], vec![vehicle("v1", 100)], vec![order("o1", 0, HOUR, 1)]);
    let mut config = Config::standard();
    config.population_size = 4;
    config.stagnation_cap = 3;
    let (evo, bests) = run(&p, &config, 4);
    assert_eq!(evo.stopped, Some(StopReason::Stagnation));
    assert_eq!(bests.len(), 3);
    assert!(bests.iter().all(|b| *b == 10));
}

#[test]
fn elite_count_rounds_up() {
    let mut config = Config::standard();
    assert_eq!(config.elite_count(), 5);
    config.population_size = 7;
    assert_eq!(config.elite_count(), 1);
    config.population_size = 11;
    assert_eq!(config.elite_count(), 2);
}

#[test]
fn permutation_shuffles_every_index_once() {
    let mut rng = Random::from_seed(42);
    let perm = rng.permutation(30);
    let mut sorted = perm.clone();
    sorted.sort();
    assert_eq!(sorted, (0..30).collect::<Vec<usize>>());
    assert_ne!(perm, (0..30).collect::<Vec<usize>>());
}

#[test]
fn random_draws_stay_in_range() {
    let mut rng = Random::from_seed(1);
    let mut seen = [false; 3];
    for _ in 0..200 {
        let x = rng.below_from(1, 4);
        assert!((1..4).contains(&x));
        seen[x - 1] = true;
    }
    assert!(seen.iter().all(|s| *s));
    let pairs = vec![(3, 4), (5, 6)];
    let mut got_first = false;
    let mut got_second = false;
    for _ in 0..100 {
        match rng.pick(&pairs) {
            Some((3, 4)) => got_first = true,
            Some((5, 6)) => got_second = true,
            other => panic!("unexpected {:?}", other),
        }
    }
    assert!(got_first && got_second);
    assert_eq!(rng.pick(&Vec::new()), None);
    assert!(!rng.chance(0, 5));
    assert!(rng.chance(5, 5));
    let heads = (0..1000).filter(|_| rng.chance(1, 2)).count();
    assert!(heads > 300 && heads < 700);
}

#[test]
fn same_seed_gives_same_search() {
    let p = crowded_problem();
    let config = Config::standard();
    let (a, ba) = run(&p, &config, 77);
    let (b, bb) = run(&p, &config, 77);
    assert_eq!(ba, bb);
    assert_eq!(a.generation, b.generation);
}

#[test]
fn inverted_window_is_never_placed() {
    let v = vehicle("v", 100);
    let d = driver("d");
    let none: Vec<Interval> = Vec::new();
    let backwards = order("b", 10 * HOUR, 9 * HOUR, 1);
    assert!(!can_place_on_driver(&backwards, &d, &none, 30 * MINUTE));
    assert!(!can_place_on_vehicle(&backwards, &v, &none, 30 * MINUTE));
    let instant = order("i", 10 * HOUR, 10 * HOUR, 1);
    assert!(can_place(&instant, &d, &v, &none, &none, 30 * MINUTE));

    let p = problem(vec![d], vec![v], vec![backwards, order("ok", 12 * HOUR, 13 * HOUR, 1)]);
    let mut rng = Random::from_seed(8);
    let s = initialize_random_state(&p, &mut rng);
    assert_eq!(s.placements.len(), 1);
    assert_eq!(s.placements[0].order, 1);
}

#[test]
fn tournament_winner_is_best_of_the_draws() {
    let p = crowded_problem();
    let mut rng = Random::from_seed(21);
    let mut population = Vec::new();
    for _ in 0..4 {
        population.push(initialize_random_state(&p, &mut rng));
    }
    population.push(SolverState::new());
    let draws = vec![4, 4, 4];
    assert_eq!(tournament_winner(&population, &draws), 4);
    let draws = vec![4, 0, 2];
    let w = tournament_winner(&population, &draws);
    assert!(draws.contains(&w));
    assert!(draws.iter().all(|d| population[w].score >= population[*d].score));
    assert!(population[w].score > 0);
}

#[test]
fn inherit_follows_the_coins() {
    let p = problem(
        vec![driver("d1"), driver("d2")],
        vec![vehicle("v1", 100), vehicle("v2", 100)],
        vec![order("o1", 0, HOUR, 1), order("o2", 0, HOUR, 1)],
    );
    let mut a = SolverState::new();
    a.commit(&p, 0, 0, 0);
    a.commit(&p, 1, 1, 1);
    let mut b = SolverState::new();
    b.commit(&p, 0, 1, 1);
    b.commit(&p, 1, 0, 0);
    let child = inherit(&a, &b, &p, &vec![true, true]);
    assert_eq!(child.placements.len(), 2);
    assert_eq!((child.placements[0].driver, child.placements[1].driver), (0, 1));
    let child = inherit(&a, &b, &p, &vec![false, true]);
    assert_eq!(child.placements.len(), 1);
    assert_eq!((child.placements[0].order, child.placements[0].driver), (0, 1));
    assert_eq!(child.score, 10);
    let mut rng = Random::from_seed(3);
    let child = crossover(&a, &a, &p, &mut rng);
    assert_eq!(child.placements.len(), 2);
    assert_eq!((child.placements[0].driver, child.placements[1].driver), (0, 1));
}

#[test]
fn release_drawn_removes_positions_in_turn() {
    let p = crowded_problem();
    let mut rng = Random::from_seed(5);
    let s = initialize_random_state(&p, &mut rng);
    assert!(s.placements.len() >= 3);
    let orders: Vec<usize> = s.placements.iter().map(|x| x.order).collect();
    let mut t = s.duplicate();
    release_drawn(&mut t, &p, &vec![0, 0]);
    let left: Vec<usize> = t.placements.iter().map(|x| x.order).collect();
    assert_eq!(left, orders[2..].to_vec());
    assert_eq!(t.score, t.calculate_score(&p));

    let mut m = s.duplicate();
    mutate(&mut m, &p, &mut rng);
    let kept = orders.iter().filter(|o| m.placements.iter().any(|x| x.order == **o)).count();
    assert!(kept + 3 >= orders.len());
}
