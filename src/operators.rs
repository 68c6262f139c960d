use vstd::prelude::*;
use crate::feasibility::clear_of;
use crate::model::Problem;
use crate::random::Random;
use crate::state::{assigned_in, Placement, SolverState};

verus! {

/// Some driver and vehicle could take `order` now.
pub open spec fn placeable_somewhere(problem: &Problem, ps: Seq<Placement>, order: usize) -> bool {
    exists|d: usize, v: usize|
        d < problem.drivers@.len() && v < problem.vehicles@.len() && #[trigger] problem.placeable(ps, order, d, v)
}

/// Every (driver, vehicle) pair that could take `order` now.
pub fn feasible_pairs(state: &SolverState, problem: &Problem, order: usize) -> (r: Vec<(usize, usize)>)
    requires
        state.wf(problem),
        order < problem.orders@.len(),
    ensures
        forall|k: int| 0 <= k < r@.len() ==> {
            let (d, v) = #[trigger] r@[k];
            d < problem.drivers@.len() && v < problem.vehicles@.len()
                && problem.placeable(state.placements@, order, d, v)
        },
        forall|d: usize, v: usize|
            d < problem.drivers@.len() && v < problem.vehicles@.len() && #[trigger] problem.placeable(state.placements@, order, d, v)
                ==> r@.contains((d, v)),
{
    let mut r: Vec<(usize, usize)> = Vec::new();
    let mut d: usize = 0;
    while d < problem.drivers.len()
        invariant
            state.wf(problem),
            order < problem.orders@.len(),
            d <= problem.drivers@.len(),
            forall|k: int| 0 <= k < r@.len() ==> {
                let (d, v) = #[trigger] r@[k];
                d < problem.drivers@.len() && v < problem.vehicles@.len()
                    && problem.placeable(state.placements@, order, d, v)
            },
            forall|d2: usize, v: usize|
                d2 < d && v < problem.vehicles@.len() && #[trigger] problem.placeable(state.placements@, order, d2, v)
                    ==> r@.contains((d2, v)),
        decreases problem.drivers@.len() - d,
    {
        let mut v: usize = 0;
        while v < problem.vehicles.len()
            invariant
                state.wf(problem),
                order < problem.orders@.len(),
                d < problem.drivers@.len(),
                v <= problem.vehicles@.len(),
                forall|k: int| 0 <= k < r@.len() ==> {
                    let (d, v) = #[trigger] r@[k];
                    d < problem.drivers@.len() && v < problem.vehicles@.len()
                        && problem.placeable(state.placements@, order, d, v)
                },
                forall|d2: usize, v2: usize|
                    (d2 < d && v2 < problem.vehicles@.len() || d2 == d && v2 < v)
                        && #[trigger] problem.placeable(state.placements@, order, d2, v2)
                        ==> r@.contains((d2, v2)),
            decreases problem.vehicles@.len() - v,
        {
            if state.placeable(problem, order, d, v) {
                let ghost before = r@;
                r.push((d, v));
                assert(r@[r@.len() - 1] == (d, v));
                assert forall|d2: usize, v2: usize|
                    (d2 < d && v2 < problem.vehicles@.len() || d2 == d && v2 < v + 1)
                        && #[trigger] problem.placeable(state.placements@, order, d2, v2)
                        implies r@.contains((d2, v2)) by {
                    if d2 == d && v2 == v {
                        assert(r@[r@.len() - 1] == (d2, v2));
                    } else {
                        let k = choose|k: int| 0 <= k < before.len() && before[k] == (d2, v2);
                        assert(r@[k] == (d2, v2));
                    }
                }
            }
            v = v + 1;
        }
        d = d + 1;
    }
    r
}

/// Commits `order` on a (driver, vehicle) pair drawn from all that could take it,
/// and leaves the candidate as it was where none could.
pub fn place_randomly(state: &mut SolverState, problem: &Problem, order: usize, rng: &mut Random)
    requires
        old(state).wf(problem),
        order < problem.orders@.len(),
        !assigned_in(old(state).placements@, order),
    ensures
        final(state).wf(problem),
        placeable_somewhere(problem, old(state).placements@, order) ==> exists|d: usize, v: usize|
            #![trigger problem.placeable(old(state).placements@, order, d, v)]
            problem.placeable(old(state).placements@, order, d, v)
                && final(state).placements@ == old(state).placements@.push(
                    Placement { order, driver: d, vehicle: v },
                ),
        !placeable_somewhere(problem, old(state).placements@, order) ==> final(state).placements@
            == old(state).placements@,
{
    let pairs = feasible_pairs(state, problem, order);
    match rng.pick(&pairs) {
        Some((d, v)) => {
            proof {
                let k = choose|k: int| 0 <= k < pairs@.len() && pairs@[k] == (d, v);
                assert(pairs@[k] == (d, v));
            }
            state.commit(problem, order, d, v);
        },
        None => {
            assert(!placeable_somewhere(problem, state.placements@, order)) by {
                if placeable_somewhere(problem, state.placements@, order) {
                    let (d, v) = choose|d: usize, v: usize|
                        d < problem.drivers@.len() && v < problem.vehicles@.len()
                            && #[trigger] problem.placeable(state.placements@, order, d, v);
                    assert(pairs@.contains((d, v)));
                }
            }
        },
    }
}

/// Committing more never makes an order placeable that was not.
pub proof fn lemma_placeable_shrinks(problem: &Problem, ps: Seq<Placement>, qs: Seq<Placement>, order: usize)
    requires
        ps.len() <= qs.len(),
        qs.subrange(0, ps.len() as int) == ps,
        placeable_somewhere(problem, qs, order),
    ensures
        placeable_somewhere(problem, ps, order),
    decreases qs.len() - ps.len(),
{
    if ps.len() < qs.len() {
        let shorter = qs.drop_last();
        assert(shorter.subrange(0, ps.len() as int) =~= ps);
        let (d, v) = choose|d: usize, v: usize|
            d < problem.drivers@.len() && v < problem.vehicles@.len() && #[trigger] problem.placeable(qs, order, d, v);
        lemma_windows_extend(problem, shorter, qs.last(), true, d);
        lemma_windows_extend(problem, shorter, qs.last(), false, v);
        assert(shorter.push(qs.last()) =~= qs);
        assert(problem.placeable(shorter, order, d, v));
        lemma_placeable_shrinks(problem, ps, shorter, order);
    } else {
        assert(qs =~= ps);
    }
}

/// The windows of one resource after one more commit hold those before.
pub proof fn lemma_windows_extend(problem: &Problem, ps: Seq<Placement>, x: Placement, by_driver: bool, r: usize)
    ensures
        forall|w, gap: i64|
            #[trigger] clear_of(problem.windows_on(ps.push(x), by_driver, r), w, gap)
                ==> clear_of(problem.windows_on(ps, by_driver, r), w, gap),
{
    assert(ps.push(x).drop_last() =~= ps);
    let before = problem.windows_on(ps, by_driver, r);
    let after = problem.windows_on(ps.push(x), by_driver, r);
    assert forall|w, gap: i64| #[trigger] clear_of(after, w, gap) implies clear_of(before, w, gap) by {
        assert forall|i: int| 0 <= i < before.len() implies !crate::feasibility::conflicts(#[trigger] before[i], w, gap) by {
            assert(after[i] == before[i]);
        }
    }
}

/// Offers each order of `turn` that is not yet committed a random feasible
/// pair; afterwards each order of `turn` is committed or fits nowhere.
pub fn place_in_turn(state: &mut SolverState, problem: &Problem, turn: &Vec<usize>, rng: &mut Random)
    requires
        old(state).wf(problem),
        forall|i: int| 0 <= i < turn@.len() ==> #[trigger] turn@[i] < problem.orders@.len(),
    ensures
        final(state).wf(problem),
        old(state).placements@.len() <= final(state).placements@.len(),
        final(state).placements@.subrange(0, old(state).placements@.len() as int) == old(state).placements@,
        forall|i: int| 0 <= i < turn@.len() ==> assigned_in(final(state).placements@, #[trigger] turn@[i])
            || !placeable_somewhere(problem, final(state).placements@, turn@[i]),
{
    let ghost start = state.placements@;
    let mut i: usize = 0;
    while i < turn.len()
        invariant
            state.wf(problem),
            forall|k: int| 0 <= k < turn@.len() ==> #[trigger] turn@[k] < problem.orders@.len(),
            i <= turn@.len(),
            start.len() <= state.placements@.len(),
            state.placements@.subrange(0, start.len() as int) == start,
            forall|k: int| 0 <= k < i ==> assigned_in(state.placements@, #[trigger] turn@[k])
                || !placeable_somewhere(problem, state.placements@, turn@[k]),
        decreases turn@.len() - i,
    {
        let o = turn[i];
        let ghost before = state.placements@;
        if !state.is_assigned(o) {
            place_randomly(state, problem, o, rng);
            proof {
                let after = state.placements@;
                if after != before {
                    assert(after.drop_last() == before);
                    assert(after.subrange(0, before.len() as int) =~= before);
                    assert(after[after.len() - 1].order == o);
                } else {
                    assert(after.subrange(0, before.len() as int) =~= before);
                }
                assert(after.subrange(0, start.len() as int) =~= start);
                assert forall|k: int| 0 <= k < i + 1 implies assigned_in(after, #[trigger] turn@[k])
                    || !placeable_somewhere(problem, after, turn@[k]) by {
                    if k < i {
                        if assigned_in(before, turn@[k]) {
                            let j = choose|j: int| 0 <= j < before.len() && (#[trigger] before[j]).order == turn@[k];
                            assert(after[j] == before[j]);
                        } else if placeable_somewhere(problem, after, turn@[k]) {
                            lemma_placeable_shrinks(problem, before, after, turn@[k]);
                        }
                    } else if after != before {
                        assert(after[after.len() - 1].order == o);
                    }
                }
            }
        }
        i = i + 1;
    }
}

/// The orders' indices in their input order.
pub fn input_order(n: usize) -> (r: Vec<usize>)
    ensures
        r@ == Seq::new(n as nat, |i: int| i as usize),
{
    let mut v: Vec<usize> = Vec::new();
    let mut i: usize = 0;
    while i < n
        invariant
            i <= n,
            v@ == Seq::new(i as nat, |k: int| k as usize),
        decreases n - i,
    {
        v.push(i);
        i = i + 1;
        assert(v@ =~= Seq::new(i as nat, |k: int| k as usize));
    }
    v
}

/// No order is left out that some driver and vehicle could still take.
pub open spec fn saturated(problem: &Problem, ps: Seq<Placement>) -> bool {
    forall|o: usize| o < problem.orders@.len() ==> assigned_in(ps, o) || !placeable_somewhere(problem, ps, o)
}

/// Offers every order that is not committed, in input order, a random feasible pair.
fn repair(state: &mut SolverState, problem: &Problem, rng: &mut Random)
    requires
        old(state).wf(problem),
    ensures
        final(state).wf(problem),
        saturated(problem, final(state).placements@),
        old(state).placements@.len() <= final(state).placements@.len(),
        final(state).placements@.subrange(0, old(state).placements@.len() as int) == old(state).placements@,
{
    let turn = input_order(problem.orders.len());
    place_in_turn(state, problem, &turn, rng);
    assert forall|o: usize| o < problem.orders@.len() implies assigned_in(state.placements@, o)
        || !placeable_somewhere(problem, state.placements@, o) by {
        assert(turn@[o as int] == o);
    }
}

/// One candidate built from nothing: the orders are taken in a fresh random
/// order, and each is committed on a random pair among those that can take it.
pub fn initialize_random_state(problem: &Problem, rng: &mut Random) -> (r: SolverState)
    ensures
        r.wf(problem),
        saturated(problem, r.placements@),
{
    let mut state = SolverState::new();
    let turn = rng.permutation(problem.orders.len());
    place_in_turn(&mut state, problem, &turn, rng);
    proof {
        assert forall|o: usize| o < problem.orders@.len() implies assigned_in(state.placements@, o)
            || !placeable_somewhere(problem, state.placements@, o) by {
            let full = Seq::new(problem.orders@.len() as nat, |i: int| i as usize);
            assert(full[o as int] == o);
            full.to_multiset_ensures();
            turn@.to_multiset_ensures();
            assert(full.contains(o));
            assert(full.to_multiset().count(o) > 0);
            assert(turn@.to_multiset().count(o) > 0);
            assert(turn@.contains(o));
            let j = choose|j: int| 0 <= j < turn@.len() && turn@[j] == o;
            assert(assigned_in(state.placements@, turn@[j]) || !placeable_somewhere(problem, state.placements@, turn@[j]));
        }
    }
    state.score = state.calculate_score(problem);
    state
}

/// The best-scoring of the drawn members, the earliest draw among equals.
pub fn tournament_winner(population: &Vec<SolverState>, draws: &Vec<usize>) -> (r: usize)
    requires
        draws@.len() >= 1,
        forall|k: int| 0 <= k < draws@.len() ==> #[trigger] draws@[k] < population@.len(),
    ensures
        draws@.contains(r),
        forall|k: int| 0 <= k < draws@.len() ==> population@[r as int].score >= (#[trigger] population@[draws@[k] as int]).score,
{
    let mut best = draws[0];
    let mut k: usize = 1;
    while k < draws.len()
        invariant
            1 <= k <= draws@.len(),
            forall|j: int| 0 <= j < draws@.len() ==> #[trigger] draws@[j] < population@.len(),
            draws@.contains(best),
            forall|j: int| 0 <= j < k ==> population@[best as int].score >= (#[trigger] population@[draws@[j] as int]).score,
        decreases draws@.len() - k,
    {
        let contender = draws[k];
        if population[contender].score > population[best].score {
            best = contender;
            assert(draws@[k as int] == contender);
        }
        k = k + 1;
    }
    best
}

/// Tournament selection: `tournament_size` members drawn at random, with
/// replacement; the best of them wins.
pub fn select_parent<'a>(population: &'a Vec<SolverState>, tournament_size: usize, rng: &mut Random) -> (r: &'a SolverState)
    requires
        population@.len() > 0,
        tournament_size >= 1,
    ensures
        exists|draws: Seq<usize>| {
            &&& draws.len() == tournament_size
            &&& exists|w: int| 0 <= w < draws.len() && *r == population@[draws[w] as int]
            &&& forall|k: int| 0 <= k < draws.len() ==> #[trigger] draws[k] < population@.len()
                && r.score >= population@[draws[k] as int].score
        },
{
    let mut draws: Vec<usize> = Vec::new();
    while draws.len() < tournament_size
        invariant
            draws@.len() <= tournament_size,
            population@.len() > 0,
            forall|k: int| 0 <= k < draws@.len() ==> #[trigger] draws@[k] < population@.len(),
        decreases tournament_size - draws@.len(),
    {
        let d = rng.below_from(0, population.len());
        draws.push(d);
    }
    let w = tournament_winner(population, &draws);
    let ghost wi = choose|i: int| 0 <= i < draws@.len() && draws@[i] == w;
    &population[w]
}

/// Where `ps` places `order`, if anywhere.
pub open spec fn placement_for(ps: Seq<Placement>, order: usize) -> Option<Placement> {
    if assigned_in(ps, order) {
        Some(ps[choose|i: int| 0 <= i < ps.len() && (#[trigger] ps[i]).order == order])
    } else {
        None
    }
}

/// The first `n` orders, in input order, each placed as the parent that its
/// coin picks (`true`: the first) places it, where that still fits.
pub open spec fn inherited(
    problem: &Problem,
    p1: Seq<Placement>,
    p2: Seq<Placement>,
    coins: Seq<bool>,
    n: nat,
) -> Seq<Placement>
    decreases n,
{
    if n == 0 {
        Seq::empty()
    } else {
        let prev = inherited(problem, p1, p2, coins, (n - 1) as nat);
        let o = (n - 1) as usize;
        let from = if coins[n - 1] { p1 } else { p2 };
        match placement_for(from, o) {
            Some(p) => if problem.placeable(prev, o, p.driver, p.vehicle) {
                prev.push(Placement { order: o, driver: p.driver, vehicle: p.vehicle })
            } else {
                prev
            },
            None => prev,
        }
    }
}

/// Where the parent places `order`, if it does.
fn placement_of(parent: &SolverState, problem: &Problem, order: usize) -> (r: Option<Placement>)
    requires
        parent.wf(problem),
    ensures
        r == placement_for(parent.placements@, order),
{
    let ghost ps = parent.placements@;
    let mut i: usize = 0;
    while i < parent.placements.len()
        invariant
            i <= ps.len(),
            ps == parent.placements@,
            parent.wf(problem),
            forall|k: int| 0 <= k < i ==> (#[trigger] ps[k]).order != order,
        decreases ps.len() - i,
    {
        if parent.placements[i].order == order {
            proof {
                assert(ps[i as int].order == order);
                let j = choose|j: int| 0 <= j < ps.len() && (#[trigger] ps[j]).order == order;
                if j != i {
                    if j < i {
                        assert(ps[j].order != ps[i as int].order);
                    } else {
                        assert(ps[i as int].order != ps[j].order);
                    }
                }
            }
            return Some(parent.placements[i]);
        }
        i = i + 1;
    }
    None
}

/// The child as the coins make it from its parents, before any repair.
pub fn inherit(parent1: &SolverState, parent2: &SolverState, problem: &Problem, coins: &Vec<bool>) -> (r: SolverState)
    requires
        parent1.wf(problem),
        parent2.wf(problem),
        coins@.len() == problem.orders@.len(),
    ensures
        r.wf(problem),
        r.placements@ == inherited(problem, parent1.placements@, parent2.placements@, coins@, problem.orders@.len()),
{
    let mut child = SolverState::new();
    let mut o: usize = 0;
    while o < problem.orders.len()
        invariant
            parent1.wf(problem),
            parent2.wf(problem),
            coins@.len() == problem.orders@.len(),
            child.wf(problem),
            o <= problem.orders@.len(),
            child.placements@ == inherited(problem, parent1.placements@, parent2.placements@, coins@, o as nat),
            forall|k: int| 0 <= k < child.placements@.len() ==> (#[trigger] child.placements@[k]).order < o,
        decreases problem.orders@.len() - o,
    {
        let from = if coins[o] { parent1 } else { parent2 };
        match placement_of(from, problem, o) {
            Some(p) => {
                proof {
                    let ps = from.placements@;
                    let k = choose|k: int| 0 <= k < ps.len() && (#[trigger] ps[k]).order == o;
                    assert(problem.placement_valid(ps[k]));
                }
                if child.placeable(problem, o, p.driver, p.vehicle) {
                    let ghost before = child.placements@;
                    child.commit(problem, o, p.driver, p.vehicle);
                    assert(child.placements@[child.placements@.len() - 1].order == o);
                    assert forall|k: int| 0 <= k < child.placements@.len() implies (#[trigger] child.placements@[k]).order < o + 1 by {
                        if k < before.len() {
                            assert(child.placements@[k] == before[k]);
                        }
                    }
                }
            },
            None => {},
        }
        o = o + 1;
    }
    child
}

/// Uniform crossover with repair: a fair coin per order picks the parent whose
/// placement the child takes where it still fits; every order still left out
/// is then offered a random feasible pair.
pub fn crossover(parent1: &SolverState, parent2: &SolverState, problem: &Problem, rng: &mut Random) -> (r: SolverState)
    requires
        parent1.wf(problem),
        parent2.wf(problem),
    ensures
        r.wf(problem),
        saturated(problem, r.placements@),
        exists|coins: Seq<bool>| {
            let h = #[trigger] inherited(problem, parent1.placements@, parent2.placements@, coins, problem.orders@.len());
            &&& coins.len() == problem.orders@.len()
            &&& h.len() <= r.placements@.len()
            &&& r.placements@.subrange(0, h.len() as int) == h
        },
{
    let mut coins: Vec<bool> = Vec::new();
    while coins.len() < problem.orders.len()
        invariant
            coins@.len() <= problem.orders@.len(),
        decreases problem.orders@.len() - coins@.len(),
    {
        let c = rng.chance(1, 2);
        coins.push(c);
    }
    let mut child = inherit(parent1, parent2, problem, &coins);
    let ghost h = child.placements@;
    repair(&mut child, problem, rng);
    child.score = child.calculate_score(problem);
    assert(h == inherited(problem, parent1.placements@, parent2.placements@, coins@, problem.orders@.len()));
    child
}

/// `ps` after removing the positions `picks`, one after the other.
pub open spec fn released_in_turn(ps: Seq<Placement>, picks: Seq<usize>) -> Seq<Placement>
    decreases picks.len(),
{
    if picks.len() == 0 {
        ps
    } else {
        released_in_turn(ps, picks.drop_last()).remove(picks.last() as int)
    }
}

/// Each pick names a position of the list as it stands when its turn comes.
pub open spec fn picks_fit(len: nat, picks: Seq<usize>) -> bool {
    &&& picks.len() <= len
    &&& forall|k: int| 0 <= k < picks.len() ==> #[trigger] picks[k] < len - k
}

/// Releases the placements at the drawn positions, one after the other.
pub fn release_drawn(individual: &mut SolverState, problem: &Problem, picks: &Vec<usize>)
    requires
        old(individual).wf(problem),
        picks_fit(old(individual).placements@.len(), picks@),
    ensures
        final(individual).wf(problem),
        final(individual).placements@ == released_in_turn(old(individual).placements@, picks@),
        final(individual).placements@.len() == old(individual).placements@.len() - picks@.len(),
{
    let ghost start = individual.placements@;
    let mut k: usize = 0;
    while k < picks.len()
        invariant
            individual.wf(problem),
            k <= picks@.len(),
            picks_fit(start.len(), picks@),
            individual.placements@ == released_in_turn(start, picks@.subrange(0, k as int)),
            individual.placements@.len() == start.len() - k,
        decreases picks@.len() - k,
    {
        assert(picks@.subrange(0, k + 1).drop_last() =~= picks@.subrange(0, k as int));
        assert(picks@[k as int] < start.len() - k);
        individual.release_at(problem, picks[k]);
        k = k + 1;
    }
    assert(picks@.subrange(0, picks@.len() as int) =~= picks@);
}

/// Destructive mutation: releases one to three committed placements drawn at
/// random (fewer where fewer are committed), then offers every order left out
/// a random feasible pair.
pub fn mutate(individual: &mut SolverState, problem: &Problem, rng: &mut Random)
    requires
        old(individual).wf(problem),
    ensures
        final(individual).wf(problem),
        saturated(problem, final(individual).placements@),
        exists|picks: Seq<usize>| {
            let kept = #[trigger] released_in_turn(old(individual).placements@, picks);
            &&& picks.len() <= 3
            &&& old(individual).placements@.len() > 0 ==> picks.len() >= 1
            &&& picks_fit(old(individual).placements@.len(), picks)
            &&& kept.len() <= final(individual).placements@.len()
            &&& final(individual).placements@.subrange(0, kept.len() as int) == kept
        },
{
    let count = rng.below_from(1, 4);
    let len = individual.placements.len();
    let mut picks: Vec<usize> = Vec::new();
    while picks.len() < count && picks.len() < len
        invariant
            1 <= count <= 3,
            picks@.len() <= count,
            picks@.len() <= len,
            len == individual.placements@.len(),
            forall|k: int| 0 <= k < picks@.len() ==> #[trigger] picks@[k] < len - k,
        decreases len - picks@.len(),
    {
        let p = rng.below_from(0, len - picks.len());
        picks.push(p);
    }
    release_drawn(individual, problem, &picks);
    let ghost kept = individual.placements@;
    repair(individual, problem, rng);
    individual.score = individual.calculate_score(problem);
    assert(kept == released_in_turn(old(individual).placements@, picks@));
}

} // verus!
