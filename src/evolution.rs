use vstd::prelude::*;
use vstd::multiset::Multiset;
use crate::model::Problem;
use crate::operators::{crossover, initialize_random_state, mutate, saturated, select_parent};
use crate::random::Random;
use crate::state::SolverState;

verus! {

broadcast use vstd::seq_lib::to_multiset_insert;

/// The settings of one search, fixed before it starts.
#[derive(Clone, Copy, Debug)]
pub struct Config {
    pub population_size: usize,
    pub generation_cap: u64,
    /// A child is mutated with probability `mutation_num / mutation_den`.
    pub mutation_num: u32,
    pub mutation_den: u32,
    /// The share `elite_num / elite_den` of the population, rounded up, survives unchanged.
    pub elite_num: u32,
    pub elite_den: u32,
    pub tournament_size: usize,
    /// Wall-clock budget of the whole search, in milliseconds.
    pub time_budget_ms: u64,
    /// Generations in a row without a better best score after which the search stops.
    pub stagnation_cap: u64,
}

impl Config {
    pub open spec fn elite_count_spec(&self) -> int {
        (self.population_size * self.elite_num + self.elite_den - 1) / (self.elite_den as int)
    }

    pub open spec fn wf(&self) -> bool {
        &&& self.population_size >= 1
        &&& self.tournament_size >= 1
        &&& 0 < self.mutation_den
        &&& self.mutation_num <= self.mutation_den
        &&& 0 < self.elite_den
        &&& 1 <= self.elite_count_spec() <= self.population_size
        &&& self.stagnation_cap >= 1
    }

    /// Population 50, at most 1000 generations, mutation rate 1/10, elite
    /// share 1/10, tournaments of 3, 10 seconds, 50 generations of stagnation.
    pub fn standard() -> (r: Config)
        ensures
            r.wf(),
            r.population_size == 50,
            r.generation_cap == 1000,
            r.mutation_num == 1 && r.mutation_den == 10,
            r.elite_num == 1 && r.elite_den == 10,
            r.tournament_size == 3,
            r.time_budget_ms == 10_000,
            r.stagnation_cap == 50,
    {
        let r = Config {
            population_size: 50,
            generation_cap: 1000,
            mutation_num: 1,
            mutation_den: 10,
            elite_num: 1,
            elite_den: 10,
            tournament_size: 3,
            time_budget_ms: 10_000,
            stagnation_cap: 50,
        };
        assert(r.elite_count_spec() == 5);
        r
    }

    /// The number of candidates carried over unchanged: the elite share of the
    /// population, rounded up.
    pub fn elite_count(&self) -> (r: usize)
        requires
            self.wf(),
        ensures
            r == self.elite_count_spec(),
    {
        let size = self.population_size as u128;
        proof {
            assert(size * (self.elite_num as u128) <= 0x1_0000_0000_0000_0000 * 0x1_0000_0000) by (nonlinear_arith)
                requires size <= 0x1_0000_0000_0000_0000, self.elite_num <= 0x1_0000_0000;
        }
        let n = (size * self.elite_num as u128 + self.elite_den as u128 - 1) / self.elite_den as u128;
        n as usize
    }
}

/// Why a search stopped.
#[derive(Clone, Copy, Debug, PartialEq, Eq)]
pub enum StopReason {
    GenerationCap,
    TimeBudget,
    Stagnation,
}

/// What one call of `Evolution::step` did.
#[derive(Clone, Copy, Debug, PartialEq, Eq)]
pub enum Step {
    /// Generation `generation` (counted from 1) was evaluated, its best score
    /// reported, and the next generation bred.
    Progress { generation: u64, best_score: u128 },
    /// Generation `generation` was evaluated and reported, and the search
    /// stopped for want of improvement.
    Stagnated { generation: u64, best_score: u128 },
    /// The search has stopped; nothing was done.
    Stopped(StopReason),
}

pub open spec fn sorted_by_score(s: Seq<SolverState>) -> bool {
    forall|i: int, j: int| 0 <= i < j < s.len() ==> (#[trigger] s[i]).score >= (#[trigger] s[j]).score
}

/// The population ordered by score, highest first; equal scores in no fixed order.
pub fn sort_by_score(population: Vec<SolverState>) -> (r: Vec<SolverState>)
    ensures
        r@.to_multiset() == population@.to_multiset(),
        r@.len() == population@.len(),
        sorted_by_score(r@),
{
    let mut rest = population;
    let mut out: Vec<SolverState> = Vec::new();
    proof {
        out@.to_multiset_ensures();
        assert(out@.to_multiset() =~= Multiset::empty());
        assert(out@.to_multiset().add(rest@.to_multiset()) =~= population@.to_multiset());
    }
    while rest.len() > 0
        invariant
            out@.to_multiset().add(rest@.to_multiset()) == population@.to_multiset(),
            out@.len() + rest@.len() == population@.len(),
            sorted_by_score(out@),
        decreases rest@.len(),
    {
        let ghost before = rest@;
        let c = rest.pop().unwrap();
        proof {
            assert(before =~= rest@.push(c));
            rest@.to_multiset_ensures();
        }
        let mut pos: usize = 0;
        while pos < out.len() && out[pos].score >= c.score
            invariant
                pos <= out@.len(),
                forall|k: int| 0 <= k < pos ==> (#[trigger] out@[k]).score >= c.score,
            decreases out@.len() - pos,
        {
            pos = pos + 1;
        }
        let ghost prev = out@;
        out.insert(pos, c);
        proof {
            assert(out@.to_multiset() == prev.to_multiset().insert(c));
            assert(out@.to_multiset().add(rest@.to_multiset()) =~= prev.to_multiset().add(before.to_multiset()));
            assert forall|i: int, j: int| 0 <= i < j < out@.len() implies (#[trigger] out@[i]).score >= (#[trigger] out@[j]).score by {
                if j < pos {
                    assert(out@[i] == prev[i] && out@[j] == prev[j]);
                } else if j == pos {
                    assert(out@[i] == prev[i]);
                } else if i < pos {
                    assert(out@[i] == prev[i] && out@[j] == prev[j - 1]);
                } else if i == pos {
                    assert(out@[j] == prev[j - 1]);
                    assert(prev[pos as int].score < c.score);
                } else {
                    assert(out@[i] == prev[i - 1] && out@[j] == prev[j - 1]);
                }
            }
        }
    }
    proof {
        rest@.to_multiset_ensures();
        assert(rest@.to_multiset() =~= Multiset::empty());
        assert(out@.to_multiset() =~= out@.to_multiset().add(rest@.to_multiset()));
    }
    out
}

/// A population evolving under one problem and one configuration.
pub struct Evolution {
    pub population: Vec<SolverState>,
    /// Generations bred so far.
    pub generation: u64,
    pub best_ever: u128,
    /// Generations in a row whose best did not beat `best_ever`.
    pub stagnation: u64,
    pub stopped: Option<StopReason>,
}

impl Evolution {
    pub open spec fn wf(&self, problem: &Problem, config: &Config) -> bool {
        &&& config.wf()
        &&& self.population@.len() == config.population_size
        &&& forall|i: int| 0 <= i < self.population@.len() ==> (#[trigger] self.population@[i]).wf(problem)
        &&& forall|i: int| 0 <= i < self.population@.len() ==> saturated(problem, (#[trigger] self.population@[i]).placements@)
        &&& self.stopped is None ==> self.stagnation < config.stagnation_cap
        &&& self.stopped is None ==> self.generation <= config.generation_cap
    }

    /// A population of `population_size` candidates, each built independently
    /// by `initialize_random_state`.
    pub fn new(problem: &Problem, config: &Config, rng: &mut Random) -> (r: Evolution)
        requires
            config.wf(),
        ensures
            r.wf(problem, config),
            r.generation == 0,
            r.stagnation == 0,
            r.stopped is None,
            r.best_ever == r.population@[0].score,
    {
        let mut population: Vec<SolverState> = Vec::new();
        while population.len() < config.population_size
            invariant
                population@.len() <= config.population_size,
                forall|i: int| 0 <= i < population@.len() ==> (#[trigger] population@[i]).wf(problem),
                forall|i: int| 0 <= i < population@.len() ==> saturated(problem, (#[trigger] population@[i]).placements@),
            decreases config.population_size - population@.len(),
        {
            let c = initialize_random_state(problem, rng);
            population.push(c);
        }
        let best_ever = population[0].score;
        Evolution { population, generation: 0, best_ever, stagnation: 0, stopped: None }
    }

    /// One turn of the search. A stopped search stays stopped. Otherwise it
    /// stops once `elapsed_ms` exceeds the time budget or the generation cap is
    /// reached; else the population is ranked by score, the best is reported,
    /// the stagnation count is updated, and the search either stops on
    /// stagnation or breeds the next generation: the elite unchanged, then
    /// children of tournament-selected parents, crossed over and mutated at the
    /// configured rate, up to the same size.
    pub fn step(&mut self, problem: &Problem, config: &Config, elapsed_ms: u64, rng: &mut Random) -> (r: Step)
        requires
            old(self).wf(problem, config),
        ensures
            final(self).wf(problem, config),
            final(self).population@.len() == config.population_size,
            old(self).stopped matches Some(reason) ==> r == Step::Stopped(reason) && final(self).population@ == old(self).population@,
            // a search that stops keeps its candidates
            !(r is Progress) ==> final(self).population@.to_multiset() == old(self).population@.to_multiset(),
            // elitism: the top of the ranked old population is carried over unchanged
            r is Progress ==> exists|ranked: Seq<SolverState>| {
                &&& ranked.to_multiset() == old(self).population@.to_multiset()
                &&& ranked.len() == old(self).population@.len()
                &&& sorted_by_score(ranked)
                &&& forall|k: int| 0 <= k < config.elite_count_spec() ==> {
                    &&& (#[trigger] final(self).population@[k]).placements@ == ranked[k].placements@
                    &&& final(self).population@[k].score == ranked[k].score
                }
            },
            old(self).stopped is None && elapsed_ms > config.time_budget_ms ==> r == Step::Stopped(StopReason::TimeBudget),
            old(self).stopped is None && elapsed_ms <= config.time_budget_ms && old(self).generation >= config.generation_cap
                ==> r == Step::Stopped(StopReason::GenerationCap),
            old(self).stopped is None && elapsed_ms <= config.time_budget_ms && old(self).generation < config.generation_cap
                ==> (r is Progress || r is Stagnated),
            r is Stopped ==> final(self).stopped == Some(r->Stopped_0),
            r is Stagnated ==> final(self).stopped == Some(StopReason::Stagnation),
            r is Progress ==> final(self).stopped is None,
            r is Progress ==> final(self).generation == old(self).generation + 1
                && old(self).generation < config.generation_cap,
            !(r is Progress) ==> final(self).generation == old(self).generation,
            // the reported best is the best of the population that was evaluated
            r matches Step::Progress { generation, best_score } ==> generation == old(self).generation + 1 && {
                &&& forall|j: int| 0 <= j < old(self).population@.len() ==> best_score >= (#[trigger] old(self).population@[j]).score
                &&& exists|j: int| 0 <= j < old(self).population@.len() && best_score == (#[trigger] old(self).population@[j]).score
            },
            r matches Step::Stagnated { generation, best_score } ==> generation == old(self).generation + 1 && {
                &&& forall|j: int| 0 <= j < old(self).population@.len() ==> best_score >= (#[trigger] old(self).population@[j]).score
                &&& exists|j: int| 0 <= j < old(self).population@.len() && best_score == (#[trigger] old(self).population@[j]).score
            },
            // a new best resets the stagnation count, anything else adds one to it
            r matches Step::Progress { best_score, .. } ==> if best_score > old(self).best_ever {
                final(self).best_ever == best_score && final(self).stagnation == 0
            } else {
                final(self).best_ever == old(self).best_ever && final(self).stagnation == old(self).stagnation + 1
            },
            r matches Step::Stagnated { best_score, .. } ==> best_score <= old(self).best_ever
                && old(self).stagnation + 1 == config.stagnation_cap
                && final(self).stagnation == config.stagnation_cap,
            // elitism: the next generation holds a candidate at least as good as any before
            r is Progress ==> forall|j: int| 0 <= j < old(self).population@.len()
                ==> final(self).population@[0].score >= (#[trigger] old(self).population@[j]).score,
    {
        match self.stopped {
            Some(reason) => {
                return Step::Stopped(reason);
            },
            None => {},
        }
        if elapsed_ms > config.time_budget_ms {
            self.stopped = Some(StopReason::TimeBudget);
            return Step::Stopped(StopReason::TimeBudget);
        }
        if self.generation >= config.generation_cap {
            self.stopped = Some(StopReason::GenerationCap);
            return Step::Stopped(StopReason::GenerationCap);
        }
        let ghost old_pop = self.population@;
        proof {
            old_pop.to_multiset_ensures();
        }
        let mut current: Vec<SolverState> = Vec::new();
        std::mem::swap(&mut current, &mut self.population);
        let ranked = sort_by_score(current);
        proof {
            ranked@.to_multiset_ensures();
            old_pop.to_multiset_ensures();
            assert forall|i: int| 0 <= i < ranked@.len() implies (#[trigger] ranked@[i]).wf(problem)
                && saturated(problem, ranked@[i].placements@) by {
                assert(ranked@.to_multiset().count(ranked@[i]) > 0);
                assert(old_pop.contains(ranked@[i]));
            }
            assert forall|j: int| 0 <= j < old_pop.len() implies ranked@[0].score >= (#[trigger] old_pop[j]).score by {
                assert(old_pop.to_multiset().count(old_pop[j]) > 0);
                assert(ranked@.contains(old_pop[j]));
            }
            assert(old_pop.to_multiset().count(ranked@[0]) > 0);
            assert(old_pop.contains(ranked@[0]));
        }
        let best = ranked[0].score;
        let generation = self.generation + 1;
        if best > self.best_ever {
            self.best_ever = best;
            self.stagnation = 0;
        } else {
            self.stagnation = self.stagnation + 1;
        }
        if self.stagnation >= config.stagnation_cap {
            self.population = ranked;
            self.stopped = Some(StopReason::Stagnation);
            return Step::Stagnated { generation, best_score: best };
        }
        let elite = config.elite_count();
        let mut next: Vec<SolverState> = Vec::new();
        let mut k: usize = 0;
        while k < elite
            invariant
                config.wf(),
                elite == config.elite_count_spec(),
                k <= elite,
                ranked@.len() == config.population_size,
                next@.len() == k,
                forall|i: int| 0 <= i < ranked@.len() ==> (#[trigger] ranked@[i]).wf(problem),
                forall|i: int| 0 <= i < next@.len() ==> (#[trigger] next@[i]).wf(problem),
                forall|i: int| 0 <= i < ranked@.len() ==> saturated(problem, (#[trigger] ranked@[i]).placements@),
                forall|i: int| 0 <= i < next@.len() ==> saturated(problem, (#[trigger] next@[i]).placements@),
                forall|i: int| 0 <= i < next@.len() ==> (#[trigger] next@[i]).placements@ == ranked@[i].placements@
                    && next@[i].score == ranked@[i].score,
            decreases elite - k,
        {
            let copy = ranked[k].duplicate();
            assert(ranked@[k as int].wf(problem));
            assert(saturated(problem, ranked@[k as int].placements@));
            next.push(copy);
            k = k + 1;
        }
        while next.len() < config.population_size
            invariant
                config.wf(),
                next@.len() >= 1,
                next@.len() <= config.population_size,
                ranked@.len() == config.population_size,
                forall|i: int| 0 <= i < ranked@.len() ==> (#[trigger] ranked@[i]).wf(problem),
                elite == config.elite_count_spec(),
                elite <= next@.len(),
                forall|i: int| 0 <= i < next@.len() ==> (#[trigger] next@[i]).wf(problem),
                forall|i: int| 0 <= i < ranked@.len() ==> saturated(problem, (#[trigger] ranked@[i]).placements@),
                forall|i: int| 0 <= i < next@.len() ==> saturated(problem, (#[trigger] next@[i]).placements@),
                forall|i: int| 0 <= i < elite ==> (#[trigger] next@[i]).placements@ == ranked@[i].placements@
                    && next@[i].score == ranked@[i].score,
            decreases config.population_size - next@.len(),
        {
            let parent1 = select_parent(&ranked, config.tournament_size, rng);
            let parent2 = select_parent(&ranked, config.tournament_size, rng);
            let mut child = crossover(parent1, parent2, problem, rng);
            if rng.chance(config.mutation_num, config.mutation_den) {
                mutate(&mut child, problem, rng);
            }
            let ghost before = next@;
            next.push(child);
            assert(forall|i: int| 0 <= i < before.len() ==> next@[i] == before[i]);
        }
        assert(next@[0].score == ranked@[0].score);
        self.population = next;
        self.generation = generation;
        Step::Progress { generation, best_score: best }
    }

    /// The best candidate of the current population.
    pub fn best(&self, problem: &Problem, config: &Config) -> (r: &SolverState)
        requires
            self.wf(problem, config),
        ensures
            r.wf(problem),
            exists|i: int| 0 <= i < self.population@.len() && *r == self.population@[i],
            forall|j: int| 0 <= j < self.population@.len() ==> r.score >= (#[trigger] self.population@[j]).score,
    {
        let mut best: usize = 0;
        let mut i: usize = 1;
        while i < self.population.len()
            invariant
                self.wf(problem, config),
                best < self.population@.len(),
                1 <= i <= self.population@.len(),
                forall|j: int| 0 <= j < i ==> self.population@[best as int].score >= (#[trigger] self.population@[j]).score,
            decreases self.population@.len() - i,
        {
            if self.population[i].score > self.population[best].score {
                best = i;
            }
            i = i + 1;
        }
        &self.population[best]
    }
}

} // verus!
