use vstd::prelude::*;
use crate::feasibility::{
    can_place, lemma_conflicts_symmetric, can_place_on_driver_spec, can_place_on_vehicle_spec, clear_of, conflicts,
    driver_admits, insufficient_break_spec, overlaps_spec, tags_fit, vehicle_admits, volume_fits,
};
use crate::model::{
    contribution, lemma_contribution_bounded, max_contribution, order_contribution, Assignment,
    Interval, Problem,
};

verus! {

/// One committed order: indices into the problem's orders, drivers and vehicles.
#[derive(Clone, Copy, Debug)]
pub struct Placement {
    pub order: usize,
    pub driver: usize,
    pub vehicle: usize,
}

/// The driver of a placement, or its vehicle.
pub open spec fn resource_of(p: Placement, by_driver: bool) -> usize {
    if by_driver {
        p.driver
    } else {
        p.vehicle
    }
}

impl Problem {
    pub open spec fn window_of(&self, p: Placement) -> Interval {
        self.orders@[p.order as int].window()
    }

    pub open spec fn contribution_of(&self, p: Placement) -> nat {
        contribution(
            self.orders@[p.order as int],
            self.drivers@[p.driver as int],
            self.vehicles@[p.vehicle as int],
            self.preference_bonus,
        )
    }

    /// The indices name real items, and the driver and vehicle take the order apart from time.
    pub open spec fn placement_valid(&self, p: Placement) -> bool {
        &&& p.order < self.orders@.len()
        &&& p.driver < self.drivers@.len()
        &&& p.vehicle < self.vehicles@.len()
        &&& driver_admits(self.orders@[p.order as int], self.drivers@[p.driver as int])
        &&& vehicle_admits(self.orders@[p.order as int], self.vehicles@[p.vehicle as int])
    }

    pub open spec fn indices_valid(&self, p: Placement) -> bool {
        &&& p.order < self.orders@.len()
        &&& p.driver < self.drivers@.len()
        &&& p.vehicle < self.vehicles@.len()
    }

    /// The score of a list of placements: priority and preference bonus summed.
    pub open spec fn total(&self, ps: Seq<Placement>) -> nat
        decreases ps.len(),
    {
        if ps.len() == 0 {
            0
        } else {
            self.total(ps.drop_last()) + self.contribution_of(ps.last())
        }
    }

    /// The windows committed on one driver (or vehicle), in the order of commitment.
    pub open spec fn windows_on(&self, ps: Seq<Placement>, by_driver: bool, r: usize) -> Seq<Interval>
        decreases ps.len(),
    {
        if ps.len() == 0 {
            Seq::empty()
        } else {
            let rest = self.windows_on(ps.drop_last(), by_driver, r);
            if resource_of(ps.last(), by_driver) == r {
                rest.push(self.window_of(ps.last()))
            } else {
                rest
            }
        }
    }

    /// An order may join `ps` on this driver and vehicle.
    pub open spec fn placeable(&self, ps: Seq<Placement>, order: usize, driver: usize, vehicle: usize) -> bool {
        &&& can_place_on_driver_spec(
            self.orders@[order as int],
            self.drivers@[driver as int],
            self.windows_on(ps, true, driver),
            self.mandatory_break,
        )
        &&& can_place_on_vehicle_spec(
            self.orders@[order as int],
            self.vehicles@[vehicle as int],
            self.windows_on(ps, false, vehicle),
            self.mandatory_break,
        )
    }

    /// Two placements on one resource, the first committed before the second, are compatible.
    pub open spec fn compatible(&self, a: Placement, b: Placement) -> bool {
        &&& a.driver == b.driver ==> !conflicts(self.window_of(a), self.window_of(b), self.mandatory_break)
        &&& a.vehicle == b.vehicle ==> !conflicts(self.window_of(a), self.window_of(b), self.mandatory_break)
    }
}

pub open spec fn assigned_in(ps: Seq<Placement>, order: usize) -> bool {
    exists|i: int| 0 <= i < ps.len() && (#[trigger] ps[i]).order == order
}

/// A candidate solution: the orders committed so far and its cached score.
pub struct SolverState {
    pub placements: Vec<Placement>,
    /// In tenths of a point.
    pub score: u128,
}

impl SolverState {
    /// Every placement is valid, no order is placed twice, no two windows on one
    /// resource conflict, and the cached score is the total of the placements.
    pub open spec fn wf(&self, problem: &Problem) -> bool {
        let ps = self.placements@;
        &&& forall|i: int| 0 <= i < ps.len() ==> problem.placement_valid(#[trigger] ps[i])
        &&& forall|i: int, j: int| 0 <= i < j < ps.len() ==> (#[trigger] ps[i]).order != (#[trigger] ps[j]).order
        &&& forall|i: int, j: int| 0 <= i < j < ps.len() ==> problem.compatible(#[trigger] ps[i], #[trigger] ps[j])
        &&& self.score == problem.total(ps)
    }

    /// A candidate with nothing committed.
    pub fn new() -> (r: SolverState)
        ensures
            r.placements@.len() == 0,
            r.score == 0,
    {
        SolverState { placements: Vec::new(), score: 0 }
    }

    /// A copy by value.
    pub fn duplicate(&self) -> (r: SolverState)
        ensures
            r.placements@ == self.placements@,
            r.score == self.score,
    {
        let mut ps: Vec<Placement> = Vec::new();
        let mut i: usize = 0;
        while i < self.placements.len()
            invariant
                i <= self.placements@.len(),
                ps@ == self.placements@.subrange(0, i as int),
            decreases self.placements@.len() - i,
        {
            ps.push(self.placements[i]);
            i = i + 1;
            assert(ps@ =~= self.placements@.subrange(0, i as int));
        }
        assert(ps@ =~= self.placements@);
        SolverState { placements: ps, score: self.score }
    }

    /// Whether `order` is committed.
    pub fn is_assigned(&self, order: usize) -> (r: bool)
        ensures
            r == assigned_in(self.placements@, order),
    {
        let mut i: usize = 0;
        while i < self.placements.len()
            invariant
                i <= self.placements@.len(),
                forall|k: int| 0 <= k < i ==> (#[trigger] self.placements@[k]).order != order,
            decreases self.placements@.len() - i,
        {
            if self.placements[i].order == order {
                assert(self.placements@[i as int].order == order);
                return true;
            }
            i = i + 1;
        }
        false
    }

    /// The windows committed on a driver (`by_driver`) or on a vehicle.
    pub fn committed_windows(&self, problem: &Problem, by_driver: bool, r: usize) -> (w: Vec<Interval>)
        requires
            forall|i: int| 0 <= i < self.placements@.len() ==> problem.indices_valid(#[trigger] self.placements@[i]),
        ensures
            w@ == problem.windows_on(self.placements@, by_driver, r),
    {
        let mut w: Vec<Interval> = Vec::new();
        let mut i: usize = 0;
        while i < self.placements.len()
            invariant
                i <= self.placements@.len(),
                forall|k: int| 0 <= k < self.placements@.len() ==> problem.indices_valid(#[trigger] self.placements@[k]),
                w@ == problem.windows_on(self.placements@.subrange(0, i as int), by_driver, r),
            decreases self.placements@.len() - i,
        {
            let p = self.placements[i];
            let ghost before = self.placements@.subrange(0, i as int);
            let ghost after = self.placements@.subrange(0, i + 1);
            assert(after.drop_last() =~= before);
            let chosen = if by_driver { p.driver } else { p.vehicle };
            if chosen == r {
                w.push(problem.orders[p.order].interval());
            }
            i = i + 1;
        }
        assert(self.placements@.subrange(0, self.placements@.len() as int) =~= self.placements@);
        w
    }

    /// Whether `order` may be committed on this driver and vehicle.
    pub fn placeable(&self, problem: &Problem, order: usize, driver: usize, vehicle: usize) -> (r: bool)
        requires
            self.wf(problem),
            order < problem.orders@.len(),
            driver < problem.drivers@.len(),
            vehicle < problem.vehicles@.len(),
        ensures
            r == problem.placeable(self.placements@, order, driver, vehicle),
    {
        let dw = self.committed_windows(problem, true, driver);
        let vw = self.committed_windows(problem, false, vehicle);
        can_place(
            &problem.orders[order],
            &problem.drivers[driver],
            &problem.vehicles[vehicle],
            &dw,
            &vw,
            problem.mandatory_break,
        )
    }

    /// Commits `order` on `driver` and `vehicle`; the caller has found it placeable.
    pub fn commit(&mut self, problem: &Problem, order: usize, driver: usize, vehicle: usize)
        requires
            old(self).wf(problem),
            order < problem.orders@.len(),
            driver < problem.drivers@.len(),
            vehicle < problem.vehicles@.len(),
            !assigned_in(old(self).placements@, order),
            problem.placeable(old(self).placements@, order, driver, vehicle),
        ensures
            final(self).placements@ == old(self).placements@.push(
                Placement { order, driver, vehicle },
            ),
            final(self).score == old(self).score + problem.contribution_of(
                Placement { order, driver, vehicle },
            ),
            final(self).wf(problem),
    {
        let p = Placement { order, driver, vehicle };
        let ghost ps = self.placements@;
        let w = problem.orders[order].interval();
        proof {
            lemma_windows_cover(problem, ps, true, driver, w);
            lemma_windows_cover(problem, ps, false, vehicle, w);
            lemma_total_bounded(problem, ps);
            lemma_contribution_bounded(
                problem.orders@[order as int],
                problem.drivers@[driver as int],
                problem.vehicles@[vehicle as int],
                problem.preference_bonus,
            );
        }
        let n = self.placements.len();
        proof {
            assert(ps.len() * max_contribution() <= 0x1_0000_0000_0000_0000 * max_contribution())
                by (nonlinear_arith) requires ps.len() <= 0x1_0000_0000_0000_0000;
        }
        let c = order_contribution(
            &problem.orders[order],
            &problem.drivers[driver],
            &problem.vehicles[vehicle],
            problem.preference_bonus,
        );
        self.placements.push(p);
        self.score = self.score + c as u128;
        proof {
            let nps = self.placements@;
            assert(nps.drop_last() =~= ps);
            assert forall|i: int, j: int| 0 <= i < j < nps.len() implies problem.compatible(#[trigger] nps[i], #[trigger] nps[j]) by {
                if j == nps.len() - 1 {
                    assert(nps[i] == ps[i]);
                    assert(resource_of(ps[i], true) == ps[i].driver);
                    assert(resource_of(ps[i], false) == ps[i].vehicle);
                } else {
                    assert(nps[i] == ps[i] && nps[j] == ps[j]);
                }
            }
            assert forall|i: int, j: int| 0 <= i < j < nps.len() implies (#[trigger] nps[i]).order != (#[trigger] nps[j]).order by {
                if j == nps.len() - 1 {
                    assert(nps[i] == ps[i]);
                } else {
                    assert(nps[i] == ps[i] && nps[j] == ps[j]);
                }
            }
            assert forall|i: int| 0 <= i < nps.len() implies problem.placement_valid(#[trigger] nps[i]) by {
                if i < ps.len() {
                    assert(nps[i] == ps[i]);
                }
            }
        }
    }

    /// Removes the placement at `idx`, and with it that order's windows on its
    /// driver and vehicle; the score is recomputed from scratch.
    pub fn release_at(&mut self, problem: &Problem, idx: usize)
        requires
            old(self).wf(problem),
            idx < old(self).placements@.len(),
        ensures
            final(self).placements@ == old(self).placements@.remove(idx as int),
            final(self).wf(problem),
    {
        let ghost ps = self.placements@;
        self.placements.remove(idx);
        proof {
            let nps = self.placements@;
            assert forall|i: int| 0 <= i < nps.len() implies problem.placement_valid(#[trigger] nps[i]) by {
                if i < idx {
                    assert(nps[i] == ps[i]);
                } else {
                    assert(nps[i] == ps[i + 1]);
                }
            }
            assert forall|i: int, j: int| 0 <= i < j < nps.len() implies (#[trigger] nps[i]).order != (#[trigger] nps[j]).order
                && problem.compatible(nps[i], nps[j]) by {
                let a = if i < idx { i } else { i + 1 };
                let b = if j < idx { j } else { j + 1 };
                assert(nps[i] == ps[a] && nps[j] == ps[b]);
                assert(ps[a].order != ps[b].order);
                assert(problem.compatible(ps[a], ps[b]));
            }
        }
        self.score = self.calculate_score(problem);
    }

    /// The committed orders as identifiers, in the order of commitment.
    pub fn assignments(&self, problem: &Problem) -> (r: Vec<Assignment>)
        requires
            self.wf(problem),
        ensures
            r@.len() == self.placements@.len(),
            forall|i: int|
                0 <= i < r@.len() ==> {
                    let p = #[trigger] self.placements@[i];
                    &&& r@[i].order_id@ == problem.orders@[p.order as int].id@
                    &&& r@[i].driver_id@ == problem.drivers@[p.driver as int].id@
                    &&& r@[i].vehicle_id@ == problem.vehicles@[p.vehicle as int].id@
                },
    {
        let mut r: Vec<Assignment> = Vec::new();
        let mut i: usize = 0;
        while i < self.placements.len()
            invariant
                i <= self.placements@.len(),
                self.wf(problem),
                r@.len() == i,
                forall|k: int|
                    0 <= k < i ==> {
                        let p = #[trigger] self.placements@[k];
                        &&& r@[k].order_id@ == problem.orders@[p.order as int].id@
                        &&& r@[k].driver_id@ == problem.drivers@[p.driver as int].id@
                        &&& r@[k].vehicle_id@ == problem.vehicles@[p.vehicle as int].id@
                    },
            decreases self.placements@.len() - i,
        {
            let p = self.placements[i];
            assert(problem.placement_valid(self.placements@[i as int]));
            r.push(Assignment {
                order_id: problem.orders[p.order].id.clone(),
                driver_id: problem.drivers[p.driver].id.clone(),
                vehicle_id: problem.vehicles[p.vehicle].id.clone(),
            });
            i = i + 1;
        }
        r
    }

    /// The score recomputed from scratch over the committed orders.
    pub fn calculate_score(&self, problem: &Problem) -> (r: u128)
        requires
            forall|i: int| 0 <= i < self.placements@.len() ==> problem.indices_valid(#[trigger] self.placements@[i]),
        ensures
            r == problem.total(self.placements@),
    {
        let mut s: u128 = 0;
        let mut i: usize = 0;
        while i < self.placements.len()
            invariant
                i <= self.placements@.len(),
                forall|k: int| 0 <= k < self.placements@.len() ==> problem.indices_valid(#[trigger] self.placements@[k]),
                s == problem.total(self.placements@.subrange(0, i as int)),
            decreases self.placements@.len() - i,
        {
            let p = self.placements[i];
            let ghost before = self.placements@.subrange(0, i as int);
            let ghost after = self.placements@.subrange(0, i + 1);
            assert(after.drop_last() =~= before);
            proof {
                lemma_total_bounded(problem, before);
                lemma_contribution_bounded(
                    problem.orders@[p.order as int],
                    problem.drivers@[p.driver as int],
                    problem.vehicles@[p.vehicle as int],
                    problem.preference_bonus,
                );
                assert(before.len() * max_contribution() <= 0x1_0000_0000_0000_0000 * max_contribution())
                    by (nonlinear_arith) requires before.len() <= 0x1_0000_0000_0000_0000;
            }
            let c = order_contribution(
                &problem.orders[p.order],
                &problem.drivers[p.driver],
                &problem.vehicles[p.vehicle],
                problem.preference_bonus,
            );
            s = s + c as u128;
            i = i + 1;
        }
        assert(self.placements@.subrange(0, self.placements@.len() as int) =~= self.placements@);
        s
    }
}

/// A window that keeps clear of a resource's committed windows keeps clear of
/// every placement on that resource.
pub proof fn lemma_windows_cover(problem: &Problem, ps: Seq<Placement>, by_driver: bool, r: usize, w: Interval)
    requires
        clear_of(problem.windows_on(ps, by_driver, r), w, problem.mandatory_break),
    ensures
        forall|k: int|
            0 <= k < ps.len() && resource_of(#[trigger] ps[k], by_driver) == r ==> !conflicts(
                problem.window_of(ps[k]),
                w,
                problem.mandatory_break,
            ),
    decreases ps.len(),
{
    if ps.len() > 0 {
        let rest = problem.windows_on(ps.drop_last(), by_driver, r);
        let all = problem.windows_on(ps, by_driver, r);
        if resource_of(ps.last(), by_driver) == r {
            assert forall|i: int| 0 <= i < rest.len() implies !conflicts(#[trigger] rest[i], w, problem.mandatory_break) by {
                assert(all[i] == rest[i]);
            }
            assert(all[all.len() - 1] == problem.window_of(ps.last()));
        }
        lemma_windows_cover(problem, ps.drop_last(), by_driver, r, w);
        assert forall|k: int| 0 <= k < ps.len() && resource_of(#[trigger] ps[k], by_driver) == r implies !conflicts(
            problem.window_of(ps[k]),
            w,
            problem.mandatory_break,
        ) by {
            if k < ps.len() - 1 {
                assert(ps.drop_last()[k] == ps[k]);
            }
        }
    }
}

/// On a well-formed candidate, two committed orders that share a driver or a
/// vehicle never overlap in time, and the later of the two starts at least the
/// mandatory break after the earlier one ends.
pub proof fn lemma_committed_windows_disjoint(state: &SolverState, problem: &Problem, i: int, j: int)
    requires
        state.wf(problem),
        0 <= i < state.placements@.len(),
        0 <= j < state.placements@.len(),
        i != j,
        state.placements@[i].driver == state.placements@[j].driver
            || state.placements@[i].vehicle == state.placements@[j].vehicle,
    ensures
        !overlaps_spec(problem.window_of(state.placements@[i]), problem.window_of(state.placements@[j])),
        !insufficient_break_spec(
            problem.window_of(state.placements@[i]),
            problem.window_of(state.placements@[j]),
            problem.mandatory_break,
        ),
{
    let ps = state.placements@;
    assert(problem.placement_valid(ps[i]) && problem.placement_valid(ps[j]));
    lemma_conflicts_symmetric(problem.window_of(ps[i]), problem.window_of(ps[j]), problem.mandatory_break);
    if i < j {
        assert(problem.compatible(ps[i], ps[j]));
    } else {
        assert(problem.compatible(ps[j], ps[i]));
    }
}

/// The cached score of a well-formed candidate is the priority plus preference
/// bonus summed over its assignments, as a recomputation from scratch finds it.
pub proof fn lemma_score_matches_recomputation(state: &SolverState, problem: &Problem)
    requires
        state.wf(problem),
    ensures
        state.score == problem.total(state.placements@),
{
}

/// No committed order exceeds its vehicle's weight or volume limit, or needs a
/// tag that its vehicle lacks.
pub proof fn lemma_vehicles_fit_orders(state: &SolverState, problem: &Problem, i: int)
    requires
        state.wf(problem),
        0 <= i < state.placements@.len(),
    ensures
        ({
            let p = state.placements@[i];
            let order = problem.orders@[p.order as int];
            let vehicle = problem.vehicles@[p.vehicle as int];
            &&& order.weight <= vehicle.max_weight
            &&& volume_fits(order, vehicle)
            &&& tags_fit(order, vehicle)
        }),
{
    assert(problem.placement_valid(state.placements@[i]));
}

/// A total never exceeds the largest contribution times the number of placements.
pub proof fn lemma_total_bounded(problem: &Problem, ps: Seq<Placement>)
    ensures
        problem.total(ps) <= ps.len() * max_contribution(),
    decreases ps.len(),
{
    if ps.len() > 0 {
        lemma_total_bounded(problem, ps.drop_last());
        let p = ps.last();
        lemma_contribution_bounded(
            problem.orders@[p.order as int],
            problem.drivers@[p.driver as int],
            problem.vehicles@[p.vehicle as int],
            problem.preference_bonus,
        );
        assert((ps.len() - 1) * max_contribution() + max_contribution() == ps.len() * max_contribution())
            by (nonlinear_arith);
    }
}

} // verus!
