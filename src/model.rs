use vstd::prelude::*;

verus! {

/// A half-open time window `[start, end)`, in milliseconds since an epoch.
#[derive(Clone, Copy, Debug)]
pub struct Interval {
    pub start: i64,
    pub end: i64,
}

/// A break of a driver, the half-open window `[from, to)`.
#[derive(Clone, Copy, Debug)]
pub struct Break {
    pub from: i64,
    pub to: i64,
}

#[derive(Clone, Debug)]
pub struct Driver {
    pub id: String,
    pub breaks: Option<Vec<Break>>,
    /// Identifier of the vehicle this driver prefers.
    pub preference: Option<String>,
}

#[derive(Clone, Debug)]
pub struct Vehicle {
    pub id: String,
    pub tags: Option<Vec<String>>,
    pub max_weight: u64,
    pub max_volume: Option<u64>,
}

#[derive(Clone, Debug)]
pub struct Order {
    pub id: String,
    pub start_time: i64,
    pub end_time: i64,
    /// Priority of the order; an order without one counts 1.
    pub priority: Option<u32>,
    pub tags: Option<Vec<String>>,
    pub weight: u64,
    pub volume: Option<u64>,
}

/// The unit of output: which driver and vehicle carry which order.
#[derive(Clone, Debug)]
pub struct Assignment {
    pub order_id: String,
    pub driver_id: String,
    pub vehicle_id: String,
}

#[derive(Clone, Debug)]
pub struct SchedulingResponse {
    pub assignments: Vec<Assignment>,
}

/// What one search works on: the fleet, the orders and the rules that are fixed for it.
#[derive(Clone, Debug)]
pub struct Problem {
    pub drivers: Vec<Driver>,
    pub vehicles: Vec<Vehicle>,
    pub orders: Vec<Order>,
    /// The least idle time between two windows on one driver or vehicle, in milliseconds.
    pub mandatory_break: i64,
    /// What an assignment to the driver's preferred vehicle adds, in tenths of a point.
    pub preference_bonus: u32,
}

/// Scores are counted in tenths of a point: one unit of priority is worth this many.
pub const SCORE_SCALE: u64 = 10;

impl Order {
    pub open spec fn window(&self) -> Interval {
        Interval { start: self.start_time, end: self.end_time }
    }

    pub open spec fn priority_spec(&self) -> nat {
        match self.priority {
            Some(p) => p as nat,
            None => 1,
        }
    }

    /// The priority of the order, 1 where it has none.
    pub fn effective_priority(&self) -> (r: u32)
        ensures
            r as nat == self.priority_spec(),
    {
        match self.priority {
            Some(p) => p,
            None => 1,
        }
    }

    pub fn interval(&self) -> (r: Interval)
        ensures
            r == self.window(),
    {
        Interval { start: self.start_time, end: self.end_time }
    }
}

impl Driver {
    /// Whether the driver names `vehicle_id` as preferred vehicle.
    pub open spec fn prefers(&self, vehicle_id: Seq<char>) -> bool {
        match self.preference {
            Some(p) => p@ == vehicle_id,
            None => false,
        }
    }

    pub fn prefers_vehicle(&self, vehicle: &Vehicle) -> (r: bool)
        ensures
            r == self.prefers(vehicle.id@),
    {
        match &self.preference {
            Some(p) => *p == vehicle.id,
            None => false,
        }
    }
}

/// What one assignment adds to a score, in tenths of a point.
pub open spec fn contribution(order: Order, driver: Driver, vehicle: Vehicle, bonus: u32) -> nat {
    order.priority_spec() * (SCORE_SCALE as nat) + if driver.prefers(vehicle.id@) {
        bonus as nat
    } else {
        0
    }
}

/// An upper bound of every contribution.
pub open spec fn max_contribution() -> nat {
    0x1_0000_0000 * 11
}

pub proof fn lemma_contribution_bounded(order: Order, driver: Driver, vehicle: Vehicle, bonus: u32)
    ensures
        contribution(order, driver, vehicle, bonus) <= max_contribution(),
{
    assert(order.priority_spec() < 0x1_0000_0000);
    assert(order.priority_spec() * 10 <= 0x1_0000_0000 * 10) by (nonlinear_arith)
        requires order.priority_spec() < 0x1_0000_0000;
}

/// The contribution of an order placed on a driver and a vehicle.
pub fn order_contribution(order: &Order, driver: &Driver, vehicle: &Vehicle, bonus: u32) -> (r: u64)
    ensures
        r as nat == contribution(*order, *driver, *vehicle, bonus),
{
    proof { lemma_contribution_bounded(*order, *driver, *vehicle, bonus); }
    let p = order.effective_priority() as u64;
    let base: u64 = p * SCORE_SCALE;
    if driver.prefers_vehicle(vehicle) {
        base + bonus as u64
    } else {
        base
    }
}

} // verus!
