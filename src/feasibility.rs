use vstd::prelude::*;
use crate::model::{Break, Driver, Interval, Order, Vehicle};

verus! {

/// Two half-open windows share an instant; touching endpoints do not.
pub open spec fn overlaps_spec(a: Interval, b: Interval) -> bool {
    a.start < b.end && b.start < a.end
}

/// Two disjoint windows leave less than `gap` between the earlier end and the later start.
pub open spec fn insufficient_break_spec(a: Interval, b: Interval, gap: i64) -> bool {
    if a.end <= b.start {
        b.start - a.end < gap
    } else if b.end <= a.start {
        a.start - b.end < gap
    } else {
        false
    }
}

/// Two windows cannot both be committed on one resource.
pub open spec fn conflicts(a: Interval, b: Interval, gap: i64) -> bool {
    overlaps_spec(a, b) || insufficient_break_spec(a, b, gap)
}

pub open spec fn in_break(b: Break, t: i64) -> bool {
    b.from <= t && t < b.to
}

/// The driver's breaks, none where the driver has no list.
pub open spec fn breaks_of(driver: Driver) -> Seq<Break> {
    match driver.breaks {
        Some(bs) => bs@,
        None => Seq::empty(),
    }
}

pub open spec fn on_break_spec(driver: Driver, t: i64) -> bool {
    exists|i: int| 0 <= i < breaks_of(driver).len() && in_break(#[trigger] breaks_of(driver)[i], t)
}

/// No committed window conflicts with `w`.
pub open spec fn clear_of(committed: Seq<Interval>, w: Interval, gap: i64) -> bool {
    forall|i: int| 0 <= i < committed.len() ==> !conflicts(#[trigger] committed[i], w, gap)
}

/// The order's window does not end before it starts.
pub open spec fn well_timed(order: Order) -> bool {
    order.start_time <= order.end_time
}

pub open spec fn driver_admits(order: Order, driver: Driver) -> bool {
    well_timed(order) && !on_break_spec(driver, order.start_time)
}

pub open spec fn has_tag(tags: Seq<String>, tag: Seq<char>) -> bool {
    exists|j: int| 0 <= j < tags.len() && (#[trigger] tags[j])@ == tag
}

pub open spec fn tag_list(tags: Option<Vec<String>>) -> Seq<String> {
    match tags {
        Some(ts) => ts@,
        None => Seq::empty(),
    }
}

/// Every tag that the order requires is among the vehicle's tags; an order
/// that lists tags never fits a vehicle that lists none.
pub open spec fn tags_fit(order: Order, vehicle: Vehicle) -> bool {
    order.tags is Some ==> {
        &&& vehicle.tags is Some
        &&& forall|i: int|
            0 <= i < tag_list(order.tags).len() ==> has_tag(
                tag_list(vehicle.tags),
                (#[trigger] tag_list(order.tags)[i])@,
            )
    }
}

pub open spec fn volume_fits(order: Order, vehicle: Vehicle) -> bool {
    match order.volume {
        Some(v) => match vehicle.max_volume {
            Some(m) => v <= m,
            None => false,
        },
        None => true,
    }
}

/// What a vehicle demands of an order, apart from time.
pub open spec fn vehicle_admits(order: Order, vehicle: Vehicle) -> bool {
    &&& well_timed(order)
    &&& order.weight <= vehicle.max_weight
    &&& volume_fits(order, vehicle)
    &&& tags_fit(order, vehicle)
}

pub open spec fn can_place_on_driver_spec(order: Order, driver: Driver, committed: Seq<Interval>, gap: i64) -> bool {
    driver_admits(order, driver) && clear_of(committed, order.window(), gap)
}

pub open spec fn can_place_on_vehicle_spec(order: Order, vehicle: Vehicle, committed: Seq<Interval>, gap: i64) -> bool {
    clear_of(committed, order.window(), gap) && vehicle_admits(order, vehicle)
}

/// Overlap of two windows is symmetric.
pub proof fn lemma_overlaps_symmetric(a: Interval, b: Interval)
    ensures
        overlaps_spec(a, b) == overlaps_spec(b, a),
{
}

/// Between windows that do not end before they start, a conflict is symmetric.
pub proof fn lemma_conflicts_symmetric(a: Interval, b: Interval, gap: i64)
    requires
        a.start <= a.end,
        b.start <= b.end,
    ensures
        conflicts(a, b, gap) == conflicts(b, a, gap),
{
}

pub fn overlaps(a: Interval, b: Interval) -> (r: bool)
    ensures
        r == overlaps_spec(a, b),
{
    a.start < b.end && b.start < a.end
}

pub fn insufficient_break(a: Interval, b: Interval, gap: i64) -> (r: bool)
    ensures
        r == insufficient_break_spec(a, b, gap),
{
    if a.end <= b.start {
        (b.start as i128) - (a.end as i128) < gap as i128
    } else if b.end <= a.start {
        (a.start as i128) - (b.end as i128) < gap as i128
    } else {
        false
    }
}

pub fn on_break(driver: &Driver, t: i64) -> (r: bool)
    ensures
        r == on_break_spec(*driver, t),
{
    match &driver.breaks {
        Some(bs) => {
            let mut i: usize = 0;
            while i < bs.len()
                invariant
                    i <= bs@.len(),
                    bs@ == breaks_of(*driver),
                    forall|k: int| 0 <= k < i ==> !in_break(#[trigger] bs@[k], t),
                decreases bs@.len() - i,
            {
                if bs[i].from <= t && t < bs[i].to {
                    assert(in_break(breaks_of(*driver)[i as int], t));
                    return true;
                }
                i = i + 1;
            }
            false
        },
        None => false,
    }
}

/// Whether `w` keeps clear of every committed window.
pub fn keeps_clear(committed: &Vec<Interval>, w: Interval, gap: i64) -> (r: bool)
    ensures
        r == clear_of(committed@, w, gap),
{
    let mut i: usize = 0;
    while i < committed.len()
        invariant
            i <= committed@.len(),
            forall|k: int| 0 <= k < i ==> !conflicts(#[trigger] committed@[k], w, gap),
        decreases committed@.len() - i,
    {
        let c = committed[i];
        if overlaps(c, w) || insufficient_break(c, w, gap) {
            return false;
        }
        i = i + 1;
    }
    true
}

fn contains_tag(tags: &Vec<String>, tag: &String) -> (r: bool)
    ensures
        r == has_tag(tags@, tag@),
{
    let mut j: usize = 0;
    while j < tags.len()
        invariant
            j <= tags@.len(),
            forall|k: int| 0 <= k < j ==> (#[trigger] tags@[k])@ != tag@,
        decreases tags@.len() - j,
    {
        if tags[j] == *tag {
            return true;
        }
        j = j + 1;
    }
    false
}

pub fn tags_compatible(order: &Order, vehicle: &Vehicle) -> (r: bool)
    ensures
        r == tags_fit(*order, *vehicle),
{
    match &order.tags {
        Some(ot) => match &vehicle.tags {
            Some(vt) => {
                let mut i: usize = 0;
                while i < ot.len()
                    invariant
                        i <= ot@.len(),
                        ot@ == tag_list(order.tags),
                        vt@ == tag_list(vehicle.tags),
                        order.tags is Some,
                        vehicle.tags is Some,
                        forall|k: int| 0 <= k < i ==> has_tag(vt@, (#[trigger] ot@[k])@),
                    decreases ot@.len() - i,
                {
                    if !contains_tag(vt, &ot[i]) {
                        assert(!has_tag(vt@, ot@[i as int]@));
                        return false;
                    }
                    i = i + 1;
                }
                true
            },
            None => false,
        },
        None => true,
    }
}

pub fn can_place_on_driver(order: &Order, driver: &Driver, committed: &Vec<Interval>, gap: i64) -> (r: bool)
    ensures
        r == can_place_on_driver_spec(*order, *driver, committed@, gap),
{
    if order.end_time < order.start_time || on_break(driver, order.start_time) {
        return false;
    }
    keeps_clear(committed, order.interval(), gap)
}

pub fn can_place_on_vehicle(order: &Order, vehicle: &Vehicle, committed: &Vec<Interval>, gap: i64) -> (r: bool)
    ensures
        r == can_place_on_vehicle_spec(*order, *vehicle, committed@, gap),
{
    if order.end_time < order.start_time || !keeps_clear(committed, order.interval(), gap) {
        return false;
    }
    if order.weight > vehicle.max_weight {
        return false;
    }
    match order.volume {
        Some(v) => match vehicle.max_volume {
            Some(m) => {
                if v > m {
                    return false;
                }
            },
            None => {
                return false;
            },
        },
        None => {},
    }
    tags_compatible(order, vehicle)
}

pub fn can_place(
    order: &Order,
    driver: &Driver,
    vehicle: &Vehicle,
    driver_committed: &Vec<Interval>,
    vehicle_committed: &Vec<Interval>,
    gap: i64,
) -> (r: bool)
    ensures
        r == (can_place_on_driver_spec(*order, *driver, driver_committed@, gap)
            && can_place_on_vehicle_spec(*order, *vehicle, vehicle_committed@, gap)),
{
    can_place_on_driver(order, driver, driver_committed, gap)
        && can_place_on_vehicle(order, vehicle, vehicle_committed, gap)
}

} // verus!
