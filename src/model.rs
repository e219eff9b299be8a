//! The plain data of the engine: facilities, users, bookings and the clock reading.
use vstd::prelude::*;

verus! {

/// The kind of a bookable resource.
#[derive(Clone, Copy, Debug, PartialEq, Eq, Structural)]
pub enum FacilityType {
    Room,
    Projector,
}

/// Where a booking stands. `Unconfirmed` and `Cancelled` never count toward capacity.
#[derive(Clone, Copy, Debug, PartialEq, Eq, Structural)]
pub enum BookingStatus {
    Unconfirmed,
    Confirmed,
    Cancelled,
}

/// A reading of the tick counter that a background clock advances.
#[derive(Clone, Copy, Debug, PartialEq, Eq, Structural)]
pub struct ProgramTime {
    pub time: u32,
}

impl ProgramTime {
    /// A clock that has not ticked yet.
    pub fn start() -> (r: ProgramTime)
        ensures
            r.time == 0,
    {
        ProgramTime { time: 0 }
    }

    /// Advances the clock by one tick.
    pub fn tick(&mut self)
        requires
            old(self).time < u32::MAX,
        ensures
            final(self).time == old(self).time + 1,
    {
        self.time = self.time + 1;
    }

    /// The current tick.
    pub fn get_current_time(&self) -> (r: u32)
        ensures
            r == self.time,
    {
        self.time
    }
}

/// A requester: its numeric id and whether it is privileged ("VIP").
#[derive(Clone, Copy, Debug, PartialEq, Eq, Structural)]
pub struct User {
    pub id: u32,
    pub vip: bool,
}

/// One request for the half-open interval `[start, end)` on one facility.
/// `facility`, `user` and `compound` are indices into the engine's tables.
#[derive(Clone, Copy, Debug, PartialEq, Eq, Structural)]
pub struct Booking {
    pub start: u32,
    pub end: u32,
    pub facility: usize,
    pub user: usize,
    pub status: BookingStatus,
    pub compound: usize,
}

/// What a user submits for one leg of a compound: an interval and a facility index.
#[derive(Clone, Copy, Debug, PartialEq, Eq, Structural)]
pub struct BookingSkeleton {
    pub start: u32,
    pub end: u32,
    pub facility: usize,
}

/// Half-open intervals `[s1, e1)` and `[s2, e2)` overlap iff `s1 < e2 && s2 < e1`.
pub open spec fn intervals_overlap(s1: int, e1: int, s2: int, e2: int) -> bool {
    s1 < e2 && s2 < e1
}

/// Whether the intervals of two bookings overlap.
pub open spec fn bookings_overlap(b1: Booking, b2: Booking) -> bool {
    intervals_overlap(b1.start as int, b1.end as int, b2.start as int, b2.end as int)
}

/// Whether a booking's interval covers the instant `t`.
pub open spec fn covers(b: Booking, t: int) -> bool {
    b.start <= t && t < b.end
}

/// Tells whether the intervals of two bookings overlap.
pub fn overlap(b1: &Booking, b2: &Booking) -> (r: bool)
    ensures
        r == bookings_overlap(*b1, *b2),
{
    b1.start < b2.end && b2.start < b1.end
}

/// The name of a facility type.
pub open spec fn facility_type_name(t: FacilityType) -> Seq<char> {
    match t {
        FacilityType::Room => seq!['R', 'o', 'o', 'm'],
        FacilityType::Projector => seq!['P', 'r', 'o', 'j', 'e', 'c', 't', 'o', 'r'],
    }
}

/// The name of a facility type, as a `String`.
pub fn facility_type_to_string(fac_type: FacilityType) -> (r: String)
    ensures
        r@ == facility_type_name(fac_type),
{
    match fac_type {
        FacilityType::Room => {
            proof {
                reveal_strlit("Room");
            }
            String::from_str("Room")
        },
        FacilityType::Projector => {
            proof {
                reveal_strlit("Projector");
            }
            String::from_str("Projector")
        },
    }
}

/// The label of a privilege flag.
pub open spec fn vip_label(vip: bool) -> Seq<char> {
    if vip {
        seq!['V', 'I', 'P']
    } else {
        seq!['N', 'o', 'n', '-', 'V', 'I', 'P']
    }
}

/// The label of a privilege flag, as a `String`.
pub fn vip_bool_to_string(vip: bool) -> (r: String)
    ensures
        r@ == vip_label(vip),
{
    if vip {
        proof {
            reveal_strlit("VIP");
        }
        String::from_str("VIP")
    } else {
        proof {
            reveal_strlit("Non-VIP");
        }
        String::from_str("Non-VIP")
    }
}

} // verus!
