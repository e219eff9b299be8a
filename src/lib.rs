//! Admission control for capacity-bounded, interval-based reservations, with
//! priority preemption and all-or-nothing compound bookings.

pub mod admission;
pub mod capacity;
pub mod commit;
pub mod engine;
pub mod laws;
pub mod model;

pub use engine::{Compound, Facility, Notice, ReservationSystem};
pub use model::{
    facility_type_to_string, overlap, vip_bool_to_string, Booking, BookingSkeleton, BookingStatus,
    FacilityType, ProgramTime, User,
};
