use reservations::{
    facility_type_to_string, overlap, vip_bool_to_string, Booking, BookingSkeleton, BookingStatus,
    FacilityType, Notice, ProgramTime, ReservationSystem,
};

fn sk(start: u32, end: u32, facility: usize) -> BookingSkeleton {
    BookingSkeleton { start, end, facility }
}

fn confirmed(sys: &ReservationSystem, facility: usize) -> usize {
    sys.facilities[facility]
        .bookings
        .iter()
        .filter(|k| sys.bookings[**k].status == BookingStatus::Confirmed)
        .count()
}

fn plain(start: u32, end: u32) -> Booking {
    Booking { start, end, facility: 0, user: 0, status: BookingStatus::Unconfirmed, compound: 0 }
}

#[test]
fn overlap_is_half_open() {
    assert!(overlap(&plain(10, 20), &plain(15, 25)));
    assert!(overlap(&plain(10, 20), &plain(10, 20)));
    assert!(!overlap(&plain(10, 20), &plain(20, 30)));
    assert!(!overlap(&plain(20, 30), &plain(10, 20)));
    assert!(!overlap(&plain(10, 20), &plain(25, 30)));
}

#[test]
fn names_of_types_and_privilege() {
    assert_eq!(facility_type_to_string(FacilityType::Room), "Room");
    assert_eq!(facility_type_to_string(FacilityType::Projector), "Projector");
    assert_eq!(vip_bool_to_string(true), "VIP");
    assert_eq!(vip_bool_to_string(false), "Non-VIP");
}

#[test]
fn clock_ticks_by_one() {
    let mut pt = ProgramTime::start();
    pt.tick();
    pt.tick();
    assert_eq!(pt.get_current_time(), 2);
}

#[test]
fn users_get_ids_and_privilege_in_order() {
    let mut sys = ReservationSystem::new();
    let first = sys.start_users(&vec![7, 9], &vec![true, false]);
    assert_eq!(first, 0);
    assert_eq!(sys.users.len(), 2);
    assert_eq!(sys.users[0].id, 7);
    assert!(sys.users[0].vip);
    assert_eq!(sys.users[1].id, 9);
    assert!(!sys.users[1].vip);
}

#[test]
fn same_interval_twice_one_admitted() {
    let pt = ProgramTime::start();
    let mut sys = ReservationSystem::new();
    let room = sys.add_facility(FacilityType::Room, 1);
    let u = sys.start_users(&vec![1], &vec![false]);
    assert!(sys.book_facility(u, sk(10, 20, room), &pt));
    assert!(!sys.book_facility(u, sk(10, 20, room), &pt));
    assert_eq!(sys.facilities[room].bookings.len(), 1);
    assert_eq!(sys.status(0), BookingStatus::Confirmed);
    assert_eq!(sys.status(1), BookingStatus::Unconfirmed);
}

#[test]
fn disjoint_intervals_both_admitted() {
    let pt = ProgramTime::start();
    let mut sys = ReservationSystem::new();
    let room = sys.add_facility(FacilityType::Room, 1);
    let u = sys.start_users(&vec![1], &vec![false]);
    assert!(sys.book_facility(u, sk(10, 20, room), &pt));
    assert!(sys.book_facility(u, sk(25, 30, room), &pt));
    assert_eq!(confirmed(&sys, room), 2);
    assert!(!overlap(&sys.bookings[0], &sys.bookings[1]));
}

#[test]
fn privileged_booking_preempts_plain_one() {
    let pt = ProgramTime::start();
    let mut sys = ReservationSystem::new();
    let room = sys.add_facility(FacilityType::Room, 1);
    let a = sys.start_users(&vec![1, 2], &vec![false, true]);
    let b = a + 1;
    assert!(sys.book_facility(a, sk(10, 20, room), &pt));
    assert!(sys.book_facility(b, sk(10, 20, room), &pt));
    assert_eq!(sys.status(0), BookingStatus::Cancelled);
    assert_eq!(sys.status(1), BookingStatus::Confirmed);
    assert_eq!(confirmed(&sys, room), 1);
    assert_eq!(sys.notices, vec![Notice { user: a, booking: 0 }]);
}

#[test]
fn privileged_never_preempts_privileged() {
    let pt = ProgramTime::start();
    let mut sys = ReservationSystem::new();
    let room = sys.add_facility(FacilityType::Room, 1);
    let a = sys.start_users(&vec![1, 2], &vec![true, true]);
    assert!(sys.book_facility(a, sk(10, 20, room), &pt));
    assert!(!sys.book_facility(a + 1, sk(15, 25, room), &pt));
    assert_eq!(sys.status(0), BookingStatus::Confirmed);
    assert_eq!(sys.status(1), BookingStatus::Unconfirmed);
    assert!(sys.notices.is_empty());
}

#[test]
fn plain_booking_rejected_at_capacity() {
    let pt = ProgramTime::start();
    let mut sys = ReservationSystem::new();
    let room = sys.add_facility(FacilityType::Room, 1);
    let a = sys.start_users(&vec![1, 2], &vec![true, false]);
    assert!(sys.book_facility(a, sk(10, 20, room), &pt));
    assert!(!sys.book_facility(a + 1, sk(19, 25, room), &pt));
    assert_eq!(sys.status(0), BookingStatus::Confirmed);
}

#[test]
fn zero_capacity_rejects_everyone() {
    let pt = ProgramTime::start();
    let mut sys = ReservationSystem::new();
    let room = sys.add_facility(FacilityType::Room, 0);
    let a = sys.start_users(&vec![1, 2], &vec![true, false]);
    assert!(!sys.book_facility(a, sk(10, 20, room), &pt));
    assert!(!sys.book_facility(a + 1, sk(10, 20, room), &pt));
    assert!(sys.facilities[room].bookings.is_empty());
}

#[test]
fn booking_in_the_past_rejected() {
    let mut pt = ProgramTime::start();
    for _ in 0..11 {
        pt.tick();
    }
    let mut sys = ReservationSystem::new();
    let room = sys.add_facility(FacilityType::Room, 5);
    let u = sys.start_users(&vec![1], &vec![true]);
    assert!(!sys.book_facility(u, sk(10, 20, room), &pt));
    assert!(sys.book_facility(u, sk(11, 20, room), &pt));
    assert_eq!(sys.status(0), BookingStatus::Unconfirmed);
    assert_eq!(sys.status(1), BookingStatus::Confirmed);
}

#[test]
fn earliest_admitted_plain_booking_is_preempted() {
    let pt = ProgramTime::start();
    let mut sys = ReservationSystem::new();
    let room = sys.add_facility(FacilityType::Room, 2);
    let a = sys.start_users(&vec![1, 2, 3], &vec![false, false, true]);
    assert!(sys.book_facility(a + 1, sk(12, 18, room), &pt));
    assert!(sys.book_facility(a, sk(10, 20, room), &pt));
    assert!(sys.book_facility(a + 2, sk(10, 20, room), &pt));
    assert_eq!(sys.status(0), BookingStatus::Cancelled);
    assert_eq!(sys.status(1), BookingStatus::Confirmed);
    assert_eq!(sys.status(2), BookingStatus::Confirmed);
    assert_eq!(sys.notices, vec![Notice { user: a + 1, booking: 0 }]);
}

#[test]
fn preemption_cancels_whole_compound() {
    let pt = ProgramTime::start();
    let mut sys = ReservationSystem::new();
    let room = sys.add_facility(FacilityType::Room, 1);
    let projector = sys.add_facility(FacilityType::Projector, 1);
    let a = sys.start_users(&vec![1, 2], &vec![false, true]);
    assert!(sys.run_user(a, &vec![sk(10, 20, room), sk(10, 20, projector)], &pt));
    assert!(sys.run_user(a + 1, &vec![sk(10, 20, room)], &pt));
    assert_eq!(sys.status(0), BookingStatus::Cancelled);
    assert_eq!(sys.status(1), BookingStatus::Cancelled);
    assert_eq!(sys.status(2), BookingStatus::Confirmed);
    assert_eq!(
        sys.notices,
        vec![Notice { user: a, booking: 0 }, Notice { user: a, booking: 1 }]
    );
    assert_eq!(confirmed(&sys, projector), 0);
    assert_eq!(sys.inbox(a), vec![0, 1]);
    assert!(sys.inbox(a + 1).is_empty());
}

#[test]
fn compound_with_zero_capacity_leg_fails() {
    let pt = ProgramTime::start();
    let mut sys = ReservationSystem::new();
    let room = sys.add_facility(FacilityType::Room, 1);
    let projector = sys.add_facility(FacilityType::Projector, 0);
    let u = sys.start_users(&vec![1], &vec![true]);
    assert!(!sys.run_user(u, &vec![sk(10, 20, room), sk(10, 20, projector)], &pt));
    for k in sys.compounds[0].legs.clone() {
        assert_ne!(sys.status(k), BookingStatus::Confirmed);
    }
    assert_eq!(sys.facilities[room].bookings, vec![0]);
    assert!(sys.facilities[projector].bookings.is_empty());
    // the residue never counts: a later booking fits
    let v = sys.start_users(&vec![2], &vec![false]);
    assert!(sys.book_facility(v, sk(10, 20, room), &pt));
}

#[test]
fn one_leg_compounds_privileged_wins() {
    let pt = ProgramTime::start();
    let mut sys = ReservationSystem::new();
    let room = sys.add_facility(FacilityType::Room, 1);
    let a = sys.start_users(&vec![1, 2], &vec![true, false]);
    // privileged first: the plain one is rejected
    assert!(sys.run_user(a, &vec![sk(10, 20, room)], &pt));
    assert!(!sys.run_user(a + 1, &vec![sk(10, 20, room)], &pt));
    assert_eq!(sys.status(0), BookingStatus::Confirmed);
    assert_eq!(sys.status(1), BookingStatus::Unconfirmed);
    assert_eq!(confirmed(&sys, room), 1);
}

#[test]
fn two_facilities_three_users_three_confirmed_each() {
    let pt = ProgramTime::start();
    let mut sys = ReservationSystem::new();
    let rooms = sys.add_facility(FacilityType::Room, 2);
    let projectors = sys.add_facility(FacilityType::Projector, 2);
    let u = sys.start_users(&vec![1, 2, 3], &vec![false, false, false]);
    for s in [sk(10, 20, rooms), sk(10, 20, rooms), sk(25, 30, rooms)] {
        assert!(sys.book_facility(u, s, &pt));
    }
    for s in [sk(10, 20, projectors), sk(10, 20, projectors), sk(25, 30, projectors)] {
        assert!(sys.book_facility(u + 1, s, &pt));
    }
    assert!(!sys.book_facility(u + 2, sk(10, 20, rooms), &pt));
    assert!(!sys.book_facility(u + 2, sk(10, 20, projectors), &pt));
    assert_eq!(confirmed(&sys, rooms), 3);
    assert_eq!(confirmed(&sys, projectors), 3);
}

#[test]
fn statuses_only_move_forward_and_reads_are_stable() {
    let pt = ProgramTime::start();
    let mut sys = ReservationSystem::new();
    let room = sys.add_facility(FacilityType::Room, 1);
    let a = sys.start_users(&vec![1, 2, 3], &vec![false, true, true]);
    assert!(sys.book_facility(a, sk(10, 20, room), &pt));
    assert_eq!(sys.status(0), BookingStatus::Confirmed);
    assert!(sys.book_facility(a + 1, sk(10, 20, room), &pt));
    assert_eq!(sys.status(0), BookingStatus::Cancelled);
    assert!(!sys.book_facility(a + 2, sk(10, 20, room), &pt));
    assert_eq!(sys.status(0), BookingStatus::Cancelled);
    assert_eq!(sys.status(0), sys.status(0));
    assert_eq!(sys.status(1), BookingStatus::Confirmed);
    assert_eq!(sys.status(1), BookingStatus::Confirmed);
}

#[test]
fn check_facility_appends_without_confirming() {
    let pt = ProgramTime::start();
    let mut sys = ReservationSystem::new();
    let room = sys.add_facility(FacilityType::Room, 2);
    let projector = sys.add_facility(FacilityType::Projector, 0);
    let u = sys.start_users(&vec![1], &vec![false]);
    assert!(!sys.run_user(u, &vec![sk(10, 20, room), sk(10, 20, projector)], &pt));
    assert_eq!(sys.check_facility(1, &pt), (false, None));
    assert!(sys.facilities[projector].bookings.is_empty());
    assert_eq!(sys.check_facility(0, &pt), (true, None));
    assert_eq!(sys.facilities[room].bookings, vec![0, 0]);
    assert_eq!(sys.status(0), BookingStatus::Unconfirmed);
}

#[test]
fn failed_privileged_compound_cancels_nothing() {
    let pt = ProgramTime::start();
    let mut sys = ReservationSystem::new();
    let room = sys.add_facility(FacilityType::Room, 1);
    let projector = sys.add_facility(FacilityType::Projector, 0);
    let a = sys.start_users(&vec![1, 2], &vec![false, true]);
    assert!(sys.book_facility(a, sk(10, 20, room), &pt));
    // the room leg would preempt booking 0, but the projector leg fails
    assert!(!sys.run_user(a + 1, &vec![sk(15, 25, room), sk(15, 25, projector)], &pt));
    assert_eq!(sys.facilities[room].bookings, vec![0, 1]);
    assert_eq!(sys.status(0), BookingStatus::Confirmed);
    assert_eq!(sys.status(1), BookingStatus::Unconfirmed);
    assert!(sys.notices.is_empty());
}

#[test]
fn compound_with_overlapping_legs_refused_at_capacity() {
    let pt = ProgramTime::start();
    let mut sys = ReservationSystem::new();
    let room = sys.add_facility(FacilityType::Room, 1);
    let u = sys.start_users(&vec![1], &vec![false]);
    assert!(!sys.run_user(u, &vec![sk(10, 20, room), sk(10, 20, room)], &pt));
    assert_eq!(sys.facilities[room].bookings.len(), 1);
    assert_eq!(sys.status(0), BookingStatus::Unconfirmed);
    assert_eq!(sys.status(1), BookingStatus::Unconfirmed);
    assert_eq!(confirmed(&sys, room), 0);
}

#[test]
fn privileged_compound_with_overlapping_legs_refused_at_capacity() {
    let pt = ProgramTime::start();
    let mut sys = ReservationSystem::new();
    let room = sys.add_facility(FacilityType::Room, 1);
    let u = sys.start_users(&vec![1], &vec![true]);
    assert!(!sys.run_user(u, &vec![sk(10, 20, room), sk(15, 25, room)], &pt));
    assert_eq!(confirmed(&sys, room), 0);
}

#[test]
fn compound_with_overlapping_legs_fits_larger_capacity() {
    let pt = ProgramTime::start();
    let mut sys = ReservationSystem::new();
    let room = sys.add_facility(FacilityType::Room, 2);
    let u = sys.start_users(&vec![1], &vec![false]);
    assert!(sys.run_user(u, &vec![sk(10, 20, room), sk(10, 20, room)], &pt));
    assert_eq!(confirmed(&sys, room), 2);
    // a third overlapping booking no longer fits
    assert!(!sys.book_facility(u, sk(12, 14, room), &pt));
}

fn load_at(sys: &ReservationSystem, facility: usize, t: u32) -> usize {
    sys.bookings
        .iter()
        .filter(|b| {
            b.facility == facility && b.status == BookingStatus::Confirmed && b.start <= t && t < b.end
        })
        .count()
}

#[test]
fn capacity_kept_at_every_instant_after_preemption() {
    let pt = ProgramTime::start();
    let mut sys = ReservationSystem::new();
    let room = sys.add_facility(FacilityType::Room, 2);
    let a = sys.start_users(&vec![1, 2, 3, 4], &vec![false, false, true, false]);
    assert!(sys.book_facility(a, sk(10, 20, room), &pt));
    assert!(sys.book_facility(a + 1, sk(12, 18, room), &pt));
    assert!(sys.book_facility(a + 2, sk(15, 25, room), &pt));
    assert!(!sys.book_facility(a + 3, sk(16, 17, room), &pt));
    assert_eq!(sys.status(0), BookingStatus::Cancelled);
    for t in 0..30 {
        assert!(load_at(&sys, room, t) <= 2);
    }
    assert_eq!(load_at(&sys, room, 16), 2);
}

#[test]
fn privileged_leg_meeting_more_bookings_than_capacity_preempts_only_one() {
    let pt = ProgramTime::start();
    let mut sys = ReservationSystem::new();
    let room = sys.add_facility(FacilityType::Room, 1);
    let a = sys.start_users(&vec![1, 2], &vec![false, true]);
    assert!(sys.book_facility(a, sk(10, 12, room), &pt));
    assert!(sys.book_facility(a, sk(15, 20, room), &pt));
    assert!(sys.book_facility(a + 1, sk(10, 20, room), &pt));
    assert_eq!(sys.status(0), BookingStatus::Cancelled);
    assert_eq!(sys.status(1), BookingStatus::Confirmed);
    assert_eq!(sys.status(2), BookingStatus::Confirmed);
    assert_eq!(load_at(&sys, room, 16), 2);
}

#[test]
fn failed_compound_changes_no_status() {
    let pt = ProgramTime::start();
    let mut sys = ReservationSystem::new();
    let room = sys.add_facility(FacilityType::Room, 1);
    let projector = sys.add_facility(FacilityType::Projector, 1);
    let a = sys.start_users(&vec![1, 2], &vec![false, true]);
    assert!(sys.book_facility(a, sk(10, 20, room), &pt));
    assert!(sys.book_facility(a, sk(10, 20, projector), &pt));
    // the privileged user could preempt the room, but the projector is taken by a
    // booking it may preempt too; make the second leg fail on time instead
    let mut late = ProgramTime::start();
    for _ in 0..12 {
        late.tick();
    }
    assert!(!sys.run_user(a + 1, &vec![sk(12, 20, room), sk(11, 20, projector)], &late));
    assert_eq!(sys.status(0), BookingStatus::Confirmed);
    assert_eq!(sys.status(1), BookingStatus::Confirmed);
    assert_eq!(sys.status(2), BookingStatus::Unconfirmed);
    assert_eq!(sys.status(3), BookingStatus::Unconfirmed);
    assert!(sys.notices.is_empty());
}
