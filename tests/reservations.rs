use reservations::{
    facility_type_to_string, overlap, vip_bool_to_string, BookingSkeleton, BookingStatus,
    FacilityType, ProgramTime, ReservationSystem,
};

fn skeleton(start: u32, end: u32, facility: usize) -> BookingSkeleton {
    BookingSkeleton { start, end, facility }
}

// Submits each booking on its own, in order.
fn book_each(sys: &mut ReservationSystem, user: usize, bookings: &[BookingSkeleton], pt: &ProgramTime) {
    for b in bookings {
        sys.book_facility(user, *b, pt);
    }
}

fn count_status(sys: &ReservationSystem, facility: usize, status: BookingStatus) -> usize {
    sys.facilities[facility]
        .bookings
        .iter()
        .filter(|k| sys.bookings[**k].status == status)
        .count()
}

fn listed(sys: &ReservationSystem, facility: usize, i: usize) -> reservations::Booking {
    sys.bookings[sys.facilities[facility].bookings[i]]
}

fn user_id(sys: &ReservationSystem, facility: usize, i: usize) -> u32 {
    sys.users[listed(sys, facility, i).user].id
}

fn user_vip(sys: &ReservationSystem, facility: usize, i: usize) -> bool {
    sys.users[listed(sys, facility, i).user].vip
}

// ---------------------------------------------------------------- single bookings

#[test]
fn reservation1_test_test_get_current_time() {
    let program_time = ProgramTime { time: 0 };
    assert_eq!(program_time.get_current_time(), 0);
}

#[test]
fn reservation1_test_test_start_program_time() {
    let program_time = ProgramTime::start();
    assert_eq!(program_time.get_current_time(), 0);
}

#[test]
fn reservation1_test_test_1user_2bookings_1possible_overlap() {
    let pt = ProgramTime::start();
    let mut sys = ReservationSystem::new();
    let rooms = sys.add_facility(FacilityType::Room, 1);
    let u = sys.start_users(&vec![1], &vec![false]);
    book_each(&mut sys, u, &[skeleton(10, 20, rooms), skeleton(10, 20, rooms)], &pt);
    assert_eq!(sys.facilities[rooms].bookings.len(), 1);
}

#[test]
fn reservation1_test_test_1user_2bookings_2possible_no_overlap() {
    let pt = ProgramTime::start();
    let mut sys = ReservationSystem::new();
    let rooms = sys.add_facility(FacilityType::Room, 1);
    let u = sys.start_users(&vec![1], &vec![false]);
    book_each(&mut sys, u, &[skeleton(10, 20, rooms), skeleton(25, 30, rooms)], &pt);
    assert_eq!(sys.facilities[rooms].bookings.len(), 2);
    assert!(!overlap(&listed(&sys, rooms, 0), &listed(&sys, rooms, 1)));
}

#[test]
fn reservation1_test_test_1user_2bookings_2possible_different_facilities() {
    let pt = ProgramTime::start();
    let mut sys = ReservationSystem::new();
    let rooms = sys.add_facility(FacilityType::Room, 1);
    let projectors = sys.add_facility(FacilityType::Projector, 1);
    let u = sys.start_users(&vec![1], &vec![false]);
    book_each(&mut sys, u, &[skeleton(10, 20, rooms), skeleton(25, 30, projectors)], &pt);
    assert_eq!(sys.facilities[rooms].bookings.len(), 1);
    assert_eq!(sys.facilities[projectors].bookings.len(), 1);
    assert!(!overlap(&listed(&sys, rooms, 0), &listed(&sys, projectors, 0)));
}

#[test]
fn reservation1_test_test_2users_2bookings_2possible_no_overlap() {
    let pt = ProgramTime::start();
    let mut sys = ReservationSystem::new();
    let rooms = sys.add_facility(FacilityType::Room, 1);
    let u = sys.start_users(&vec![1, 2], &vec![false, false]);
    book_each(&mut sys, u, &[skeleton(10, 20, rooms)], &pt);
    book_each(&mut sys, u + 1, &[skeleton(25, 30, rooms)], &pt);
    assert_eq!(sys.facilities[rooms].bookings.len(), 2);
    assert!(!overlap(&listed(&sys, rooms, 0), &listed(&sys, rooms, 1)));
    let user_id_0 = user_id(&sys, rooms, 0);
    let user_id_1 = user_id(&sys, rooms, 1);
    assert!((user_id_0 == 1 && user_id_1 == 2) || (user_id_0 == 2 && user_id_1 == 1));
}

#[test]
fn reservation1_test_test_2users_2bookings_2possible_different_facilities() {
    let pt = ProgramTime::start();
    let mut sys = ReservationSystem::new();
    let rooms = sys.add_facility(FacilityType::Room, 1);
    let projectors = sys.add_facility(FacilityType::Projector, 1);
    let u = sys.start_users(&vec![1, 2], &vec![false, false]);
    book_each(&mut sys, u, &[skeleton(10, 20, rooms)], &pt);
    book_each(&mut sys, u + 1, &[skeleton(10, 20, projectors)], &pt);
    assert_eq!(sys.facilities[rooms].bookings.len(), 1);
    assert_eq!(sys.facilities[projectors].bookings.len(), 1);
    assert!(overlap(&listed(&sys, rooms, 0), &listed(&sys, projectors, 0)));
}

#[test]
fn test_2users_2bookings_1possible_overlap() {
    let pt = ProgramTime::start();
    let mut sys = ReservationSystem::new();
    let rooms = sys.add_facility(FacilityType::Room, 1);
    let u = sys.start_users(&vec![1, 2], &vec![false, false]);
    book_each(&mut sys, u, &[skeleton(10, 20, rooms)], &pt);
    book_each(&mut sys, u + 1, &[skeleton(10, 20, rooms)], &pt);
    assert_eq!(sys.facilities[rooms].bookings.len(), 1);
    let user_id_0 = user_id(&sys, rooms, 0);
    assert!(user_id_0 == 1 || user_id_0 == 2);
}

#[test]
fn reservation1_test_test_3users_8bookings_6possible() {
    let pt = ProgramTime::start();
    let mut sys = ReservationSystem::new();
    let rooms = sys.add_facility(FacilityType::Room, 2);
    let projectors = sys.add_facility(FacilityType::Projector, 2);
    let u = sys.start_users(&vec![1, 2, 3], &vec![false, false, false]);
    book_each(
        &mut sys,
        u,
        &[skeleton(10, 20, rooms), skeleton(10, 20, rooms), skeleton(25, 30, rooms)],
        &pt,
    );
    book_each(
        &mut sys,
        u + 1,
        &[skeleton(10, 20, projectors), skeleton(10, 20, projectors), skeleton(25, 30, projectors)],
        &pt,
    );
    book_each(&mut sys, u + 2, &[skeleton(10, 20, rooms), skeleton(10, 20, projectors)], &pt);
    assert_eq!(sys.facilities[rooms].bookings.len(), 3);
    assert_eq!(sys.facilities[projectors].bookings.len(), 3);
}

// ---------------------------------------------------------------- privileged single bookings

#[test]
fn reservation2_test_test_get_current_time() {
    let program_time = ProgramTime { time: 0 };
    assert_eq!(program_time.get_current_time(), 0);
}

#[test]
fn reservation2_test_test_start_program_time() {
    let program_time = ProgramTime::start();
    assert_eq!(program_time.get_current_time(), 0);
}

#[test]
fn reservation2_test_test_1user_2bookings_1possible_overlap() {
    let pt = ProgramTime::start();
    let mut sys = ReservationSystem::new();
    let rooms = sys.add_facility(FacilityType::Room, 1);
    let u = sys.start_users(&vec![1], &vec![true]);
    book_each(&mut sys, u, &[skeleton(10, 20, rooms), skeleton(10, 20, rooms)], &pt);
    assert_eq!(sys.facilities[rooms].bookings.len(), 1);
}

#[test]
fn reservation2_test_test_1user_2bookings_2possible_no_overlap() {
    let pt = ProgramTime::start();
    let mut sys = ReservationSystem::new();
    let rooms = sys.add_facility(FacilityType::Room, 1);
    let u = sys.start_users(&vec![1], &vec![true]);
    book_each(&mut sys, u, &[skeleton(10, 20, rooms), skeleton(25, 30, rooms)], &pt);
    assert_eq!(sys.facilities[rooms].bookings.len(), 2);
    assert!(!overlap(&listed(&sys, rooms, 0), &listed(&sys, rooms, 1)));
}

#[test]
fn reservation2_test_test_1user_2bookings_2possible_different_facilities() {
    let pt = ProgramTime::start();
    let mut sys = ReservationSystem::new();
    let rooms = sys.add_facility(FacilityType::Room, 1);
    let projectors = sys.add_facility(FacilityType::Projector, 1);
    let u = sys.start_users(&vec![1], &vec![true]);
    book_each(&mut sys, u, &[skeleton(10, 20, rooms), skeleton(25, 30, projectors)], &pt);
    assert_eq!(sys.facilities[rooms].bookings.len(), 1);
    assert_eq!(sys.facilities[projectors].bookings.len(), 1);
    assert!(!overlap(&listed(&sys, rooms, 0), &listed(&sys, projectors, 0)));
}

#[test]
fn reservation2_test_test_2users_2bookings_2possible_no_overlap() {
    let pt = ProgramTime::start();
    let mut sys = ReservationSystem::new();
    let rooms = sys.add_facility(FacilityType::Room, 1);
    let u = sys.start_users(&vec![1, 2], &vec![false, true]);
    book_each(&mut sys, u, &[skeleton(10, 20, rooms)], &pt);
    book_each(&mut sys, u + 1, &[skeleton(25, 30, rooms)], &pt);
    assert_eq!(sys.facilities[rooms].bookings.len(), 2);
    assert!(!overlap(&listed(&sys, rooms, 0), &listed(&sys, rooms, 1)));
    let user_id_0 = user_id(&sys, rooms, 0);
    let user_id_1 = user_id(&sys, rooms, 1);
    assert!((user_id_0 == 1 && user_id_1 == 2) || (user_id_0 == 2 && user_id_1 == 1));
}

#[test]
fn reservation2_test_test_2users_2bookings_2possible_different_facilities() {
    let pt = ProgramTime::start();
    let mut sys = ReservationSystem::new();
    let rooms = sys.add_facility(FacilityType::Room, 1);
    let projectors = sys.add_facility(FacilityType::Projector, 1);
    let u = sys.start_users(&vec![1, 2], &vec![true, false]);
    book_each(&mut sys, u, &[skeleton(10, 20, rooms)], &pt);
    book_each(&mut sys, u + 1, &[skeleton(10, 20, projectors)], &pt);
    assert_eq!(sys.facilities[rooms].bookings.len(), 1);
    assert_eq!(sys.facilities[projectors].bookings.len(), 1);
    assert!(overlap(&listed(&sys, rooms, 0), &listed(&sys, projectors, 0)));
    assert_eq!(user_id(&sys, rooms, 0), 1);
    assert_eq!(user_id(&sys, projectors, 0), 2);
}

#[test]
fn test_2users_2bookings_1vip_overlap() {
    let pt = ProgramTime::start();
    let mut sys = ReservationSystem::new();
    let rooms = sys.add_facility(FacilityType::Room, 1);
    let u = sys.start_users(&vec![1, 2], &vec![false, true]);
    book_each(&mut sys, u, &[skeleton(10, 20, rooms)], &pt);
    book_each(&mut sys, u + 1, &[skeleton(10, 20, rooms)], &pt);
    let len = sys.facilities[rooms].bookings.len();
    if len == 1 {
        assert!(user_vip(&sys, rooms, 0));
    } else {
        assert!(user_vip(&sys, rooms, 1));
        assert!(listed(&sys, rooms, 0).status == BookingStatus::Cancelled);
    }
}

#[test]
fn reservation2_test_test_3users_8bookings_6possible() {
    let pt = ProgramTime::start();
    let mut sys = ReservationSystem::new();
    let rooms = sys.add_facility(FacilityType::Room, 2);
    let projectors = sys.add_facility(FacilityType::Projector, 2);
    let u = sys.start_users(&vec![1, 2, 3], &vec![false, false, true]);
    book_each(
        &mut sys,
        u,
        &[skeleton(10, 20, rooms), skeleton(10, 20, rooms), skeleton(25, 30, rooms)],
        &pt,
    );
    book_each(
        &mut sys,
        u + 1,
        &[skeleton(10, 20, projectors), skeleton(10, 20, projectors), skeleton(25, 30, projectors)],
        &pt,
    );
    book_each(&mut sys, u + 2, &[skeleton(10, 20, rooms), skeleton(10, 20, projectors)], &pt);
    assert_eq!(count_status(&sys, rooms, BookingStatus::Confirmed), 3);
    assert_eq!(count_status(&sys, projectors, BookingStatus::Confirmed), 3);
}

// ---------------------------------------------------------------- compounds

#[test]
fn reservation3_test_test_get_current_time() {
    let program_time = ProgramTime { time: 0 };
    assert_eq!(program_time.get_current_time(), 0);
}

#[test]
fn reservation3_test_test_start_program_time() {
    let program_time = ProgramTime::start();
    assert_eq!(program_time.get_current_time(), 0);
}

#[test]
fn test_1user_1compound_0possible() {
    let pt = ProgramTime::start();
    let mut sys = ReservationSystem::new();
    let rooms = sys.add_facility(FacilityType::Room, 1);
    let projectors = sys.add_facility(FacilityType::Projector, 0);
    let u = sys.start_users(&vec![1], &vec![true]);
    sys.run_user(u, &vec![skeleton(10, 20, rooms), skeleton(10, 20, projectors)], &pt);
    let booking0_status = listed(&sys, rooms, 0).status;
    assert!(booking0_status == BookingStatus::Cancelled || booking0_status == BookingStatus::Unconfirmed);
}

#[test]
fn test_1user_1compound_1possible() {
    let pt = ProgramTime::start();
    let mut sys = ReservationSystem::new();
    let rooms = sys.add_facility(FacilityType::Room, 1);
    let projectors = sys.add_facility(FacilityType::Projector, 1);
    let u = sys.start_users(&vec![1], &vec![true]);
    sys.run_user(u, &vec![skeleton(10, 20, rooms), skeleton(25, 30, projectors)], &pt);
    assert_eq!(count_status(&sys, rooms, BookingStatus::Confirmed), 1);
    assert_eq!(count_status(&sys, projectors, BookingStatus::Confirmed), 1);
}

#[test]
fn test_2users_2compounds_2possible_no_overlap() {
    let pt = ProgramTime::start();
    let mut sys = ReservationSystem::new();
    let rooms = sys.add_facility(FacilityType::Room, 1);
    let u = sys.start_users(&vec![1, 2], &vec![false, true]);
    sys.run_user(u, &vec![skeleton(10, 20, rooms)], &pt);
    sys.run_user(u + 1, &vec![skeleton(25, 30, rooms)], &pt);
    assert_eq!(count_status(&sys, rooms, BookingStatus::Confirmed), 2);
    assert_eq!(sys.facilities[rooms].bookings.len(), 2);
    assert!(!overlap(&listed(&sys, rooms, 0), &listed(&sys, rooms, 1)));
    let user_id_0 = user_id(&sys, rooms, 0);
    let user_id_1 = user_id(&sys, rooms, 1);
    assert!((user_id_0 == 1 && user_id_1 == 2) || (user_id_0 == 2 && user_id_1 == 1));
}

#[test]
fn test_2users_2compounds_1vip_1possible() {
    let pt = ProgramTime::start();
    let mut sys = ReservationSystem::new();
    let rooms = sys.add_facility(FacilityType::Room, 1);
    let u = sys.start_users(&vec![1, 2], &vec![false, true]);
    sys.run_user(u, &vec![skeleton(10, 20, rooms)], &pt);
    sys.run_user(u + 1, &vec![skeleton(10, 20, rooms)], &pt);
    let len = sys.facilities[rooms].bookings.len();
    if len == 1 {
        assert!(user_vip(&sys, rooms, 0));
        assert!(listed(&sys, rooms, 0).status == BookingStatus::Confirmed);
    } else {
        assert!(user_vip(&sys, rooms, 1));
        assert!(listed(&sys, rooms, 0).status == BookingStatus::Cancelled);
    }
}

#[test]
fn test_3users_8bookings_2compund_1vip_2possible() {
    let pt = ProgramTime::start();
    let mut sys = ReservationSystem::new();
    let rooms = sys.add_facility(FacilityType::Room, 2);
    let projectors = sys.add_facility(FacilityType::Projector, 2);
    let u = sys.start_users(&vec![1, 2, 3], &vec![false, false, true]);
    for i in 0..3 {
        sys.run_user(u + i, &vec![skeleton(10, 20, rooms), skeleton(10, 20, projectors)], &pt);
    }
    let cancelled_rooms = count_status(&sys, rooms, BookingStatus::Cancelled);
    let cancelled_projectors = count_status(&sys, projectors, BookingStatus::Cancelled);
    assert_eq!(count_status(&sys, rooms, BookingStatus::Confirmed), 2);
    assert_eq!(count_status(&sys, projectors, BookingStatus::Confirmed), 2);
    assert!(
        (cancelled_rooms == 0 && cancelled_projectors == 0)
            || (cancelled_rooms == 1 && cancelled_projectors == 1)
    );
}
