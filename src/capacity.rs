//! Capacity accounting: how many confirmed bookings of a facility cover one instant.
use vstd::prelude::*;
use vstd::set_lib::{lemma_int_range, lemma_len_subset, lemma_len_union, set_int_range};
use crate::admission::{
    counted_overlap, first_candidate, lemma_candidate_in_list, lemma_no_candidate_all_vip,
    overlap_count, vip_overlap_count,
};
use crate::commit::{committed, lemma_entries_upto_range, lemma_leg_candidate};
use crate::engine::{leg_of, ReservationSystem};
use crate::model::{bookings_overlap, covers, Booking, BookingSkeleton, BookingStatus};

verus! {

/// Booking `b` is a `Confirmed` booking of facility `f` whose interval covers `t`.
pub open spec fn active_at(b: Booking, f: int, t: int) -> bool {
    b.facility == f && b.status == BookingStatus::Confirmed && covers(b, t)
}

/// The indices of the bookings of `bs` that are confirmed on facility `f` and cover `t`.
pub open spec fn active_set(bs: Seq<Booking>, f: int, t: int) -> Set<int> {
    Set::new(|k: int| 0 <= k < bs.len() && active_at(bs[k], f, t))
}

/// The indices below `bs.len()` that `list` names and that are counted against `b`:
/// they take capacity and overlap it.
pub open spec fn listed_overlaps(list: Seq<usize>, bs: Seq<Booking>, b: Booking) -> Set<int> {
    Set::new(
        |k: int| 0 <= k < bs.len() && list.contains(k as usize) && counted_overlap(bs, k as usize, b),
    )
}

/// A set of indices below `n` is finite and has at most `n` elements.
pub proof fn lemma_index_set_finite(s: Set<int>, n: int)
    requires
        n >= 0,
        forall|k: int| #[trigger] s.contains(k) ==> 0 <= k < n,
    ensures
        s.finite(),
        s.len() <= n,
{
    lemma_int_range(0, n);
    assert(s.subset_of(set_int_range(0, n)));
    lemma_len_subset(s, set_int_range(0, n));
}

/// The distinct confirmed bookings that a list names and that overlap `b` are no more
/// than the count the admission check makes over that list.
pub proof fn lemma_listed_bound(list: Seq<usize>, bs: Seq<Booking>, b: Booking)
    requires
        bs.len() <= usize::MAX,
    ensures
        listed_overlaps(list, bs, b).finite(),
        listed_overlaps(list, bs, b).len() <= overlap_count(list, bs, b),
    decreases list.len(),
{
    let s = listed_overlaps(list, bs, b);
    lemma_index_set_finite(s, bs.len() as int);
    if list.len() == 0 {
        assert(s =~= Set::<int>::empty());
    } else {
        let init = list.drop_last();
        let x = list.last();
        lemma_listed_bound(init, bs, b);
        let prev = listed_overlaps(init, bs, b);
        let extra = if counted_overlap(bs, x, b) {
            Set::<int>::empty().insert(x as int)
        } else {
            Set::<int>::empty()
        };
        assert forall|k: int| #[trigger] s.contains(k) implies prev.union(extra).contains(k) by {
            let j = choose|j: int| 0 <= j < list.len() && list[j] == k as usize;
            if j < list.len() - 1 {
                assert(init[j] == k as usize);
            } else {
                assert(k as usize == x);
                assert(k == x as int);
            }
        }
        assert(extra.finite());
        assert(extra.len() == if counted_overlap(bs, x, b) { 1nat } else { 0nat });
        lemma_len_union(prev, extra);
        assert(prev.union(extra).finite());
        lemma_len_subset(s, prev.union(extra));
    }
}

impl ReservationSystem {
    /// Every confirmed booking is listed by its facility, and at no instant does a
    /// facility hold more confirmed bookings than its capacity.
    pub open spec fn within_capacity(&self) -> bool {
        &&& forall|k: int|
            0 <= k < self.bookings@.len() && #[trigger] self.bookings@[k].status
                == BookingStatus::Confirmed ==> self.lists()[self.bookings@[k].facility as int].contains(
                k as usize,
            )
        &&& forall|f: int, t: int|
            0 <= f < self.facilities@.len() ==> #[trigger] active_set(self.bookings@, f, t).len()
                <= self.facilities@[f].capacity
    }

    /// The condition under which committing the compound of `user` made of `skels`
    /// keeps every facility within capacity: if it commits, a leg that names a booking to
    /// preempt meets no more bookings taking capacity than the capacity, so that the one
    /// preemption frees enough room.
    pub open spec fn commit_keeps_capacity(
        &self,
        user: usize,
        skels: Seq<BookingSkeleton>,
        now: u32,
    ) -> bool {
        self.compound_possible(user, skels, now) ==> forall|i: int|
            0 <= i < skels.len() && #[trigger] self.leg_preemption(user, skels, now, i) is Some
                ==> overlap_count(
                self.leg_list(user, skels, now, i),
                self.arena_with(user, skels),
                leg_of(skels[i], user, self.compounds@.len() as usize),
            ) <= self.facilities@[skels[i].facility as int].capacity
    }

    /// An admitted leg is among the entries that its facility's list receives.
    pub proof fn lemma_entries_upto_contains(
        &self,
        user: usize,
        skels: Seq<BookingSkeleton>,
        now: u32,
        m: int,
        f: int,
        j: int,
    )
        requires
            0 <= j < m <= skels.len(),
            self.bookings@.len() + skels.len() <= usize::MAX,
            skels[j].facility == f,
            self.leg_admitted(user, skels, now, j),
        ensures
            self.entries_upto(user, skels, now, m, f).contains((self.bookings@.len() + j) as usize),
        decreases m,
    {
        let prev = self.entries_upto(user, skels, now, m - 1, f);
        let e = self.entries_upto(user, skels, now, m, f);
        if j == m - 1 {
            assert(e == prev.push((self.bookings@.len() + j) as usize));
            assert(e[prev.len() as int] == (self.bookings@.len() + j) as usize);
        } else {
            self.lemma_entries_upto_contains(user, skels, now, m - 1, f, j);
            let q = choose|q: int| 0 <= q < prev.len() && prev[q] == (self.bookings@.len() + j) as usize;
            if e != prev {
                assert(e[q] == prev[q]);
            }
        }
    }
}

/// Away from the instants that a committed leg covers, no facility gains a booking.
proof fn lemma_load_not_raised(
    s0: &ReservationSystem,
    s1: &ReservationSystem,
    user: usize,
    skels: Seq<BookingSkeleton>,
    now: u32,
    r: bool,
    f: int,
    t: int,
)
    requires
        committed(s0, s1, user, skels, now, r),
        r ==> forall|j: int|
            0 <= j < skels.len() ==> !(skels[j].facility == f && covers(
                #[trigger] leg_of(skels[j], user, s0.compounds@.len() as usize),
                t,
            )),
    ensures
        active_set(s1.bookings@, f, t).subset_of(active_set(s0.bookings@, f, t)),
{
    let n = s0.bookings@.len();
    assert forall|k: int| #[trigger] active_set(s1.bookings@, f, t).contains(k) implies active_set(
        s0.bookings@,
        f,
        t,
    ).contains(k) by {
        if k >= n {
            let j = k - n;
            assert(s1.bookings@[n + j] == s1.bookings@[k]);
            let leg = leg_of(skels[j], user, s0.compounds@.len() as usize);
            assert(covers(leg, t));
        } else {
            assert(s1.bookings@[k] == s1.bookings@[k]);
        }
    }
}

/// Whether leg `i` of the compound lies on facility `f` and covers instant `t`.
pub open spec fn leg_covers(
    skels: Seq<BookingSkeleton>,
    user: usize,
    c: usize,
    i: int,
    f: int,
    t: int,
) -> bool {
    skels[i].facility == f && covers(leg_of(skels[i], user, c), t)
}

/// Among the first `m` legs that cover `t` on `f`, there is a last one.
proof fn lemma_last_covering(
    skels: Seq<BookingSkeleton>,
    user: usize,
    c: usize,
    f: int,
    t: int,
    m: int,
)
    requires
        0 <= m <= skels.len(),
        exists|j: int| 0 <= j < m && #[trigger] leg_covers(skels, user, c, j, f, t),
    ensures
        exists|j: int|
            0 <= j < m && #[trigger] leg_covers(skels, user, c, j, f, t) && forall|i: int|
                j < i < m ==> !#[trigger] leg_covers(skels, user, c, i, f, t),
    decreases m,
{
    if leg_covers(skels, user, c, m - 1, f, t) {
        assert(forall|i: int| m - 1 < i < m ==> !#[trigger] leg_covers(skels, user, c, i, f, t));
    } else {
        let j0 = choose|j: int| 0 <= j < m && #[trigger] leg_covers(skels, user, c, j, f, t);
        assert(j0 < m - 1);
        lemma_last_covering(skels, user, c, f, t, m - 1);
        let j = choose|j: int|
            0 <= j < m - 1 && #[trigger] leg_covers(skels, user, c, j, f, t) && forall|i: int|
                j < i < m - 1 ==> !#[trigger] leg_covers(skels, user, c, i, f, t);
        assert forall|i: int| j < i < m implies !#[trigger] leg_covers(skels, user, c, i, f, t) by {
            if i < m - 1 {
            }
        }
    }
}

/// At an instant that committed leg `j` covers, and no later leg on the same facility
/// does, that facility holds at most its capacity.
proof fn lemma_load_with_leg(
    s0: &ReservationSystem,
    s1: &ReservationSystem,
    user: usize,
    skels: Seq<BookingSkeleton>,
    now: u32,
    f: int,
    t: int,
    j: int,
)
    requires
        s0.wf(),
        s0.within_capacity(),
        s0.commit_keeps_capacity(user, skels, now),
        committed(s0, s1, user, skels, now, true),
        forall|i: int| 0 <= i < skels.len() ==> #[trigger] skels[i].facility < s0.facilities@.len(),
        s0.bookings@.len() + skels.len() <= usize::MAX,
        0 <= f < s0.facilities@.len(),
        0 <= j < skels.len(),
        leg_covers(skels, user, s0.compounds@.len() as usize, j, f, t),
        forall|i: int|
            j < i < skels.len() ==> !#[trigger] leg_covers(
                skels,
                user,
                s0.compounds@.len() as usize,
                i,
                f,
                t,
            ),
    ensures
        active_set(s1.bookings@, f, t).len() <= s1.facilities@[f].capacity,
{
    let n = s0.bookings@.len();
    let c = s0.compounds@.len() as usize;
    let b = leg_of(skels[j], user, c);
    let base = s0.lists()[f];
    let e = s0.entries_upto(user, skels, now, j, f);
    let list = s0.leg_list(user, skels, now, j);
    let bs = s0.arena_with(user, skels);
    let users = s0.users@;
    let cap = s0.facilities@[f].capacity;
    let ov = overlap_count(list, bs, b);
    let pov = vip_overlap_count(list, bs, users, b);
    let a1 = active_set(s1.bookings@, f, t);
    let co = listed_overlaps(list, bs, b);
    assert(list == base + e);
    assert(s0.leg_admitted(user, skels, now, j));
    lemma_listed_bound(list, bs, b);
    lemma_index_set_finite(a1, s1.bookings@.len() as int);
    lemma_leg_candidate(s0, user, skels, now, j);
    lemma_entries_upto_range(s0, user, skels, now, j, f);
    // what stays active from before takes capacity against the leg, is listed, and is
    // not preempted
    assert forall|k: int| #[trigger] a1.contains(k) && k < n implies co.contains(k)
        && s0.leg_preemption(user, skels, now, j) != Some(k as usize) by {
        assert(s1.bookings@[k] == s1.bookings@[k]);
        assert(bs[k] == s0.bookings@[k]);
        assert(s0.bookings@[k].status == BookingStatus::Confirmed);
        assert(bookings_overlap(bs[k], b));
        assert(base.contains(k as usize));
        let q = choose|q: int| 0 <= q < base.len() && base[q] == k as usize;
        assert(list[q] == k as usize);
        if s0.leg_preemption(user, skels, now, j) == Some(k as usize) {
            assert(s0.preempted_by(user, skels, now, k));
        }
    }
    // the compound's own active legs other than `j` came earlier and were counted
    assert forall|k: int| #[trigger] a1.contains(k) && k >= n && k != n + j implies co.contains(k) by {
        let i = k - n;
        assert(s1.bookings@[n + i] == s1.bookings@[k]);
        assert(leg_covers(skels, user, c, i, f, t));
        assert(i < j);
        assert(s0.leg_admitted(user, skels, now, i));
        s0.lemma_entries_upto_contains(user, skels, now, j, f, i);
        let q = choose|q: int| 0 <= q < e.len() && e[q] == k as usize;
        assert(list[base.len() + q] == k as usize);
        assert(bs[k] == leg_of(skels[i], user, c));
        assert(bookings_overlap(bs[k], b));
    }
    if s0.leg_preemption(user, skels, now, j) is Some {
        let x = s0.leg_preemption(user, skels, now, j).unwrap();
        assert(ov <= cap);
        lemma_candidate_in_list(list, bs, users, b);
        assert(co.contains(x as int));
        let rest = co.remove(x as int).insert(n + j);
        assert(a1.subset_of(rest));
        lemma_len_subset(a1, rest);
    } else {
        let vip = users[user as int].vip;
        if vip && ov >= cap {
            if pov < cap {
                assert(first_candidate(list, bs, users, b) is None);
                assert forall|q: int|
                    0 <= q < list.len() && bs[list[q] as int].compound == b.compound implies #[trigger] bs[list[q] as int].user
                        == b.user by {
                    if q < base.len() {
                        assert(base[q] == s0.facilities@[f].bookings@[q]);
                        assert(list[q] == base[q]);
                        assert(list[q] < n);
                        assert(bs[list[q] as int] == s0.bookings@[list[q] as int]);
                        assert(s0.compounds@.len() == s0.compounds.len());
                        assert(s0.bookings@[list[q] as int].compound < s0.compounds@.len());
                    } else {
                        assert(list[q] == e[q - base.len()]);
                        let k = list[q] as int;
                        assert(bs[k] == leg_of(skels[k - n], user, c));
                    }
                }
                lemma_no_candidate_all_vip(list, bs, users, b);
            }
        }
        assert(ov < cap);
        let rest = co.insert(n + j);
        assert(a1.subset_of(rest));
        lemma_len_subset(a1, rest);
    }
}

/// A commit keeps every facility within capacity, provided it is made under
/// `commit_keeps_capacity`: the number of confirmed bookings of a facility that cover
/// any instant never exceeds the facility's capacity.
pub proof fn law_capacity_kept(
    s0: &ReservationSystem,
    s1: &ReservationSystem,
    user: usize,
    skels: Seq<BookingSkeleton>,
    now: u32,
    r: bool,
)
    requires
        s0.wf(),
        s0.within_capacity(),
        s0.commit_keeps_capacity(user, skels, now),
        committed(s0, s1, user, skels, now, r),
        forall|i: int| 0 <= i < skels.len() ==> #[trigger] skels[i].facility < s0.facilities@.len(),
        s0.bookings@.len() + skels.len() <= usize::MAX,
    ensures
        s1.within_capacity(),
{
    let n = s0.bookings@.len();
    let c = s0.compounds@.len() as usize;
    assert forall|k: int|
        0 <= k < s1.bookings@.len() && #[trigger] s1.bookings@[k].status
            == BookingStatus::Confirmed implies s1.lists()[s1.bookings@[k].facility as int].contains(
        k as usize,
    ) by {
        if k < n {
            let f = s0.bookings@[k].facility as int;
            assert(s1.bookings@[k].facility == f);
            assert(s0.bookings@[k].status == BookingStatus::Confirmed);
            assert(s0.lists()[f].contains(k as usize));
            assert(f < s0.facilities@.len());
            let q = choose|q: int| 0 <= q < s0.lists()[f].len() && s0.lists()[f][q] == k as usize;
            assert(s1.lists()[f][q] == k as usize);
        } else {
            let j = k - n;
            assert(s1.bookings@[n + j] == s1.bookings@[k]);
            assert(r);
            let f = skels[j].facility as int;
            assert(s0.leg_admitted(user, skels, now, j));
            s0.lemma_entries_upto_contains(user, skels, now, skels.len() as int, f, j);
            let e = s0.new_entries(user, skels, f, now);
            let q = choose|q: int| 0 <= q < e.len() && e[q] == k as usize;
            assert(s1.lists()[f][s0.lists()[f].len() + q] == k as usize);
        }
    }
    assert forall|f: int, t: int| 0 <= f < s1.facilities@.len() implies #[trigger] active_set(
        s1.bookings@,
        f,
        t,
    ).len() <= s1.facilities@[f].capacity by {
        if r && exists|j: int| 0 <= j < skels.len() && #[trigger] leg_covers(skels, user, c, j, f, t) {
            lemma_last_covering(skels, user, c, f, t, skels.len() as int);
            let j = choose|j: int|
                0 <= j < skels.len() && #[trigger] leg_covers(skels, user, c, j, f, t) && forall|i: int|
                    j < i < skels.len() ==> !#[trigger] leg_covers(skels, user, c, i, f, t);
            lemma_load_with_leg(s0, s1, user, skels, now, f, t, j);
        } else {
            assert forall|j: int| r && 0 <= j < skels.len() implies !(skels[j].facility == f && covers(
                #[trigger] leg_of(skels[j], user, c),
                t,
            )) by {
                assert(!leg_covers(skels, user, c, j, f, t));
            }
            lemma_load_not_raised(s0, s1, user, skels, now, r, f, t);
            lemma_index_set_finite(active_set(s0.bookings@, f, t), n as int);
            lemma_len_subset(active_set(s1.bookings@, f, t), active_set(s0.bookings@, f, t));
        }
    }
}

/// An engine with no bookings is within capacity.
pub proof fn lemma_empty_within_capacity(s: &ReservationSystem)
    requires
        s.bookings@.len() == 0,
    ensures
        s.within_capacity(),
{
    assert forall|f: int, t: int| 0 <= f < s.facilities@.len() implies #[trigger] active_set(
        s.bookings@,
        f,
        t,
    ).len() <= s.facilities@[f].capacity by {
        assert(active_set(s.bookings@, f, t) =~= Set::<int>::empty());
    }
}

/// Changes that touch no booking, keep each capacity, and only add to the lists (or add
/// facilities that no booking uses) keep the engine within capacity.
pub proof fn lemma_capacity_frame(s0: &ReservationSystem, s1: &ReservationSystem)
    requires
        s0.within_capacity(),
        s1.bookings@ == s0.bookings@,
        s1.facilities@.len() >= s0.facilities@.len(),
        forall|k: int| 0 <= k < s0.bookings@.len() ==> #[trigger] s0.bookings@[k].facility < s0.facilities@.len(),
        forall|f: int|
            0 <= f < s0.facilities@.len() ==> #[trigger] s1.facilities@[f].capacity
                == s0.facilities@[f].capacity,
        forall|f: int, x: usize|
            0 <= f < s0.facilities@.len() && #[trigger] s0.lists()[f].contains(x) ==> s1.lists()[f].contains(x),
    ensures
        s1.within_capacity(),
{
    assert forall|k: int|
        0 <= k < s1.bookings@.len() && #[trigger] s1.bookings@[k].status
            == BookingStatus::Confirmed implies s1.lists()[s1.bookings@[k].facility as int].contains(
        k as usize,
    ) by {
        assert(s0.lists()[s0.bookings@[k].facility as int].contains(k as usize));
    }
    assert forall|f: int, t: int| 0 <= f < s1.facilities@.len() implies #[trigger] active_set(
        s1.bookings@,
        f,
        t,
    ).len() <= s1.facilities@[f].capacity by {
        if f >= s0.facilities@.len() {
            assert(active_set(s1.bookings@, f, t) =~= Set::<int>::empty());
        } else {
            assert(active_set(s1.bookings@, f, t) == active_set(s0.bookings@, f, t));
        }
    }
}

} // verus!
