//! The engine's shared state and the admission check that runs against it.
use vstd::prelude::*;
use crate::admission::{
    admits, first_candidate, lemma_counts_bounded, overlap_count, preemption, vip_overlap_count,
};
use crate::capacity::{lemma_capacity_frame, lemma_empty_within_capacity};
use crate::model::{
    overlap, Booking, BookingSkeleton, BookingStatus, FacilityType, ProgramTime, User,
};

verus! {

/// A bookable resource: its type, its capacity, and the indices of every booking
/// ever admitted to it, in admission order.
pub struct Facility {
    pub fac_type: FacilityType,
    pub capacity: u32,
    pub bookings: Vec<usize>,
}

/// The bookings that one user submitted together, which commit or fail as a unit.
pub struct Compound {
    pub user: usize,
    pub legs: Vec<usize>,
}

/// A cancellation notice for `user` about its booking `booking`.
#[derive(Clone, Copy, Debug, PartialEq, Eq, Structural)]
pub struct Notice {
    pub user: usize,
    pub booking: usize,
}

/// All facilities, users, bookings and compounds, with the stream of cancellation
/// notices. Bookings are never removed; references between them are indices.
pub struct ReservationSystem {
    pub facilities: Vec<Facility>,
    pub users: Vec<User>,
    pub bookings: Vec<Booking>,
    pub compounds: Vec<Compound>,
    pub notices: Vec<Notice>,
}

/// The booking that skeleton `s` becomes as a leg of compound `c` of `user`.
pub open spec fn leg_of(s: BookingSkeleton, user: usize, c: usize) -> Booking {
    Booking {
        start: s.start,
        end: s.end,
        facility: s.facility,
        user,
        status: BookingStatus::Unconfirmed,
        compound: c,
    }
}

/// `b` with its status replaced by `st`.
pub open spec fn with_status(b: Booking, st: BookingStatus) -> Booking {
    Booking { status: st, ..b }
}

/// The status changes that a booking may undergo: Unconfirmed to Confirmed or to
/// Cancelled, Confirmed to Cancelled, or none.
pub open spec fn status_moves_forward(from: BookingStatus, to: BookingStatus) -> bool {
    ||| from == to
    ||| from == BookingStatus::Unconfirmed
    ||| (from == BookingStatus::Confirmed && to == BookingStatus::Cancelled)
}

/// Whether booking `k` shares its compound with one of the bookings `list`.
pub open spec fn shares_compound(bs: Seq<Booking>, list: Seq<usize>, k: int) -> bool {
    exists|j: int| 0 <= j < list.len() && #[trigger] bs[list[j] as int].compound == bs[k].compound
}

/// The bookings named by the notices addressed to `user`, in the order they were sent.
pub open spec fn inbox_of(notices: Seq<Notice>, user: usize) -> Seq<usize>
    decreases notices.len(),
{
    if notices.len() == 0 {
        Seq::empty()
    } else {
        let prev = inbox_of(notices.drop_last(), user);
        if notices.last().user == user {
            prev.push(notices.last().booking)
        } else {
            prev
        }
    }
}

/// `after` is `before` with some statuses moved to `Cancelled`, nothing else changed.
pub open spec fn only_cancellations(before: Seq<Booking>, after: Seq<Booking>) -> bool {
    &&& after.len() == before.len()
    &&& forall|k: int|
        0 <= k < before.len() ==> {
            &&& #[trigger] after[k] == with_status(before[k], after[k].status)
            &&& (after[k].status == before[k].status || after[k].status
                == BookingStatus::Cancelled)
        }
}

/// The notices `new` go, once each, to the owners of exactly the bookings that were not
/// `Cancelled` in `before` and are in `after`.
pub open spec fn notices_for(before: Seq<Booking>, after: Seq<Booking>, new: Seq<Notice>) -> bool {
    &&& forall|p: int, q: int|
        0 <= p < new.len() && 0 <= q < new.len() && p != q ==> #[trigger] new[p].booking
            != #[trigger] new[q].booking
    &&& forall|q: int|
        0 <= q < new.len() ==> {
            let k = #[trigger] new[q].booking as int;
            &&& 0 <= k < before.len()
            &&& new[q].user == before[k].user
            &&& before[k].status != BookingStatus::Cancelled
            &&& after[k].status == BookingStatus::Cancelled
        }
    &&& forall|k: int|
        0 <= k < before.len() && before[k].status != BookingStatus::Cancelled
            && #[trigger] after[k].status == BookingStatus::Cancelled ==> exists|q: int|
            0 <= q < new.len() && new[q].booking == k
}

/// The links between the tables do not depend on the notices.
pub proof fn lemma_wf_frame(a: &ReservationSystem, b: &ReservationSystem)
    requires
        a.links(),
        b.facilities@ == a.facilities@,
        b.users@ == a.users@,
        b.bookings@ == a.bookings@,
        b.compounds@ == a.compounds@,
    ensures
        b.links(),
{
    assert(b.members() == a.members());
}

impl ReservationSystem {
    /// The booking list of every facility.
    pub open spec fn lists(&self) -> Seq<Seq<usize>> {
        self.facilities@.map_values(|f: Facility| f.bookings@)
    }

    /// Type and capacity of every facility.
    pub open spec fn shapes(&self) -> Seq<(FacilityType, u32)> {
        self.facilities@.map_values(|f: Facility| (f.fac_type, f.capacity))
    }

    /// The member lists of every compound.
    pub open spec fn members(&self) -> Seq<Seq<usize>> {
        self.compounds@.map_values(|c: Compound| c.legs@)
    }

    /// Whether `b`, checked now against its facility, is admitted.
    pub open spec fn admits_now(&self, b: Booking, now: u32) -> bool {
        admits(
            self.lists()[b.facility as int],
            self.bookings@,
            self.users@,
            self.facilities@[b.facility as int].capacity,
            b,
            now,
        )
    }

    /// The booking that `b`, checked now against its facility, would preempt.
    pub open spec fn preemption_now(&self, b: Booking, now: u32) -> Option<usize> {
        preemption(
            self.lists()[b.facility as int],
            self.bookings@,
            self.users@,
            self.facilities@[b.facility as int].capacity,
            b,
            now,
        )
    }

    /// The arena once the legs of the compound of `user` made of `skels` are appended.
    pub open spec fn arena_with(&self, user: usize, skels: Seq<BookingSkeleton>) -> Seq<Booking> {
        self.bookings@ + Seq::new(
            skels.len(),
            |i: int| leg_of(skels[i], user, self.compounds@.len() as usize),
        )
    }

    /// The arena indices of those of the first `m` legs of that compound that their
    /// checks append to facility `f`'s list, in order. Each leg is checked against its
    /// facility's list with the legs admitted before it appended, still `Unconfirmed`
    /// but taking capacity.
    pub open spec fn entries_upto(
        &self,
        user: usize,
        skels: Seq<BookingSkeleton>,
        now: u32,
        m: int,
        f: int,
    ) -> Seq<usize>
        decreases m,
    {
        if m <= 0 {
            Seq::empty()
        } else {
            let prev = self.entries_upto(user, skels, now, m - 1, f);
            if skels[m - 1].facility == f && admits(
                self.lists()[f] + prev,
                self.arena_with(user, skels),
                self.users@,
                self.facilities@[f].capacity,
                leg_of(skels[m - 1], user, self.compounds@.len() as usize),
                now,
            ) {
                prev.push((self.bookings@.len() + m - 1) as usize)
            } else {
                prev
            }
        }
    }

    /// The list that leg `i` of that compound is checked against.
    pub open spec fn leg_list(
        &self,
        user: usize,
        skels: Seq<BookingSkeleton>,
        now: u32,
        i: int,
    ) -> Seq<usize> {
        let f = skels[i].facility as int;
        self.lists()[f] + self.entries_upto(user, skels, now, i, f)
    }

    /// Whether leg `i` of that compound is admitted.
    pub open spec fn leg_admitted(
        &self,
        user: usize,
        skels: Seq<BookingSkeleton>,
        now: u32,
        i: int,
    ) -> bool {
        admits(
            self.leg_list(user, skels, now, i),
            self.arena_with(user, skels),
            self.users@,
            self.facilities@[skels[i].facility as int].capacity,
            leg_of(skels[i], user, self.compounds@.len() as usize),
            now,
        )
    }

    /// The booking that leg `i` of that compound names for preemption, if any.
    pub open spec fn leg_preemption(
        &self,
        user: usize,
        skels: Seq<BookingSkeleton>,
        now: u32,
        i: int,
    ) -> Option<usize> {
        preemption(
            self.leg_list(user, skels, now, i),
            self.arena_with(user, skels),
            self.users@,
            self.facilities@[skels[i].facility as int].capacity,
            leg_of(skels[i], user, self.compounds@.len() as usize),
            now,
        )
    }

    /// Whether every leg of a compound of `user` made of `skels`, checked now in order,
    /// is admitted.
    pub open spec fn compound_possible(&self, user: usize, skels: Seq<BookingSkeleton>, now: u32) -> bool {
        forall|i: int| 0 <= i < skels.len() ==> #[trigger] self.leg_admitted(user, skels, now, i)
    }

    /// Whether committing that compound cancels the existing booking `k`: one of its legs
    /// names `k`, or another member of `k`'s compound, as its preemption candidate.
    pub open spec fn preempted_by(
        &self,
        user: usize,
        skels: Seq<BookingSkeleton>,
        now: u32,
        k: int,
    ) -> bool {
        exists|i: int|
            0 <= i < skels.len() && (#[trigger] self.leg_preemption(user, skels, now, i) matches Some(
                x,
            ) && self.bookings@[x as int].compound == self.bookings@[k].compound)
    }

    /// The arena indices of the legs of that compound that the checks append to facility
    /// `f`'s list, in order.
    pub open spec fn new_entries(
        &self,
        user: usize,
        skels: Seq<BookingSkeleton>,
        f: int,
        now: u32,
    ) -> Seq<usize> {
        self.entries_upto(user, skels, now, skels.len() as int, f)
    }

    /// No compound has both a `Confirmed` and an `Unconfirmed` member.
    pub open spec fn settled(&self) -> bool {
        forall|k1: int, k2: int|
            0 <= k1 < self.bookings@.len() && 0 <= k2 < self.bookings@.len()
                && #[trigger] self.bookings@[k1].compound == #[trigger] self.bookings@[k2].compound
                && self.bookings@[k1].status == BookingStatus::Confirmed ==> self.bookings@[k2].status
                != BookingStatus::Unconfirmed
    }

    /// Well-formed: the tables link up and every compound is settled.
    pub open spec fn wf(&self) -> bool {
        self.links() && self.settled()
    }

    /// Every index held anywhere points into its table, each booking sits in the
    /// member list of its compound, and a compound's members belong to its user.
    pub open spec fn links(&self) -> bool {
        &&& forall|k: int|
            0 <= k < self.bookings@.len() ==> {
                let b = #[trigger] self.bookings@[k];
                &&& b.facility < self.facilities@.len()
                &&& b.user < self.users@.len()
                &&& b.compound < self.compounds@.len()
                &&& self.compounds@[b.compound as int].user == b.user
                &&& self.members()[b.compound as int].contains(k as usize)
            }
        &&& forall|c: int|
            0 <= c < self.compounds@.len() ==> {
                &&& #[trigger] self.compounds@[c].user < self.users@.len()
                &&& forall|j: int|
                    0 <= j < self.compounds@[c].legs@.len() ==> {
                        let k = #[trigger] self.compounds@[c].legs@[j];
                        &&& k < self.bookings@.len()
                        &&& self.bookings@[k as int].compound == c
                    }
            }
        &&& forall|f: int, j: int|
            0 <= f < self.facilities@.len() && 0 <= j < self.facilities@[f].bookings@.len() ==> {
                let k = #[trigger] self.facilities@[f].bookings@[j];
                &&& k < self.bookings@.len()
                &&& self.bookings@[k as int].facility == f
            }
    }

    /// An engine with no facilities, users or bookings.
    pub fn new() -> (r: ReservationSystem)
        ensures
            r.wf(),
            r.facilities@.len() == 0,
            r.users@.len() == 0,
            r.bookings@.len() == 0,
            r.compounds@.len() == 0,
            r.notices@.len() == 0,
            r.within_capacity(),
    {
        let r = ReservationSystem {
            facilities: Vec::new(),
            users: Vec::new(),
            bookings: Vec::new(),
            compounds: Vec::new(),
            notices: Vec::new(),
        };
        proof {
            lemma_empty_within_capacity(&r);
        }
        r
    }

    /// Adds a facility with no bookings and returns its index.
    pub fn add_facility(&mut self, fac_type: FacilityType, capacity: u32) -> (r: usize)
        requires
            old(self).wf(),
            old(self).facilities@.len() < usize::MAX,
        ensures
            final(self).wf(),
            r == old(self).facilities@.len(),
            final(self).facilities@.len() == old(self).facilities@.len() + 1,
            final(self).shapes() == old(self).shapes().push((fac_type, capacity)),
            final(self).lists() == old(self).lists().push(Seq::<usize>::empty()),
            final(self).users@ == old(self).users@,
            final(self).bookings@ == old(self).bookings@,
            final(self).compounds@ == old(self).compounds@,
            final(self).notices@ == old(self).notices@,
            old(self).within_capacity() ==> final(self).within_capacity(),
    {
        let r = self.facilities.len();
        let fac = Facility { fac_type, capacity, bookings: Vec::new() };
        assert(fac.bookings@.len() == 0);
        self.facilities.push(fac);
        proof {
            assert(self.shapes() =~= old(self).shapes().push((fac_type, capacity)));
            assert(self.lists() =~= old(self).lists().push(Seq::<usize>::empty()));
            assert forall|f: int, j: int|
                0 <= f < self.facilities@.len() && 0 <= j
                    < self.facilities@[f].bookings@.len() implies {
                let k = #[trigger] self.facilities@[f].bookings@[j];
                &&& k < self.bookings@.len()
                &&& self.bookings@[k as int].facility == f
            } by {
                let k = self.facilities@[f].bookings@[j];
                if f < r {
                    assert(self.facilities@[f] == old(self).facilities@[f]);
                    assert(k == old(self).facilities@[f].bookings@[j]);
                } else {
                    assert(self.facilities@[f] == fac);
                }
                assert(k < self.bookings@.len());
                assert(self.bookings@[k as int].facility == f);
            }
        }
        proof {
            if old(self).within_capacity() {
                assert forall|f: int| 0 <= f < old(self).facilities@.len() implies #[trigger] self.facilities@[f].capacity
                    == old(self).facilities@[f].capacity by {
                    assert(self.facilities@[f] == old(self).facilities@[f]);
                }
                assert forall|f: int, x: usize|
                    0 <= f < old(self).facilities@.len() && #[trigger] old(self).lists()[f].contains(x) implies self.lists()[f].contains(x) by {
                    assert(self.lists()[f] == old(self).lists()[f]);
                }
                lemma_capacity_frame(old(self), self);
            }
        }
        r
    }

    /// Registers one user per id, in order: the `i`-th gets id `user_ids[i]` and
    /// privilege `user_stati[i]`. Returns the index of the first one.
    pub fn start_users(&mut self, user_ids: &Vec<u32>, user_stati: &Vec<bool>) -> (r: usize)
        requires
            old(self).wf(),
            user_stati@.len() >= user_ids@.len(),
            old(self).users@.len() + user_ids@.len() <= usize::MAX,
        ensures
            final(self).wf(),
            r == old(self).users@.len(),
            final(self).users@ == old(self).users@ + Seq::new(
                user_ids@.len(),
                |i: int| User { id: user_ids@[i], vip: user_stati@[i] },
            ),
            final(self).facilities@ == old(self).facilities@,
            final(self).bookings@ == old(self).bookings@,
            final(self).compounds@ == old(self).compounds@,
            final(self).notices@ == old(self).notices@,
            old(self).within_capacity() ==> final(self).within_capacity(),
    {
        let r = self.users.len();
        let mut i: usize = 0;
        while i < user_ids.len()
            invariant
                i <= user_ids@.len(),
                user_stati@.len() >= user_ids@.len(),
                r == old(self).users@.len(),
                r + user_ids@.len() <= usize::MAX,
                self.users@.len() == r + i,
                self.users@.subrange(0, r as int) == old(self).users@,
                forall|j: int|
                    0 <= j < i ==> #[trigger] self.users@[r + j] == (User {
                        id: user_ids@[j],
                        vip: user_stati@[j],
                    }),
                self.facilities@ == old(self).facilities@,
                self.bookings@ == old(self).bookings@,
                self.compounds@ == old(self).compounds@,
                self.notices@ == old(self).notices@,
                self.wf(),
            decreases user_ids@.len() - i,
        {
            let ghost prev = self.users@;
            self.users.push(User { id: user_ids[i], vip: user_stati[i] });
            proof {
                assert(self.users@.subrange(0, r as int) =~= prev.subrange(0, r as int));
                assert forall|j: int| 0 <= j < i + 1 implies #[trigger] self.users@[r + j] == (User {
                    id: user_ids@[j],
                    vip: user_stati@[j],
                }) by {
                    if j < i {
                        assert(self.users@[r + j] == prev[r + j]);
                    }
                }
            }
            i += 1;
        }
        proof {
            assert(self.users@ =~= old(self).users@ + Seq::new(
                user_ids@.len(),
                |i: int| User { id: user_ids@[i], vip: user_stati@[i] },
            )) by {
                assert forall|j: int| 0 <= j < self.users@.len() implies self.users@[j] == (old(self).users@ + Seq::new(
                    user_ids@.len(),
                    |i: int| User { id: user_ids@[i], vip: user_stati@[i] },
                ))[j] by {
                    if j < r {
                        assert(self.users@.subrange(0, r as int)[j] == self.users@[j]);
                    } else {
                        assert(self.users@[r + (j - r)] == self.users@[j]);
                    }
                }
            }
            if old(self).within_capacity() {
                assert(self.lists() == old(self).lists());
                lemma_capacity_frame(old(self), self);
            }
        }
        r
    }

    /// The admission check: decides whether booking `booking` can be admitted to its
    /// facility at the current tick and which booking, if any, it would preempt. Counted
    /// against the capacity are the listed `Confirmed` bookings and the listed, still
    /// `Unconfirmed` members of the booking's own compound. On admission the booking is
    /// appended to the facility's list; no status changes.
    pub fn check_facility(&mut self, booking: usize, program_time: &ProgramTime) -> (r: (
        bool,
        Option<usize>,
    ))
        requires
            old(self).links(),
            booking < old(self).bookings@.len(),
        ensures
            final(self).links(),
            r.0 == old(self).admits_now(old(self).bookings@[booking as int], program_time.time),
            r.1 == old(self).preemption_now(old(self).bookings@[booking as int], program_time.time),
            final(self).lists() == if r.0 {
                let f = old(self).bookings@[booking as int].facility as int;
                old(self).lists().update(f, old(self).lists()[f].push(booking))
            } else {
                old(self).lists()
            },
            final(self).shapes() == old(self).shapes(),
            final(self).users@ == old(self).users@,
            final(self).bookings@ == old(self).bookings@,
            final(self).compounds@ == old(self).compounds@,
            final(self).notices@ == old(self).notices@,
            old(self).within_capacity() ==> final(self).within_capacity(),
    {
        let b = self.bookings[booking];
        let f = b.facility;
        let ghost list = self.lists()[f as int];
        let ghost bs = self.bookings@;
        let ghost users = self.users@;
        if b.start < program_time.get_current_time() {
            return (false, None);
        }
        let cap = self.facilities[f].capacity;
        let vip = self.users[b.user].vip;
        let n = self.facilities[f].bookings.len();
        assert(list == self.facilities@[f as int].bookings@);
        let mut overlaps: usize = 0;
        let mut premium: usize = 0;
        let mut i: usize = 0;
        while i < n
            invariant
                self.links(),
                f < self.facilities@.len(),
                list == self.facilities@[f as int].bookings@,
                bs == self.bookings@,
                users == self.users@,
                n == list.len(),
                i <= n,
                overlaps == overlap_count(list.take(i as int), bs, b),
                premium == vip_overlap_count(list.take(i as int), bs, users, b),
            decreases n - i,
        {
            proof {
                lemma_counts_bounded(list.take(i as int), bs, users, b);
            }
            let k = self.facilities[f].bookings[i];
            let other = self.bookings[k];
            if overlap(&other, &b) && (other.status == BookingStatus::Confirmed || (other.status
                == BookingStatus::Unconfirmed && other.compound == b.compound)) {
                overlaps += 1;
                if self.users[other.user].vip {
                    premium += 1;
                }
            }
            proof {
                assert(list.take(i + 1).drop_last() =~= list.take(i as int));
            }
            i += 1;
        }
        assert(list.take(n as int) =~= list);
        let mut to_cancel: Option<usize> = None;
        if vip && overlaps >= cap as usize && premium < cap as usize {
            let mut j: usize = 0;
            while j < n && to_cancel.is_none()
                invariant
                    self.links(),
                    f < self.facilities@.len(),
                    list == self.facilities@[f as int].bookings@,
                    bs == self.bookings@,
                    users == self.users@,
                    n == list.len(),
                    j <= n,
                    to_cancel.is_none() ==> first_candidate(list, bs, users, b) == first_candidate(
                        list.subrange(j as int, n as int),
                        bs,
                        users,
                        b,
                    ),
                    to_cancel.is_some() ==> to_cancel == first_candidate(list, bs, users, b),
                decreases n - j,
            {
                let k = self.facilities[f].bookings[j];
                let other = self.bookings[k];
                let ghost rest = list.subrange(j as int, n as int);
                assert(rest[0] == k);
                if overlap(&other, &b) && !self.users[other.user].vip && other.status
                    == BookingStatus::Confirmed {
                    to_cancel = Some(k);
                } else {
                    assert(rest.subrange(1, rest.len() as int) =~= list.subrange(
                        j + 1,
                        n as int,
                    ));
                }
                j += 1;
            }
            proof {
                if to_cancel.is_none() {
                    assert(list.subrange(n as int, n as int).len() == 0);
                }
            }
        }
        if (overlaps >= cap as usize && !vip) || (vip && premium >= cap as usize) {
            return (false, to_cancel);
        }
        let ghost pre = self.facilities@;
        self.facilities[f].bookings.push(booking);
        proof {
            assert(self.lists() =~= old(self).lists().update(f as int, list.push(booking)));
            assert(self.shapes() =~= old(self).shapes());
            assert forall|g: int, j: int|
                0 <= g < self.facilities@.len() && 0 <= j
                    < self.facilities@[g].bookings@.len() implies {
                let k = #[trigger] self.facilities@[g].bookings@[j];
                &&& k < self.bookings@.len()
                &&& self.bookings@[k as int].facility == g
            } by {
                if g != f || j < list.len() {
                    assert(self.facilities@[g].bookings@[j] == pre[g].bookings@[j]);
                }
            }
        }
        proof {
            if old(self).within_capacity() {
                assert forall|g: int| 0 <= g < old(self).facilities@.len() implies #[trigger] self.facilities@[g].capacity
                    == old(self).facilities@[g].capacity by {
                    assert(self.shapes()[g] == old(self).shapes()[g]);
                }
                assert forall|g: int, x: usize|
                    0 <= g < old(self).facilities@.len() && #[trigger] old(self).lists()[g].contains(x) implies self.lists()[g].contains(x) by {
                    if g == f {
                        let q = choose|q: int| 0 <= q < old(self).lists()[g].len() && old(self).lists()[g][q] == x;
                        assert(self.lists()[g][q] == x);
                    }
                }
                lemma_capacity_frame(old(self), self);
            }
        }
        (true, to_cancel)
    }

    /// The inbox of `user`: the bookings of its that were cancelled, in notice order.
    pub fn inbox(&self, user: usize) -> (r: Vec<usize>)
        ensures
            r@ == inbox_of(self.notices@, user),
    {
        let mut r: Vec<usize> = Vec::new();
        let mut i: usize = 0;
        while i < self.notices.len()
            invariant
                i <= self.notices@.len(),
                r@ == inbox_of(self.notices@.take(i as int), user),
            decreases self.notices@.len() - i,
        {
            let notice = self.notices[i];
            if notice.user == user {
                r.push(notice.booking);
            }
            proof {
                assert(self.notices@.take(i + 1).drop_last() =~= self.notices@.take(i as int));
            }
            i += 1;
        }
        assert(self.notices@.take(i as int) =~= self.notices@);
        r
    }

    /// The status of booking `booking`.
    pub fn status(&self, booking: usize) -> (r: BookingStatus)
        requires
            booking < self.bookings@.len(),
        ensures
            r == self.bookings@[booking as int].status,
    {
        self.bookings[booking].status
    }
}

} // verus!
