//! The compound commit protocol: build a user's compound, check every leg, then
//! confirm the compound and cancel what it preempts, or leave it unconfirmed.
use vstd::prelude::*;
use crate::admission::{lemma_candidate_in_list, lemma_counts_arena_extended};
use crate::capacity::law_capacity_kept;
use crate::engine::{
    lemma_wf_frame, leg_of, notices_for, only_cancellations, shares_compound,
    status_moves_forward, with_status, Compound, Notice, ReservationSystem,
};
use crate::model::{Booking, BookingSkeleton, BookingStatus, ProgramTime};

verus! {

/// What a commit leaves behind, as the commit protocol states it: `s1` is `s0` after
/// the compound of `user` made of `skels` was committed at tick `now`, with outcome `r`.
pub open spec fn committed(
    s0: &ReservationSystem,
    s1: &ReservationSystem,
    user: usize,
    skels: Seq<BookingSkeleton>,
    now: u32,
    r: bool,
) -> bool {
    let n = s0.bookings@.len();
    let c = s0.compounds@.len() as usize;
    &&& r == s0.compound_possible(user, skels, now)
    &&& s1.facilities@.len() == s0.facilities@.len()
    &&& forall|f: int|
        0 <= f < s0.facilities@.len() ==> #[trigger] s1.facilities@[f].capacity
            == s0.facilities@[f].capacity
    &&& forall|f: int|
        0 <= f < s0.lists().len() ==> #[trigger] s1.lists()[f] == s0.lists()[f] + s0.new_entries(
            user,
            skels,
            f,
            now,
        )
    &&& s1.bookings@.len() == n + skels.len()
    &&& forall|j: int|
        0 <= j < skels.len() ==> #[trigger] s1.bookings@[n + j] == with_status(
            leg_of(skels[j], user, c),
            if r {
                BookingStatus::Confirmed
            } else {
                BookingStatus::Unconfirmed
            },
        )
    &&& forall|k: int|
        0 <= k < n ==> #[trigger] s1.bookings@[k] == with_status(
            s0.bookings@[k],
            if r && s0.preempted_by(user, skels, now, k) {
                BookingStatus::Cancelled
            } else {
                s0.bookings@[k].status
            },
        )
}

/// Cancelling one more booking and sending its notice keeps the notices exact.
proof fn lemma_notice_step(before: Seq<Booking>, after: Seq<Booking>, new: Seq<Notice>, k: usize)
    requires
        only_cancellations(before, after),
        notices_for(before, after, new),
        k < before.len(),
        after[k as int].status != BookingStatus::Cancelled,
    ensures
        only_cancellations(
            before,
            after.update(k as int, with_status(after[k as int], BookingStatus::Cancelled)),
        ),
        notices_for(
            before,
            after.update(k as int, with_status(after[k as int], BookingStatus::Cancelled)),
            new.push(Notice { user: before[k as int].user, booking: k }),
        ),
{
    let after2 = after.update(k as int, with_status(after[k as int], BookingStatus::Cancelled));
    let new2 = new.push(Notice { user: before[k as int].user, booking: k });
    assert(after[k as int] == with_status(before[k as int], after[k as int].status));
    assert forall|j: int| 0 <= j < before.len() implies {
        &&& #[trigger] after2[j] == with_status(before[j], after2[j].status)
        &&& (after2[j].status == before[j].status || after2[j].status == BookingStatus::Cancelled)
    } by {
        assert(after[j] == with_status(before[j], after[j].status));
    }
    assert forall|q: int| 0 <= q < new.len() implies #[trigger] new[q].booking != k by {
        let b = new[q].booking as int;
        assert(after[b].status == BookingStatus::Cancelled);
    }
    assert forall|p: int, q: int|
        0 <= p < new2.len() && 0 <= q < new2.len() && p != q implies #[trigger] new2[p].booking
            != #[trigger] new2[q].booking by {
        if p < new.len() && q < new.len() {
            assert(new2[p] == new[p] && new2[q] == new[q]);
        } else if p < new.len() {
            assert(new2[p] == new[p]);
            assert(new[p].booking != k);
            assert(new2[q].booking == k);
        } else {
            assert(new2[q] == new[q]);
            assert(new[q].booking != k);
            assert(new2[p].booking == k);
        }
    }
    assert forall|q: int| 0 <= q < new2.len() implies {
        let b = #[trigger] new2[q].booking as int;
        &&& 0 <= b < before.len()
        &&& new2[q].user == before[b].user
        &&& before[b].status != BookingStatus::Cancelled
        &&& after2[b].status == BookingStatus::Cancelled
    } by {
        if q < new.len() {
            assert(new2[q] == new[q]);
            let b = new[q].booking as int;
            assert(new[q].booking != k);
            assert(after[b].status == BookingStatus::Cancelled);
            assert(after2[b] == after[b]);
        } else {
            assert(new2[q].booking == k);
            assert(after[k as int].status == before[k as int].status);
        }
    }
    assert forall|j: int|
        0 <= j < before.len() && before[j].status != BookingStatus::Cancelled
            && #[trigger] after2[j].status == BookingStatus::Cancelled implies exists|q: int|
        0 <= q < new2.len() && new2[q].booking == j by {
        if j == k as int {
            assert(new2[new.len() as int].booking == j);
        } else {
            assert(after[j].status == BookingStatus::Cancelled);
            let q = choose|q: int| 0 <= q < new.len() && new[q].booking == j;
            assert(new2[q] == new[q]);
        }
    }
}

impl ReservationSystem {
    /// Appends the compound of `user` made of `to_book`, its legs `Unconfirmed` and in
    /// no facility's list yet. Returns the compound's index.
    fn build_compound(&mut self, user: usize, to_book: &Vec<BookingSkeleton>) -> (c: usize)
        requires
            old(self).links(),
            user < old(self).users@.len(),
            forall|i: int|
                0 <= i < to_book@.len() ==> #[trigger] to_book@[i].facility < old(
                    self,
                ).facilities@.len(),
            old(self).bookings@.len() + to_book@.len() <= usize::MAX,
            old(self).compounds@.len() < usize::MAX,
        ensures
            final(self).links(),
            c == old(self).compounds@.len(),
            final(self).bookings@.len() == old(self).bookings@.len() + to_book@.len(),
            final(self).bookings@.subrange(0, old(self).bookings@.len() as int) == old(
                self,
            ).bookings@,
            forall|j: int|
                0 <= j < to_book@.len() ==> #[trigger] final(self).bookings@[old(
                    self,
                ).bookings@.len() + j] == leg_of(to_book@[j], user, c),
            final(self).compounds@.len() == c + 1,
            final(self).compounds@.subrange(0, c as int) == old(self).compounds@,
            final(self).compounds@[c as int].user == user,
            final(self).members()[c as int].len() == to_book@.len(),
            forall|j: int|
                0 <= j < to_book@.len() ==> #[trigger] final(self).members()[c as int][j] == old(
                    self,
                ).bookings@.len() + j,
            final(self).facilities@ == old(self).facilities@,
            final(self).users@ == old(self).users@,
            final(self).notices@ == old(self).notices@,
    {
        let n = self.bookings.len();
        let c = self.compounds.len();
        self.compounds.push(Compound { user, legs: Vec::new() });
        proof {
            assert forall|k: int| 0 <= k < self.bookings@.len() implies {
                let b = #[trigger] self.bookings@[k];
                &&& b.facility < self.facilities@.len()
                &&& b.user < self.users@.len()
                &&& b.compound < self.compounds@.len()
                &&& self.compounds@[b.compound as int].user == b.user
                &&& self.members()[b.compound as int].contains(k as usize)
            } by {
                let b = self.bookings@[k];
                assert(self.compounds@[b.compound as int] == old(self).compounds@[b.compound as int]);
            }
            assert forall|d: int| 0 <= d < self.compounds@.len() implies {
                &&& #[trigger] self.compounds@[d].user < self.users@.len()
                &&& forall|j: int|
                    0 <= j < self.compounds@[d].legs@.len() ==> {
                        let k = #[trigger] self.compounds@[d].legs@[j];
                        &&& k < self.bookings@.len()
                        &&& self.bookings@[k as int].compound == d
                    }
            } by {
                if d < c {
                    assert(self.compounds@[d] == old(self).compounds@[d]);
                }
            }
        }
        let mut i: usize = 0;
        while i < to_book.len()
            invariant
                self.links(),
                old(self).links(),
                user < self.users@.len(),
                n == old(self).bookings@.len(),
                c == old(self).compounds@.len(),
                forall|i: int|
                    0 <= i < to_book@.len() ==> #[trigger] to_book@[i].facility < old(
                        self,
                    ).facilities@.len(),
                n + to_book@.len() <= usize::MAX,
                i <= to_book@.len(),
                self.bookings@.len() == n + i,
                self.bookings@.subrange(0, n as int) == old(self).bookings@,
                forall|j: int|
                    0 <= j < i ==> #[trigger] self.bookings@[n + j] == leg_of(to_book@[j], user, c),
                self.compounds@.len() == c + 1,
                self.compounds@.subrange(0, c as int) == old(self).compounds@,
                self.compounds@[c as int].user == user,
                self.members()[c as int].len() == i,
                forall|j: int| 0 <= j < i ==> #[trigger] self.members()[c as int][j] == n + j,
                self.facilities@ == old(self).facilities@,
                self.users@ == old(self).users@,
                self.notices@ == old(self).notices@,
            decreases to_book@.len() - i,
        {
            let s = to_book[i];
            let k = self.bookings.len();
            let ghost pre = *self;
            self.bookings.push(
                Booking {
                    start: s.start,
                    end: s.end,
                    facility: s.facility,
                    user,
                    status: BookingStatus::Unconfirmed,
                    compound: c,
                },
            );
            self.compounds[c].legs.push(k);
            proof {
                assert(self.bookings@.subrange(0, n as int) =~= pre.bookings@.subrange(0, n as int));
                assert(self.compounds@.subrange(0, c as int) =~= pre.compounds@.subrange(0, c as int));
                assert forall|j: int| 0 <= j < i + 1 implies #[trigger] self.bookings@[n + j] == leg_of(
                    to_book@[j],
                    user,
                    c,
                ) by {
                    if j < i {
                        assert(self.bookings@[n + j] == pre.bookings@[n + j]);
                    }
                }
                assert forall|j: int| 0 <= j < i + 1 implies #[trigger] self.members()[c as int][j]
                    == n + j by {
                    if j < i {
                        assert(self.members()[c as int][j] == pre.members()[c as int][j]);
                    }
                }
                assert forall|q: int| 0 <= q < self.bookings@.len() implies {
                    let b = #[trigger] self.bookings@[q];
                    &&& b.facility < self.facilities@.len()
                    &&& b.user < self.users@.len()
                    &&& b.compound < self.compounds@.len()
                    &&& self.compounds@[b.compound as int].user == b.user
                    &&& self.members()[b.compound as int].contains(q as usize)
                } by {
                    let b = self.bookings@[q];
                    if q < k {
                        assert(b == pre.bookings@[q]);
                        assert(pre.members()[b.compound as int].contains(q as usize));
                        if b.compound != c {
                            assert(self.compounds@[b.compound as int] == pre.compounds@[b.compound as int]);
                        } else {
                            let j = choose|j: int|
                                0 <= j < pre.members()[c as int].len() && pre.members()[c as int][j]
                                    == q as usize;
                            assert(self.members()[c as int][j] == q as usize);
                        }
                    } else {
                        assert(self.members()[c as int][i as int] == q as usize);
                    }
                }
                assert forall|d: int| 0 <= d < self.compounds@.len() implies {
                    &&& #[trigger] self.compounds@[d].user < self.users@.len()
                    &&& forall|j: int|
                        0 <= j < self.compounds@[d].legs@.len() ==> {
                            let q = #[trigger] self.compounds@[d].legs@[j];
                            &&& q < self.bookings@.len()
                            &&& self.bookings@[q as int].compound == d
                        }
                } by {
                    if d != c {
                        assert(self.compounds@[d] == pre.compounds@[d]);
                    }
                    assert forall|j: int| 0 <= j < self.compounds@[d].legs@.len() implies {
                        let q = #[trigger] self.compounds@[d].legs@[j];
                        &&& q < self.bookings@.len()
                        &&& self.bookings@[q as int].compound == d
                    } by {
                        let q = self.compounds@[d].legs@[j];
                        if d != c || j < i {
                            assert(q == pre.compounds@[d].legs@[j]);
                            assert(pre.compounds@[d].user < pre.users@.len());
                            assert(q < pre.bookings@.len());
                            assert(self.bookings@[q as int] == pre.bookings@[q as int]);
                        }
                    }
                }
                assert forall|f: int, j: int|
                    0 <= f < self.facilities@.len() && 0 <= j
                        < self.facilities@[f].bookings@.len() implies {
                    let q = #[trigger] self.facilities@[f].bookings@[j];
                    &&& q < self.bookings@.len()
                    &&& self.bookings@[q as int].facility == f
                } by {
                    let q = self.facilities@[f].bookings@[j];
                    assert(self.bookings@[q as int] == pre.bookings@[q as int]);
                }
            }
            i += 1;
        }
        c
    }

    /// Runs the admission check on every member of the fresh compound `c` of `user`, in
    /// order. Returns whether all were admitted, and the preemption candidates that the
    /// checks named.
    fn check_legs(
        &mut self,
        c: usize,
        user: usize,
        program_time: &ProgramTime,
        Ghost(s0): Ghost<ReservationSystem>,
        Ghost(skels): Ghost<Seq<BookingSkeleton>>,
    ) -> (r: (bool, Vec<usize>))
        requires
            old(self).links(),
            s0.links(),
            c < old(self).compounds@.len(),
            fresh_compound(&s0, old(self), user, skels, c),
            forall|i: int| 0 <= i < skels.len() ==> #[trigger] skels[i].facility < s0.facilities@.len(),
        ensures
            final(self).links(),
            r.0 == s0.compound_possible(user, skels, program_time.time),
            forall|x: usize|
                r.1@.contains(x) <==> exists|i: int|
                    0 <= i < skels.len() && #[trigger] s0.leg_preemption(user, skels, program_time.time, i)
                        == Some(x),
            final(self).lists().len() == old(self).lists().len(),
            forall|f: int|
                0 <= f < s0.lists().len() ==> #[trigger] final(self).lists()[f] == s0.lists()[f]
                    + s0.new_entries(user, skels, f, program_time.time),
            final(self).shapes() == old(self).shapes(),
            final(self).users@ == old(self).users@,
            final(self).bookings@ == old(self).bookings@,
            final(self).compounds@ == old(self).compounds@,
            final(self).notices@ == old(self).notices@,
    {
        let ghost now = program_time.time;
        let ghost n = s0.bookings@.len();
        let ghost legs = self.members()[c as int];
        proof {
            assert(self.bookings@ =~= s0.arena_with(user, skels)) by {
                assert forall|k: int| 0 <= k < self.bookings@.len() implies self.bookings@[k]
                    == s0.arena_with(user, skels)[k] by {
                    if k < n {
                        assert(self.bookings@.subrange(0, n as int)[k] == self.bookings@[k]);
                    } else {
                        assert(self.bookings@[n + (k - n)] == leg_of(skels[k - n], user, c));
                    }
                }
            }
            assert(self.lists() == s0.lists());
            assert forall|f: int| 0 <= f < s0.lists().len() implies #[trigger] self.lists()[f]
                == s0.lists()[f] + s0.entries_upto(user, skels, now, 0, f) by {
                assert(self.lists()[f] =~= s0.lists()[f] + Seq::<usize>::empty());
            }
        }
        let mut possible = true;
        let mut cancel_list: Vec<usize> = Vec::new();
        let m = self.compounds[c].legs.len();
        let mut i: usize = 0;
        while i < m
            invariant
                self.links(),
                s0.links(),
                fresh_compound(&s0, old(self), user, skels, c),
                c < self.compounds@.len(),
                forall|i: int| 0 <= i < skels.len() ==> #[trigger] skels[i].facility < s0.facilities@.len(),
                self.bookings@ == s0.arena_with(user, skels),
                self.facilities@.len() == s0.facilities@.len(),
                forall|f: int|
                    0 <= f < s0.facilities@.len() ==> #[trigger] self.facilities@[f].capacity
                        == s0.facilities@[f].capacity,
                legs == self.members()[c as int],
                now == program_time.time,
                n == s0.bookings@.len(),
                m == skels.len(),
                i <= m,
                possible == forall|j: int| 0 <= j < i ==> #[trigger] s0.leg_admitted(user, skels, now, j),
                forall|x: usize|
                    cancel_list@.contains(x) <==> exists|j: int|
                        0 <= j < i && #[trigger] s0.leg_preemption(user, skels, now, j) == Some(x),
                self.lists().len() == s0.lists().len(),
                forall|f: int|
                    0 <= f < s0.lists().len() ==> #[trigger] self.lists()[f] == s0.lists()[f]
                        + s0.entries_upto(user, skels, now, i as int, f),
                self.shapes() == old(self).shapes(),
                self.users@ == old(self).users@,
                self.compounds@ == old(self).compounds@,
                self.notices@ == old(self).notices@,
            decreases m - i,
        {
            let k = self.compounds[c].legs[i];
            assert(k == legs[i as int]);
            let ghost b = leg_of(skels[i as int], user, c);
            let ghost f = skels[i as int].facility as int;
            proof {
                assert(k == n + i);
                assert(self.bookings@[n + i] == b);
                assert(self.users@ == s0.users@);
                assert(self.lists()[f] == s0.leg_list(user, skels, now, i as int));
            }
            let ghost pre = *self;
            let ghost before = cancel_list@;
            let (success, to_cancel) = self.check_facility(k, program_time);
            proof {
                assert(success == s0.leg_admitted(user, skels, now, i as int));
                assert(to_cancel == s0.leg_preemption(user, skels, now, i as int));
            }
            if let Some(x) = to_cancel {
                cancel_list.push(x);
            }
            possible = possible && success;
            proof {
                assert forall|g: int| 0 <= g < s0.lists().len() implies #[trigger] self.lists()[g]
                    == s0.lists()[g] + s0.entries_upto(user, skels, now, i + 1, g) by {
                    let prev = s0.entries_upto(user, skels, now, i as int, g);
                    assert(pre.lists()[g] == s0.lists()[g] + prev);
                    if success && g == f {
                        assert(self.lists()[g] =~= s0.lists()[g] + prev.push(k));
                    } else {
                        assert(self.lists()[g] == pre.lists()[g]);
                    }
                }
                assert forall|x: usize| cancel_list@.contains(x) <==> exists|j: int|
                    0 <= j < i + 1 && #[trigger] s0.leg_preemption(user, skels, now, j) == Some(x) by {
                    assert(cancel_list@.contains(x) <==> (before.contains(x) || to_cancel == Some(x)))
                        by {
                        if to_cancel.is_some() {
                            assert(cancel_list@ == before.push(to_cancel.unwrap()));
                            if cancel_list@.contains(x) && to_cancel != Some(x) {
                                let q = choose|q: int| 0 <= q < cancel_list@.len() && cancel_list@[q] == x;
                                assert(before[q] == x);
                            }
                            if before.contains(x) {
                                let q = choose|q: int| 0 <= q < before.len() && before[q] == x;
                                assert(cancel_list@[q] == x);
                            }
                            assert(cancel_list@[before.len() as int] == to_cancel.unwrap());
                        }
                    }
                }
                assert(self.facilities@.len() == self.shapes().len());
                assert(pre.facilities@.len() == pre.shapes().len());
                assert forall|f: int| 0 <= f < s0.facilities@.len() implies #[trigger] self.facilities@[f].capacity
                    == s0.facilities@[f].capacity by {
                    assert(self.shapes()[f] == pre.shapes()[f]);
                    assert(self.facilities@[f].capacity == self.shapes()[f].1);
                    assert(pre.facilities@[f].capacity == pre.shapes()[f].1);
                }
                assert(self.facilities@.len() == self.shapes().len());
            }
            i += 1;
        }
        (possible, cancel_list)
    }

    /// Sets the status of booking `k`.
    fn set_status(&mut self, k: usize, st: BookingStatus)
        requires
            old(self).links(),
            k < old(self).bookings@.len(),
        ensures
            final(self).links(),
            final(self).bookings@ == old(self).bookings@.update(
                k as int,
                with_status(old(self).bookings@[k as int], st),
            ),
            final(self).facilities@ == old(self).facilities@,
            final(self).users@ == old(self).users@,
            final(self).compounds@ == old(self).compounds@,
            final(self).notices@ == old(self).notices@,
    {
        self.bookings[k].status = st;
        proof {
            assert(self.bookings@ =~= old(self).bookings@.update(
                k as int,
                with_status(old(self).bookings@[k as int], st),
            ));
            assert forall|q: int| 0 <= q < self.bookings@.len() implies {
                let b = #[trigger] self.bookings@[q];
                &&& b.facility < self.facilities@.len()
                &&& b.user < self.users@.len()
                &&& b.compound < self.compounds@.len()
                &&& self.compounds@[b.compound as int].user == b.user
                &&& self.members()[b.compound as int].contains(q as usize)
            } by {
                let b0 = old(self).bookings@[q];
            }
            assert forall|d: int| 0 <= d < self.compounds@.len() implies {
                &&& #[trigger] self.compounds@[d].user < self.users@.len()
                &&& forall|j: int|
                    0 <= j < self.compounds@[d].legs@.len() ==> {
                        let q = #[trigger] self.compounds@[d].legs@[j];
                        &&& q < self.bookings@.len()
                        &&& self.bookings@[q as int].compound == d
                    }
            } by {
                assert(old(self).compounds@[d].user < old(self).users@.len());
            }
            assert forall|f: int, j: int|
                0 <= f < self.facilities@.len() && 0 <= j
                    < self.facilities@[f].bookings@.len() implies {
                let q = #[trigger] self.facilities@[f].bookings@[j];
                &&& q < self.bookings@.len()
                &&& self.bookings@[q as int].facility == f
            } by {
                assert(self.facilities@[f].bookings@[j] == old(self).facilities@[f].bookings@[j]);
            }
        }
    }

    /// Cancels booking `k` and sends its owner a notice.
    fn cancel_and_notify(&mut self, k: usize)
        requires
            old(self).links(),
            k < old(self).bookings@.len(),
        ensures
            final(self).links(),
            final(self).bookings@ == old(self).bookings@.update(
                k as int,
                with_status(old(self).bookings@[k as int], BookingStatus::Cancelled),
            ),
            final(self).notices@ == old(self).notices@.push(
                Notice { user: old(self).bookings@[k as int].user, booking: k },
            ),
            final(self).facilities@ == old(self).facilities@,
            final(self).users@ == old(self).users@,
            final(self).compounds@ == old(self).compounds@,
    {
        self.set_status(k, BookingStatus::Cancelled);
        let user = self.bookings[k].user;
        let ghost mid = *self;
        self.notices.push(Notice { user, booking: k });
        proof {
            lemma_wf_frame(&mid, self);
        }
    }

    /// Cancels every booking in `cancel_list` that is not cancelled yet, and every other
    /// member of its compound, notifying the owner of each booking it cancels.
    fn cancel_preempted(&mut self, cancel_list: &Vec<usize>)
        requires
            old(self).links(),
            forall|j: int|
                0 <= j < cancel_list@.len() ==> #[trigger] cancel_list@[j] < old(
                    self,
                ).bookings@.len(),
        ensures
            final(self).links(),
            final(self).bookings@.len() == old(self).bookings@.len(),
            forall|k: int|
                0 <= k < old(self).bookings@.len() ==> #[trigger] final(self).bookings@[k]
                    == with_status(
                    old(self).bookings@[k],
                    if shares_compound(old(self).bookings@, cancel_list@, k) {
                        BookingStatus::Cancelled
                    } else {
                        old(self).bookings@[k].status
                    },
                ),
            final(self).notices@.len() >= old(self).notices@.len(),
            final(self).notices@.subrange(0, old(self).notices@.len() as int) == old(
                self,
            ).notices@,
            notices_for(
                old(self).bookings@,
                final(self).bookings@,
                final(self).notices@.subrange(
                    old(self).notices@.len() as int,
                    final(self).notices@.len() as int,
                ),
            ),
            final(self).facilities@ == old(self).facilities@,
            final(self).users@ == old(self).users@,
            final(self).compounds@ == old(self).compounds@,
    {
        let ghost bs0 = self.bookings@;
        let ghost n0 = self.notices@.len();
        let ghost list = cancel_list@;
        let nb = self.bookings.len();
        proof {
            assert(self.notices@.subrange(n0 as int, n0 as int).len() == 0);
        }
        let mut i: usize = 0;
        while i < cancel_list.len()
            invariant
                self.links(),
                list == cancel_list@,
                bs0 == old(self).bookings@,
                nb == bs0.len(),
                n0 == old(self).notices@.len(),
                forall|j: int| 0 <= j < list.len() ==> #[trigger] list[j] < bs0.len(),
                i <= list.len(),
                only_cancellations(bs0, self.bookings@),
                forall|k: int|
                    0 <= k < bs0.len() ==> #[trigger] self.bookings@[k].status == if shares_compound(
                        bs0,
                        list.take(i as int),
                        k,
                    ) {
                        BookingStatus::Cancelled
                    } else {
                        bs0[k].status
                    },
                self.notices@.len() >= n0,
                self.notices@.subrange(0, n0 as int) == old(self).notices@,
                notices_for(
                    bs0,
                    self.bookings@,
                    self.notices@.subrange(n0 as int, self.notices@.len() as int),
                ),
                self.facilities@ == old(self).facilities@,
                self.users@ == old(self).users@,
                self.compounds@ == old(self).compounds@,
            decreases list.len() - i,
        {
            let x = cancel_list[i];
            if self.bookings[x].status != BookingStatus::Cancelled {
                let ghost pre = *self;
                self.cancel_and_notify(x);
                proof {
                    let before_new = pre.notices@.subrange(n0 as int, pre.notices@.len() as int);
                    lemma_notice_step(bs0, pre.bookings@, before_new, x);
                    assert(self.notices@.subrange(n0 as int, self.notices@.len() as int)
                        =~= before_new.push(Notice { user: bs0[x as int].user, booking: x }));
                    assert(self.notices@.subrange(0, n0 as int) =~= pre.notices@.subrange(0, n0 as int));
                    assert(pre.bookings@[x as int].user == bs0[x as int].user);
                }
            }
            let cid = self.bookings[x].compound;
            assert(cid == bs0[x as int].compound);
            let m_len = self.compounds[cid].legs.len();
            let ghost legs = self.members()[cid as int];
            let mut m: usize = 0;
            while m < m_len
                invariant
                    self.links(),
                    list == cancel_list@,
                    bs0 == old(self).bookings@,
                nb == bs0.len(),
                    n0 == old(self).notices@.len(),
                    forall|j: int| 0 <= j < list.len() ==> #[trigger] list[j] < bs0.len(),
                    i < list.len(),
                    x == list[i as int],
                    cid == bs0[x as int].compound,
                    cid < self.compounds@.len(),
                    legs == self.members()[cid as int],
                    m_len == legs.len(),
                    m <= m_len,
                    only_cancellations(bs0, self.bookings@),
                    forall|k: int|
                        0 <= k < bs0.len() ==> #[trigger] self.bookings@[k].status == if shares_compound(
                            bs0,
                            list.take(i as int),
                            k,
                        ) || k == x || legs.take(m as int).contains(k as usize) {
                            BookingStatus::Cancelled
                        } else {
                            bs0[k].status
                        },
                    self.notices@.len() >= n0,
                    self.notices@.subrange(0, n0 as int) == old(self).notices@,
                    notices_for(
                        bs0,
                        self.bookings@,
                        self.notices@.subrange(n0 as int, self.notices@.len() as int),
                    ),
                    self.facilities@ == old(self).facilities@,
                    self.users@ == old(self).users@,
                    self.compounds@ == old(self).compounds@,
                decreases m_len - m,
            {
                let y = self.compounds[cid].legs[m];
                assert(y == legs[m as int]);
                proof {
                    assert(self.compounds@[cid as int].user < self.users@.len());
                }
                let ghost pre = *self;
                if y != x && self.bookings[y].status != BookingStatus::Cancelled {
                    self.cancel_and_notify(y);
                    proof {
                        let before_new = pre.notices@.subrange(n0 as int, pre.notices@.len() as int);
                        lemma_notice_step(bs0, pre.bookings@, before_new, y);
                        assert(self.notices@.subrange(n0 as int, self.notices@.len() as int)
                            =~= before_new.push(Notice { user: bs0[y as int].user, booking: y }));
                        assert(self.notices@.subrange(0, n0 as int) =~= pre.notices@.subrange(
                            0,
                            n0 as int,
                        ));
                        assert(pre.bookings@[y as int].user == bs0[y as int].user);
                    }
                }
                proof {
                    let t = legs.take(m + 1);
                    assert forall|k: int| 0 <= k < bs0.len() implies #[trigger] self.bookings@[k].status
                        == if shares_compound(bs0, list.take(i as int), k) || k == x || t.contains(
                        k as usize,
                    ) {
                        BookingStatus::Cancelled
                    } else {
                        bs0[k].status
                    } by {
                        assert(t[m as int] == y);
                        if t.contains(k as usize) && !legs.take(m as int).contains(k as usize) {
                            let q = choose|q: int| 0 <= q < t.len() && t[q] == k as usize;
                            if q < m {
                                assert(legs.take(m as int)[q] == k as usize);
                            }
                        }
                        if legs.take(m as int).contains(k as usize) {
                            let q = choose|q: int|
                                0 <= q < legs.take(m as int).len() && legs.take(m as int)[q]
                                    == k as usize;
                            assert(t[q] == k as usize);
                        }
                        if k == y as int {
                            assert(t[m as int] == y);
                            assert(t.contains(y));
                            if y == x || pre.bookings@[k].status == BookingStatus::Cancelled {
                                assert(self.bookings@[k] == pre.bookings@[k]);
                            } else {
                                assert(self.bookings@[k].status == BookingStatus::Cancelled);
                            }
                        } else {
                            assert(self.bookings@[k] == pre.bookings@[k]);
                        }
                    }
                }
                m += 1;
            }
            proof {
                let t = list.take(i + 1);
                assert forall|k: int| 0 <= k < bs0.len() implies #[trigger] self.bookings@[k].status
                    == if shares_compound(bs0, t, k) {
                    BookingStatus::Cancelled
                } else {
                    bs0[k].status
                } by {
                    assert(legs.take(m_len as int) =~= legs);
                    if shares_compound(bs0, list.take(i as int), k) {
                        let j = choose|j: int|
                            0 <= j < list.take(i as int).len() && #[trigger] bs0[list.take(
                                i as int,
                            )[j] as int].compound == bs0[k].compound;
                        assert(t[j] == list.take(i as int)[j]);
                    }
                    if bs0[k].compound == cid {
                        assert(self.compounds@[cid as int].user < self.users@.len());
                        assert(bs0[k] == with_status(bs0[k], bs0[k].status));
                        assert(self.bookings@[k] == with_status(bs0[k], self.bookings@[k].status));
                        assert(self.bookings@[k].compound == cid);
                        assert(self.members()[cid as int].contains(k as usize));
                        assert(t[i as int] == x);
                        assert(bs0[t[i as int] as int].compound == bs0[k].compound);
                    }
                    if shares_compound(bs0, t, k) && !shares_compound(bs0, list.take(i as int), k) {
                        let j = choose|j: int|
                            0 <= j < t.len() && #[trigger] bs0[t[j] as int].compound
                                == bs0[k].compound;
                        if j < i {
                            assert(list.take(i as int)[j] == t[j]);
                        }
                    }
                    if k == x as int {
                        assert(bs0[t[i as int] as int].compound == bs0[k].compound);
                    }
                    if legs.contains(k as usize) {
                        let q = choose|q: int| 0 <= q < legs.len() && legs[q] == k as usize;
                        assert(self.compounds@[cid as int].legs@[q] == k as usize);
                        assert(self.bookings@[k].compound == cid);
                        assert(bs0[k] == with_status(bs0[k], bs0[k].status));
                        assert(self.bookings@[k] == with_status(bs0[k], self.bookings@[k].status));
                        assert(bs0[t[i as int] as int].compound == bs0[k].compound);
                    }
                }
            }
            i += 1;
        }
        proof {
            assert(list.take(list.len() as int) =~= list);
            assert forall|k: int| 0 <= k < bs0.len() implies #[trigger] self.bookings@[k]
                == with_status(
                bs0[k],
                if shares_compound(bs0, list, k) {
                    BookingStatus::Cancelled
                } else {
                    bs0[k].status
                },
            ) by {
                assert(self.bookings@[k] == with_status(bs0[k], self.bookings@[k].status));
            }
        }
    }

    /// Sets every member of compound `c` to `Confirmed`.
    fn confirm_legs(&mut self, c: usize)
        requires
            old(self).links(),
            c < old(self).compounds@.len(),
        ensures
            final(self).links(),
            final(self).bookings@.len() == old(self).bookings@.len(),
            forall|k: int|
                0 <= k < old(self).bookings@.len() ==> #[trigger] final(self).bookings@[k]
                    == with_status(
                    old(self).bookings@[k],
                    if old(self).members()[c as int].contains(k as usize) {
                        BookingStatus::Confirmed
                    } else {
                        old(self).bookings@[k].status
                    },
                ),
            final(self).facilities@ == old(self).facilities@,
            final(self).users@ == old(self).users@,
            final(self).compounds@ == old(self).compounds@,
            final(self).notices@ == old(self).notices@,
    {
        let ghost bs0 = self.bookings@;
        let ghost legs = self.members()[c as int];
        let nb = self.bookings.len();
        let n = self.compounds[c].legs.len();
        let mut m: usize = 0;
        while m < n
            invariant
                self.links(),
                bs0 == old(self).bookings@,
                nb == bs0.len(),
                c < self.compounds@.len(),
                legs == self.members()[c as int],
                n == legs.len(),
                m <= n,
                self.bookings@.len() == bs0.len(),
                forall|k: int|
                    0 <= k < bs0.len() ==> #[trigger] self.bookings@[k] == with_status(
                        bs0[k],
                        if legs.take(m as int).contains(k as usize) {
                            BookingStatus::Confirmed
                        } else {
                            bs0[k].status
                        },
                    ),
                self.facilities@ == old(self).facilities@,
                self.users@ == old(self).users@,
                self.compounds@ == old(self).compounds@,
                self.notices@ == old(self).notices@,
            decreases n - m,
        {
            let y = self.compounds[c].legs[m];
            assert(y == legs[m as int]);
            proof {
                assert(self.compounds@[c as int].user < self.users@.len());
            }
            let ghost pre = *self;
            self.set_status(y, BookingStatus::Confirmed);
            proof {
                let t = legs.take(m + 1);
                assert(t[m as int] == y);
                assert forall|k: int| 0 <= k < bs0.len() implies #[trigger] self.bookings@[k]
                    == with_status(
                    bs0[k],
                    if t.contains(k as usize) {
                        BookingStatus::Confirmed
                    } else {
                        bs0[k].status
                    },
                ) by {
                    if t.contains(k as usize) && k != y as int {
                        let q = choose|q: int| 0 <= q < t.len() && t[q] == k as usize;
                        assert(legs.take(m as int)[q] == k as usize);
                    }
                    if legs.take(m as int).contains(k as usize) {
                        let q = choose|q: int|
                            0 <= q < legs.take(m as int).len() && legs.take(m as int)[q]
                                == k as usize;
                        assert(t[q] == k as usize);
                    }
                    if k == y as int {
                        assert(t.contains(y));
                    } else {
                        assert(self.bookings@[k] == pre.bookings@[k]);
                    }
                }
            }
            m += 1;
        }
        assert(legs.take(n as int) =~= legs);
    }

    /// Builds and commits the compound of `user`; `run_user` states the outcome.
    fn commit(&mut self, user: usize, to_book: &Vec<BookingSkeleton>, program_time: &ProgramTime) -> (r: bool)
        requires
            old(self).wf(),
            user < old(self).users@.len(),
            forall|i: int|
                0 <= i < to_book@.len() ==> #[trigger] to_book@[i].facility < old(
                    self,
                ).facilities@.len(),
            old(self).bookings@.len() + to_book@.len() <= usize::MAX,
            old(self).compounds@.len() < usize::MAX,
        ensures
            final(self).links(),
            r == old(self).compound_possible(user, to_book@, program_time.time),
            final(self).users@ == old(self).users@,
            final(self).shapes() == old(self).shapes(),
            final(self).lists().len() == old(self).lists().len(),
            forall|f: int|
                0 <= f < old(self).lists().len() ==> #[trigger] final(self).lists()[f] == old(
                    self,
                ).lists()[f] + old(self).new_entries(user, to_book@, f, program_time.time),
            final(self).compounds@.len() == old(self).compounds@.len() + 1,
            final(self).compounds@.subrange(0, old(self).compounds@.len() as int) == old(
                self,
            ).compounds@,
            final(self).compounds@[old(self).compounds@.len() as int].user == user,
            final(self).members()[old(self).compounds@.len() as int] == Seq::new(
                to_book@.len(),
                |j: int| (old(self).bookings@.len() + j) as usize,
            ),
            final(self).bookings@.len() == old(self).bookings@.len() + to_book@.len(),
            forall|j: int|
                0 <= j < to_book@.len() ==> #[trigger] final(self).bookings@[old(
                    self,
                ).bookings@.len() + j] == with_status(
                    leg_of(to_book@[j], user, old(self).compounds@.len() as usize),
                    if r {
                        BookingStatus::Confirmed
                    } else {
                        BookingStatus::Unconfirmed
                    },
                ),
            forall|k: int|
                0 <= k < old(self).bookings@.len() ==> #[trigger] final(self).bookings@[k]
                    == with_status(
                    old(self).bookings@[k],
                    if r && old(self).preempted_by(user, to_book@, program_time.time, k) {
                        BookingStatus::Cancelled
                    } else {
                        old(self).bookings@[k].status
                    },
                ),
            final(self).notices@.len() >= old(self).notices@.len(),
            final(self).notices@.subrange(0, old(self).notices@.len() as int) == old(
                self,
            ).notices@,
            notices_for(
                old(self).bookings@,
                final(self).bookings@,
                final(self).notices@.subrange(
                    old(self).notices@.len() as int,
                    final(self).notices@.len() as int,
                ),
            ),
            forall|k: int|
                0 <= k < old(self).bookings@.len() ==> status_moves_forward(
                    old(self).bookings@[k].status,
                    #[trigger] final(self).bookings@[k].status,
                ),
    {
        let ghost s0 = *self;
        let ghost now = program_time.time;
        let ghost n = s0.bookings@.len();
        let c = self.build_compound(user, to_book);
        let ghost s1 = *self;
        let ghost ids = s1.members()[c as int];
        let (possible, cancel_list) = self.check_legs(c, user, program_time, Ghost(s0), Ghost(to_book@));
        let ghost s2 = *self;
        proof {
            assert(ids =~= Seq::new(to_book@.len(), |j: int| (n + j) as usize));
            lemma_candidates(&s0, user, to_book@, now, cancel_list@);
            assert forall|k: int| 0 <= k < n implies #[trigger] s2.bookings@[k] == s0.bookings@[k] by {
                assert(s1.bookings@.subrange(0, n as int)[k] == s1.bookings@[k]);
            }
        }
        if possible {
            self.confirm_legs(c);
            let ghost s3 = *self;
            proof {
                assert forall|k: int| 0 <= k < n implies #[trigger] s3.bookings@[k] == s0.bookings@[k] by {
                    if ids.contains(k as usize) {
                        let q = choose|q: int| 0 <= q < ids.len() && ids[q] == k as usize;
                    }
                    assert(s2.bookings@[k] == with_status(s2.bookings@[k], s2.bookings@[k].status));
                }
                assert forall|j: int| 0 <= j < to_book@.len() implies #[trigger] s3.bookings@[n + j]
                    == with_status(leg_of(to_book@[j], user, c), BookingStatus::Confirmed) by {
                    assert(ids[j] == n + j);
                    assert(ids.contains((n + j) as usize));
                }
                assert forall|j: int| 0 <= j < cancel_list@.len() implies #[trigger] cancel_list@[j]
                    < s3.bookings@.len() by {
                    assert(cancel_list@.contains(cancel_list@[j]));
                }
            }
            self.cancel_preempted(&cancel_list);
            proof {
                lemma_after_cancel(
                    &s0,
                    &s3,
                    self,
                    user,
                    to_book@,
                    c,
                    now,
                    cancel_list@,
                    self.notices@.subrange(s3.notices@.len() as int, self.notices@.len() as int),
                );
            }
        } else {
            proof {
                assert forall|j: int| 0 <= j < to_book@.len() implies #[trigger] s2.bookings@[n + j]
                    == with_status(leg_of(to_book@[j], user, c), BookingStatus::Unconfirmed) by {
                    assert(s1.bookings@[n + j] == leg_of(to_book@[j], user, c));
                }
                let new = self.notices@.subrange(s0.notices@.len() as int, self.notices@.len() as int);
                assert(new.len() == 0);
                assert(self.notices@.subrange(0, s0.notices@.len() as int) =~= s0.notices@);
                assert forall|k: int| 0 <= k < n implies #[trigger] self.bookings@[k] == with_status(
                    s0.bookings@[k],
                    s0.bookings@[k].status,
                ) by {
                    assert(s2.bookings@[k] == s0.bookings@[k]);
                }
            }
        }
        possible
    }

    /// The compound commit protocol for one user: builds the compound of `user` from
    /// `to_book`, checks every leg in order (a leg admitted earlier takes capacity
    /// against the later ones), and, if all are admitted, confirms every leg and
    /// cancels each named preemption candidate together with the other members of its
    /// compound, notifying their owners. Otherwise the legs stay `Unconfirmed`.
    /// Returns whether the compound was confirmed.
    pub fn run_user(&mut self, user: usize, to_book: &Vec<BookingSkeleton>, program_time: &ProgramTime) -> (r: bool)
        requires
            old(self).wf(),
            user < old(self).users@.len(),
            forall|i: int|
                0 <= i < to_book@.len() ==> #[trigger] to_book@[i].facility < old(
                    self,
                ).facilities@.len(),
            old(self).bookings@.len() + to_book@.len() <= usize::MAX,
            old(self).compounds@.len() < usize::MAX,
            forall|i: int| 0 <= i < to_book@.len() ==> #[trigger] to_book@[i].start < to_book@[i].end,
        ensures
            final(self).wf(),
            committed(old(self), final(self), user, to_book@, program_time.time, r),
            final(self).facilities@.len() == old(self).facilities@.len(),
            final(self).users@ == old(self).users@,
            final(self).shapes() == old(self).shapes(),
            final(self).lists().len() == old(self).lists().len(),
            final(self).compounds@.len() == old(self).compounds@.len() + 1,
            final(self).compounds@.subrange(0, old(self).compounds@.len() as int) == old(
                self,
            ).compounds@,
            final(self).compounds@[old(self).compounds@.len() as int].user == user,
            final(self).members()[old(self).compounds@.len() as int] == Seq::new(
                to_book@.len(),
                |j: int| (old(self).bookings@.len() + j) as usize,
            ),
            final(self).notices@.len() >= old(self).notices@.len(),
            final(self).notices@.subrange(0, old(self).notices@.len() as int) == old(
                self,
            ).notices@,
            notices_for(
                old(self).bookings@,
                final(self).bookings@,
                final(self).notices@.subrange(
                    old(self).notices@.len() as int,
                    final(self).notices@.len() as int,
                ),
            ),
            forall|k: int|
                0 <= k < old(self).bookings@.len() ==> status_moves_forward(
                    old(self).bookings@[k].status,
                    #[trigger] final(self).bookings@[k].status,
                ),
            forall|k: int|
                0 <= k < old(self).bookings@.len() && old(self).bookings@[k].status
                    != BookingStatus::Cancelled && #[trigger] final(self).bookings@[k].status
                    == BookingStatus::Cancelled ==> old(self).bookings@[k].status
                    == BookingStatus::Confirmed,
            old(self).within_capacity() && old(self).commit_keeps_capacity(
                user,
                to_book@,
                program_time.time,
            ) ==> final(self).within_capacity(),
    {
        let ghost s0 = *self;
        let r = self.commit(user, to_book, program_time);
        proof {
            assert forall|f: int| 0 <= f < s0.facilities@.len() implies #[trigger] self.facilities@[f].capacity
                == s0.facilities@[f].capacity by {
                assert(self.shapes()[f] == s0.shapes()[f]);
            }
            assert(self.facilities@.len() == self.shapes().len());
            lemma_commit_settles(&s0, self, user, to_book@, program_time.time, r);
            if s0.within_capacity() && s0.commit_keeps_capacity(user, to_book@, program_time.time) {
                law_capacity_kept(&s0, self, user, to_book@, program_time.time, r);
            }
        }
        r
    }

    /// Submits the single booking `booking` of `user` as a compound of its own: it is
    /// confirmed exactly when the admission check admits it, and a booking it preempts
    /// is cancelled with the rest of that booking's compound.
    pub fn book_facility(&mut self, user: usize, booking: BookingSkeleton, program_time: &ProgramTime) -> (r: bool)
        requires
            old(self).wf(),
            user < old(self).users@.len(),
            booking.facility < old(self).facilities@.len(),
            old(self).bookings@.len() < usize::MAX,
            old(self).compounds@.len() < usize::MAX,
            booking.start < booking.end,
        ensures
            final(self).wf(),
            r == old(self).admits_now(
                leg_of(booking, user, old(self).compounds@.len() as usize),
                program_time.time,
            ),
            final(self).facilities@.len() == old(self).facilities@.len(),
            final(self).compounds@.len() == old(self).compounds@.len() + 1,
            final(self).users@ == old(self).users@,
            final(self).shapes() == old(self).shapes(),
            final(self).lists() == if r {
                let f = booking.facility as int;
                old(self).lists().update(
                    f,
                    old(self).lists()[f].push(old(self).bookings@.len() as usize),
                )
            } else {
                old(self).lists()
            },
            final(self).bookings@.len() == old(self).bookings@.len() + 1,
            final(self).bookings@[old(self).bookings@.len() as int] == with_status(
                leg_of(booking, user, old(self).compounds@.len() as usize),
                if r {
                    BookingStatus::Confirmed
                } else {
                    BookingStatus::Unconfirmed
                },
            ),
            forall|k: int|
                0 <= k < old(self).bookings@.len() ==> #[trigger] final(self).bookings@[k]
                    == with_status(
                    old(self).bookings@[k],
                    if r && old(self).preempted_by(user, seq![booking], program_time.time, k) {
                        BookingStatus::Cancelled
                    } else {
                        old(self).bookings@[k].status
                    },
                ),
            final(self).notices@.len() >= old(self).notices@.len(),
            final(self).notices@.subrange(0, old(self).notices@.len() as int) == old(
                self,
            ).notices@,
            notices_for(
                old(self).bookings@,
                final(self).bookings@,
                final(self).notices@.subrange(
                    old(self).notices@.len() as int,
                    final(self).notices@.len() as int,
                ),
            ),
            forall|k: int|
                0 <= k < old(self).bookings@.len() && old(self).bookings@[k].status
                    != BookingStatus::Cancelled && #[trigger] final(self).bookings@[k].status
                    == BookingStatus::Cancelled ==> old(self).bookings@[k].status
                    == BookingStatus::Confirmed,
            old(self).within_capacity() && old(self).commit_keeps_capacity(
                user,
                seq![booking],
                program_time.time,
            ) ==> final(self).within_capacity(),
    {
        let to_book = vec![booking];
        assert(to_book@ =~= seq![booking]);
        let ghost s0 = *self;
        let r = self.run_user(user, &to_book, program_time);
        proof {
            let now = program_time.time;
            let n = s0.bookings@.len();
            let c = s0.compounds@.len() as usize;
            let b = leg_of(booking, user, c);
            assert(to_book@ =~= seq![booking]);
            assert(to_book@[0] == booking);
            let f0 = booking.facility as int;
            let arena = s0.arena_with(user, to_book@);
            assert(s0.entries_upto(user, to_book@, now, 0, f0) =~= Seq::<usize>::empty());
            assert(s0.leg_list(user, to_book@, now, 0) =~= s0.lists()[f0]);
            assert forall|j: int| 0 <= j < s0.lists()[f0].len() implies s0.lists()[f0][j]
                < s0.bookings@.len() by {
                assert(s0.lists()[f0][j] == s0.facilities@[f0].bookings@[j]);
            }
            lemma_counts_arena_extended(s0.lists()[f0], s0.bookings@, arena, s0.users@, b);
            assert(s0.leg_admitted(user, to_book@, now, 0) == s0.admits_now(b, now));
            assert(r == s0.admits_now(b, now)) by {
                if r {
                    assert(s0.leg_admitted(user, to_book@, now, 0));
                } else if s0.admits_now(b, now) {
                    assert forall|i: int| 0 <= i < to_book@.len() implies #[trigger] s0.leg_admitted(
                        user,
                        to_book@,
                        now,
                        i,
                    ) by {
                        assert(i == 0);
                    }
                }
            }
            assert(self.bookings@[n as int + 0] == self.bookings@[n as int]);
            assert forall|f: int| 0 <= f < s0.lists().len() implies s0.new_entries(user, to_book@, f, now)
                == if r && f == booking.facility {
                seq![n as usize]
            } else {
                Seq::<usize>::empty()
            } by {
                assert(s0.entries_upto(user, to_book@, now, 0, f) =~= Seq::<usize>::empty());
                assert(s0.lists()[f] + Seq::<usize>::empty() =~= s0.lists()[f]);
                if f == f0 {
                    assert(s0.lists()[f] + s0.entries_upto(user, to_book@, now, 0, f) =~= s0.leg_list(
                        user,
                        to_book@,
                        now,
                        0,
                    ));
                }
            }
            let expected = if r {
                s0.lists().update(booking.facility as int, s0.lists()[booking.facility as int].push(n as usize))
            } else {
                s0.lists()
            };
            assert forall|f: int| 0 <= f < s0.lists().len() implies self.lists()[f] == expected[f] by {
                if r && f == booking.facility {
                    assert(self.lists()[f] =~= s0.lists()[f].push(n as usize));
                } else {
                    assert(self.lists()[f] =~= s0.lists()[f]);
                }
            }
            assert(self.lists() =~= expected);
        }
        r
    }
}

/// Facts about a freshly built compound `c` of `user` from `skels`: state `s1` is `s0`
/// with the legs appended.
pub open spec fn fresh_compound(
    s0: &ReservationSystem,
    s1: &ReservationSystem,
    user: usize,
    skels: Seq<BookingSkeleton>,
    c: usize,
) -> bool {
    let n = s0.bookings@.len();
    &&& c == s0.compounds@.len()
    &&& s1.facilities@ == s0.facilities@
    &&& s1.users@ == s0.users@
    &&& s1.bookings@.len() == n + skels.len()
    &&& s1.bookings@.subrange(0, n as int) == s0.bookings@
    &&& forall|j: int|
        0 <= j < skels.len() ==> #[trigger] s1.bookings@[n + j] == leg_of(skels[j], user, c)
    &&& s1.members()[c as int].len() == skels.len()
    &&& forall|j: int| 0 <= j < skels.len() ==> #[trigger] s1.members()[c as int][j] == n + j
}

/// The entries that the checks of the first `m` legs append are arena indices of legs.
pub proof fn lemma_entries_upto_range(
    s0: &ReservationSystem,
    user: usize,
    skels: Seq<BookingSkeleton>,
    now: u32,
    m: int,
    f: int,
)
    requires
        0 <= m <= skels.len(),
        s0.bookings@.len() + skels.len() <= usize::MAX,
    ensures
        forall|q: int|
            0 <= q < s0.entries_upto(user, skels, now, m, f).len() ==> s0.bookings@.len()
                <= #[trigger] s0.entries_upto(user, skels, now, m, f)[q] < s0.bookings@.len() + m,
    decreases m,
{
    if m > 0 {
        lemma_entries_upto_range(s0, user, skels, now, m - 1, f);
        let prev = s0.entries_upto(user, skels, now, m - 1, f);
        let e = s0.entries_upto(user, skels, now, m, f);
        assert forall|q: int| 0 <= q < e.len() implies s0.bookings@.len() <= #[trigger] e[q]
            < s0.bookings@.len() + m by {
            if q < prev.len() {
                assert(e[q] == prev[q]);
            }
        }
    }
}

/// A booking that a leg names for preemption is an existing, `Confirmed`,
/// non-privileged booking.
pub proof fn lemma_leg_candidate(
    s0: &ReservationSystem,
    user: usize,
    skels: Seq<BookingSkeleton>,
    now: u32,
    i: int,
)
    requires
        s0.links(),
        0 <= i < skels.len(),
        skels[i].facility < s0.facilities@.len(),
        s0.bookings@.len() + skels.len() <= usize::MAX,
    ensures
        s0.leg_preemption(user, skels, now, i) matches Some(x) ==> {
            &&& x < s0.bookings@.len()
            &&& s0.bookings@[x as int].status == BookingStatus::Confirmed
            &&& !s0.users@[s0.bookings@[x as int].user as int].vip
        },
{
    let n = s0.bookings@.len();
    let f = skels[i].facility as int;
    let list = s0.leg_list(user, skels, now, i);
    let arena = s0.arena_with(user, skels);
    let b = leg_of(skels[i], user, s0.compounds@.len() as usize);
    if let Some(x) = s0.leg_preemption(user, skels, now, i) {
        lemma_candidate_in_list(list, arena, s0.users@, b);
        let q = choose|q: int| 0 <= q < list.len() && list[q] == x;
        let base = s0.lists()[f];
        let e = s0.entries_upto(user, skels, now, i, f);
        if q < base.len() {
            assert(base[q] == s0.facilities@[f].bookings@[q]);
            assert(x < n);
        } else {
            lemma_entries_upto_range(s0, user, skels, now, i, f);
            assert(list[q] == e[q - base.len()]);
            assert(arena[x as int] == leg_of(skels[x - n], user, s0.compounds@.len() as usize));
        }
        assert(arena[x as int] == s0.bookings@[x as int]);
    }
}

/// Every candidate that the checks collected is an existing booking.
proof fn lemma_candidates(
    s0: &ReservationSystem,
    user: usize,
    skels: Seq<BookingSkeleton>,
    now: u32,
    list: Seq<usize>,
)
    requires
        s0.links(),
        forall|i: int| 0 <= i < skels.len() ==> #[trigger] skels[i].facility < s0.facilities@.len(),
        s0.bookings@.len() + skels.len() <= usize::MAX,
        forall|x: usize|
            list.contains(x) <==> exists|i: int|
                0 <= i < skels.len() && #[trigger] s0.leg_preemption(user, skels, now, i) == Some(x),
    ensures
        forall|x: usize| #[trigger] list.contains(x) ==> x < s0.bookings@.len(),
{
    assert forall|x: usize| #[trigger] list.contains(x) implies x < s0.bookings@.len() by {
        let i = choose|i: int|
            0 <= i < skels.len() && #[trigger] s0.leg_preemption(user, skels, now, i) == Some(x);
        lemma_leg_candidate(s0, user, skels, now, i);
    }
}

/// What the cancellations after a confirmed commit amount to, stated against the state
/// before the commit.
proof fn lemma_after_cancel(
    s0: &ReservationSystem,
    s3: &ReservationSystem,
    s4: &ReservationSystem,
    user: usize,
    skels: Seq<BookingSkeleton>,
    c: usize,
    now: u32,
    list: Seq<usize>,
    new: Seq<Notice>,
)
    requires
        s0.wf(),
        c == s0.compounds@.len(),
        s3.bookings@.len() == s0.bookings@.len() + skels.len(),
        forall|k: int| 0 <= k < s0.bookings@.len() ==> #[trigger] s3.bookings@[k] == s0.bookings@[k],
        forall|j: int|
            0 <= j < skels.len() ==> #[trigger] s3.bookings@[s0.bookings@.len() + j] == with_status(
                leg_of(skels[j], user, c),
                BookingStatus::Confirmed,
            ),
        forall|x: usize| #[trigger]
            list.contains(x) ==> x < s0.bookings@.len() && exists|i: int|
                0 <= i < skels.len() && #[trigger] s0.leg_preemption(user, skels, now, i) == Some(x),
        forall|i: int|
            0 <= i < skels.len() ==> (#[trigger] s0.leg_preemption(user, skels, now, i) matches Some(x) ==> list.contains(x)),
        s4.bookings@.len() == s3.bookings@.len(),
        forall|k: int|
            0 <= k < s3.bookings@.len() ==> #[trigger] s4.bookings@[k] == with_status(
                s3.bookings@[k],
                if shares_compound(s3.bookings@, list, k) {
                    BookingStatus::Cancelled
                } else {
                    s3.bookings@[k].status
                },
            ),
        notices_for(s3.bookings@, s4.bookings@, new),
    ensures
        forall|k: int|
            0 <= k < s0.bookings@.len() ==> #[trigger] s4.bookings@[k] == with_status(
                s0.bookings@[k],
                if s0.preempted_by(user, skels, now, k) {
                    BookingStatus::Cancelled
                } else {
                    s0.bookings@[k].status
                },
            ),
        forall|j: int|
            0 <= j < skels.len() ==> #[trigger] s4.bookings@[s0.bookings@.len() + j] == with_status(
                leg_of(skels[j], user, c),
                BookingStatus::Confirmed,
            ),
        notices_for(s0.bookings@, s4.bookings@, new),
{
    let n = s0.bookings@.len();
    assert forall|k: int| 0 <= k < n implies shares_compound(s3.bookings@, list, k)
        == s0.preempted_by(user, skels, now, k) by {
        if shares_compound(s3.bookings@, list, k) {
            let j = choose|j: int|
                0 <= j < list.len() && #[trigger] s3.bookings@[list[j] as int].compound
                    == s3.bookings@[k].compound;
            let x = list[j];
            assert(list.contains(x));
            let i = choose|i: int|
                0 <= i < skels.len() && #[trigger] s0.leg_preemption(user, skels, now, i)
                    == Some(x);
            assert(s3.bookings@[x as int] == s0.bookings@[x as int]);
        }
        if s0.preempted_by(user, skels, now, k) {
            let i = choose|i: int|
                0 <= i < skels.len() && (#[trigger] s0.leg_preemption(user, skels, now, i) matches Some(x) && s0.bookings@[x as int].compound == s0.bookings@[k].compound);
            let x = s0.leg_preemption(user, skels, now, i).unwrap();
            assert(list.contains(x));
            let j = choose|j: int| 0 <= j < list.len() && list[j] == x;
            assert(s3.bookings@[x as int] == s0.bookings@[x as int]);
            assert(s3.bookings@[list[j] as int].compound == s3.bookings@[k].compound);
        }
    }
    assert forall|j: int| 0 <= j < skels.len() implies #[trigger] s4.bookings@[n + j]
        == with_status(leg_of(skels[j], user, c), BookingStatus::Confirmed) by {
        let k = n + j;
        assert(s3.bookings@[k] == with_status(leg_of(skels[j], user, c), BookingStatus::Confirmed));
        if shares_compound(s3.bookings@, list, k) {
            let q = choose|q: int|
                0 <= q < list.len() && #[trigger] s3.bookings@[list[q] as int].compound
                    == s3.bookings@[k].compound;
            let x = list[q];
            assert(list.contains(x));
            assert(s3.bookings@[x as int] == s0.bookings@[x as int]);
            assert(s0.bookings@[x as int].compound < c);
        }
    }
    assert forall|q: int| 0 <= q < new.len() implies #[trigger] new[q].booking < n by {
        let k = new[q].booking as int;
        if k >= n {
            assert(s4.bookings@[n + (k - n)] == with_status(
                leg_of(skels[k - n], user, c),
                BookingStatus::Confirmed,
            ));
        }
    }
    assert forall|k: int|
        0 <= k < n && s0.bookings@[k].status != BookingStatus::Cancelled
            && #[trigger] s4.bookings@[k].status == BookingStatus::Cancelled implies exists|q: int|
        0 <= q < new.len() && new[q].booking == k by {
        assert(s3.bookings@[k] == s0.bookings@[k]);
    }
    assert forall|q: int| 0 <= q < new.len() implies {
        let k = #[trigger] new[q].booking as int;
        &&& 0 <= k < n
        &&& new[q].user == s0.bookings@[k].user
        &&& s0.bookings@[k].status != BookingStatus::Cancelled
        &&& s4.bookings@[k].status == BookingStatus::Cancelled
    } by {
        let k = new[q].booking as int;
        assert(k < n);
        assert(s3.bookings@[k] == s0.bookings@[k]);
    }
}

/// After a commit every compound is still settled, and the only bookings it cancels are
/// ones that were `Confirmed`.
proof fn lemma_commit_settles(
    s0: &ReservationSystem,
    s1: &ReservationSystem,
    user: usize,
    skels: Seq<BookingSkeleton>,
    now: u32,
    r: bool,
)
    requires
        s0.wf(),
        committed(s0, s1, user, skels, now, r),
        forall|i: int| 0 <= i < skels.len() ==> #[trigger] skels[i].facility < s0.facilities@.len(),
        s0.bookings@.len() + skels.len() <= usize::MAX,
    ensures
        s1.settled(),
        forall|k: int|
            0 <= k < s0.bookings@.len() && s0.bookings@[k].status != BookingStatus::Cancelled
                && #[trigger] s1.bookings@[k].status == BookingStatus::Cancelled ==> s0.bookings@[k].status
                == BookingStatus::Confirmed,
{
    let n = s0.bookings@.len();
    let c = s0.compounds@.len() as usize;
    assert(s0.compounds@.len() == s0.compounds.len());
    assert forall|k: int| 0 <= k < n && #[trigger] s0.preempted_by(user, skels, now, k) implies s0.bookings@[k].status
        != BookingStatus::Unconfirmed by {
        let i = choose|i: int|
            0 <= i < skels.len() && (#[trigger] s0.leg_preemption(user, skels, now, i) matches Some(
                x,
            ) && s0.bookings@[x as int].compound == s0.bookings@[k].compound);
        lemma_leg_candidate(s0, user, skels, now, i);
        let x = s0.leg_preemption(user, skels, now, i).unwrap();
        assert(s0.bookings@[x as int].compound == s0.bookings@[k].compound);
    }
    assert forall|k: int|
        0 <= k < n && s0.bookings@[k].status != BookingStatus::Cancelled
            && #[trigger] s1.bookings@[k].status == BookingStatus::Cancelled implies s0.bookings@[k].status
        == BookingStatus::Confirmed by {
        assert(s1.bookings@[k] == s1.bookings@[k]);
        if !s0.preempted_by(user, skels, now, k) {
            assert(s1.bookings@[k].status == s0.bookings@[k].status);
        }
    }
    assert forall|k1: int, k2: int|
        0 <= k1 < s1.bookings@.len() && 0 <= k2 < s1.bookings@.len()
            && #[trigger] s1.bookings@[k1].compound == #[trigger] s1.bookings@[k2].compound
            && s1.bookings@[k1].status == BookingStatus::Confirmed implies s1.bookings@[k2].status
        != BookingStatus::Unconfirmed by {
        if k1 < n && k2 < n {
            assert(s1.bookings@[k1] == with_status(
                s0.bookings@[k1],
                if r && s0.preempted_by(user, skels, now, k1) {
                    BookingStatus::Cancelled
                } else {
                    s0.bookings@[k1].status
                },
            ));
            assert(s1.bookings@[k2] == with_status(
                s0.bookings@[k2],
                if r && s0.preempted_by(user, skels, now, k2) {
                    BookingStatus::Cancelled
                } else {
                    s0.bookings@[k2].status
                },
            ));
            assert(s0.preempted_by(user, skels, now, k1) == s0.preempted_by(user, skels, now, k2));
        } else if k1 >= n && k2 >= n {
            assert(s1.bookings@[n + (k1 - n)] == s1.bookings@[k1]);
            assert(s1.bookings@[n + (k2 - n)] == s1.bookings@[k2]);
        } else if k1 < n {
            assert(s1.bookings@[k1].compound == s0.bookings@[k1].compound);
            assert(s0.bookings@[k1].compound < c);
            assert(s1.bookings@[n + (k2 - n)] == s1.bookings@[k2]);
        } else {
            assert(s1.bookings@[k2].compound == s0.bookings@[k2].compound);
            assert(s0.bookings@[k2].compound < c);
            assert(s1.bookings@[n + (k1 - n)] == s1.bookings@[k1]);
        }
    }
}

} // verus!
