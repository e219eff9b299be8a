//! The admission decision for one booking against one facility's booking list.
use vstd::prelude::*;
use crate::model::{bookings_overlap, Booking, BookingStatus, User};

verus! {

/// Whether the privileged flag of the owner of booking `k` is set.
pub open spec fn owner_is_vip(bs: Seq<Booking>, users: Seq<User>, k: usize) -> bool {
    users[bs[k as int].user as int].vip
}

/// Whether entry `k` is a `Confirmed` booking whose interval overlaps `b`.
pub open spec fn confirmed_overlap(bs: Seq<Booking>, k: usize, b: Booking) -> bool {
    bs[k as int].status == BookingStatus::Confirmed && bookings_overlap(bs[k as int], b)
}

/// Whether entry `k` takes capacity as `b` is checked: it is `Confirmed`, or it is a
/// still `Unconfirmed` member of `b`'s own compound, admitted before `b`.
pub open spec fn takes_capacity(bs: Seq<Booking>, k: usize, b: Booking) -> bool {
    ||| bs[k as int].status == BookingStatus::Confirmed
    ||| (bs[k as int].status == BookingStatus::Unconfirmed && bs[k as int].compound == b.compound)
}

/// Whether entry `k` takes capacity and its interval overlaps `b`.
pub open spec fn counted_overlap(bs: Seq<Booking>, k: usize, b: Booking) -> bool {
    takes_capacity(bs, k, b) && bookings_overlap(bs[k as int], b)
}

/// Number of entries of `list` that take capacity and overlap `b`.
pub open spec fn overlap_count(list: Seq<usize>, bs: Seq<Booking>, b: Booking) -> nat
    decreases list.len(),
{
    if list.len() == 0 {
        0
    } else {
        overlap_count(list.drop_last(), bs, b) + if counted_overlap(bs, list.last(), b) {
            1nat
        } else {
            0nat
        }
    }
}

/// Number of entries of `list` that take capacity, overlap `b`, and belong to a
/// privileged user.
pub open spec fn vip_overlap_count(
    list: Seq<usize>,
    bs: Seq<Booking>,
    users: Seq<User>,
    b: Booking,
) -> nat
    decreases list.len(),
{
    if list.len() == 0 {
        0
    } else {
        vip_overlap_count(list.drop_last(), bs, users, b) + if counted_overlap(
            bs,
            list.last(),
            b,
        ) && owner_is_vip(bs, users, list.last()) {
            1nat
        } else {
            0nat
        }
    }
}

/// Whether entry `k` may be preempted by `b`: `Confirmed`, overlapping, not privileged.
pub open spec fn preemptible(bs: Seq<Booking>, users: Seq<User>, k: usize, b: Booking) -> bool {
    confirmed_overlap(bs, k, b) && !owner_is_vip(bs, users, k)
}

/// The earliest entry of `list` that `b` may preempt.
pub open spec fn first_candidate(
    list: Seq<usize>,
    bs: Seq<Booking>,
    users: Seq<User>,
    b: Booking,
) -> Option<usize>
    decreases list.len(),
{
    if list.len() == 0 {
        None
    } else if preemptible(bs, users, list[0], b) {
        Some(list[0])
    } else {
        first_candidate(list.subrange(1, list.len() as int), bs, users, b)
    }
}

/// Whether `b`, by a user whose privilege is `vip`, is admitted to a facility of
/// capacity `cap` whose booking list is `list`, at tick `now`.
pub open spec fn admits(
    list: Seq<usize>,
    bs: Seq<Booking>,
    users: Seq<User>,
    cap: u32,
    b: Booking,
    now: u32,
) -> bool {
    let vip = users[b.user as int].vip;
    let ov = overlap_count(list, bs, b);
    let pov = vip_overlap_count(list, bs, users, b);
    !(b.start < now) && !((ov >= cap && !vip) || (vip && pov >= cap))
}

/// The booking that `b` would preempt, if any: only a privileged `b` that finds the
/// capacity taken, but not all by privileged bookings, names one.
pub open spec fn preemption(
    list: Seq<usize>,
    bs: Seq<Booking>,
    users: Seq<User>,
    cap: u32,
    b: Booking,
    now: u32,
) -> Option<usize> {
    let vip = users[b.user as int].vip;
    let ov = overlap_count(list, bs, b);
    let pov = vip_overlap_count(list, bs, users, b);
    if !(b.start < now) && vip && ov >= cap && pov < cap {
        first_candidate(list, bs, users, b)
    } else {
        None
    }
}

/// The counts never exceed the number of entries.
pub proof fn lemma_counts_bounded(list: Seq<usize>, bs: Seq<Booking>, users: Seq<User>, b: Booking)
    ensures
        vip_overlap_count(list, bs, users, b) <= overlap_count(list, bs, b),
        overlap_count(list, bs, b) <= list.len(),
    decreases list.len(),
{
    if list.len() > 0 {
        lemma_counts_bounded(list.drop_last(), bs, users, b);
    }
}

/// A found candidate is an entry of the list that `b` may preempt.
pub proof fn lemma_candidate_in_list(
    list: Seq<usize>,
    bs: Seq<Booking>,
    users: Seq<User>,
    b: Booking,
)
    ensures
        first_candidate(list, bs, users, b) matches Some(k) ==> list.contains(k) && preemptible(
            bs,
            users,
            k,
            b,
        ),
    decreases list.len(),
{
    if list.len() > 0 && !preemptible(bs, users, list[0], b) {
        let rest = list.subrange(1, list.len() as int);
        lemma_candidate_in_list(rest, bs, users, b);
        if let Some(k) = first_candidate(rest, bs, users, b) {
            let j = choose|j: int| 0 <= j < rest.len() && rest[j] == k;
            assert(list[j + 1] == k);
        }
    }
}

/// The counts and the candidate depend only on the entries that the list names.
pub proof fn lemma_counts_arena_extended(
    list: Seq<usize>,
    bs: Seq<Booking>,
    bs2: Seq<Booking>,
    users: Seq<User>,
    b: Booking,
)
    requires
        forall|j: int| 0 <= j < list.len() ==> list[j] < bs.len(),
        bs.len() <= bs2.len(),
        forall|k: int| 0 <= k < bs.len() ==> bs2[k] == bs[k],
    ensures
        overlap_count(list, bs2, b) == overlap_count(list, bs, b),
        vip_overlap_count(list, bs2, users, b) == vip_overlap_count(list, bs, users, b),
        first_candidate(list, bs2, users, b) == first_candidate(list, bs, users, b),
    decreases list.len(),
{
    if list.len() > 0 {
        let init = list.drop_last();
        let rest = list.subrange(1, list.len() as int);
        assert forall|j: int| 0 <= j < init.len() implies init[j] < bs.len() by {
            assert(init[j] == list[j]);
        }
        assert forall|j: int| 0 <= j < rest.len() implies rest[j] < bs.len() by {
            assert(rest[j] == list[j + 1]);
        }
        lemma_counts_arena_extended(init, bs, bs2, users, b);
        lemma_counts_arena_extended(rest, bs, bs2, users, b);
        assert(list.last() == list[list.len() - 1]);
    }
}

/// For a privileged `b` whose compound-mates in the list are its owner's: where no
/// entry can be preempted, every entry counted against `b` is privileged.
pub proof fn lemma_no_candidate_all_vip(
    list: Seq<usize>,
    bs: Seq<Booking>,
    users: Seq<User>,
    b: Booking,
)
    requires
        first_candidate(list, bs, users, b) == None::<usize>,
        users[b.user as int].vip,
        forall|j: int|
            0 <= j < list.len() && bs[list[j] as int].compound == b.compound ==> #[trigger] bs[list[j] as int].user
                == b.user,
    ensures
        overlap_count(list, bs, b) == vip_overlap_count(list, bs, users, b),
{
    lemma_none_means_no_preemptible(list, bs, users, b);
    lemma_counts_equal_without_preemptible(list, bs, users, b);
}

proof fn lemma_none_means_no_preemptible(
    list: Seq<usize>,
    bs: Seq<Booking>,
    users: Seq<User>,
    b: Booking,
)
    requires
        first_candidate(list, bs, users, b) == None::<usize>,
    ensures
        forall|j: int| 0 <= j < list.len() ==> !preemptible(bs, users, #[trigger] list[j], b),
    decreases list.len(),
{
    if list.len() > 0 {
        let rest = list.subrange(1, list.len() as int);
        lemma_none_means_no_preemptible(rest, bs, users, b);
        assert forall|j: int| 0 <= j < list.len() implies !preemptible(bs, users, #[trigger] list[j], b) by {
            if j > 0 {
                assert(list[j] == rest[j - 1]);
            }
        }
    }
}

proof fn lemma_counts_equal_without_preemptible(
    list: Seq<usize>,
    bs: Seq<Booking>,
    users: Seq<User>,
    b: Booking,
)
    requires
        forall|j: int| 0 <= j < list.len() ==> !preemptible(bs, users, #[trigger] list[j], b),
        users[b.user as int].vip,
        forall|j: int|
            0 <= j < list.len() && bs[list[j] as int].compound == b.compound ==> #[trigger] bs[list[j] as int].user
                == b.user,
    ensures
        overlap_count(list, bs, b) == vip_overlap_count(list, bs, users, b),
    decreases list.len(),
{
    if list.len() > 0 {
        let init = list.drop_last();
        assert forall|j: int| 0 <= j < init.len() implies !preemptible(bs, users, #[trigger] init[j], b) by {
            assert(init[j] == list[j]);
        }
        assert forall|j: int|
            0 <= j < init.len() && bs[init[j] as int].compound == b.compound implies #[trigger] bs[init[j] as int].user
                == b.user by {
            assert(init[j] == list[j]);
        }
        lemma_counts_equal_without_preemptible(init, bs, users, b);
        assert(list.last() == list[list.len() - 1]);
    }
}

} // verus!
