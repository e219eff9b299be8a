//! Properties of the commit protocol that hold for every state and every submission.
use vstd::prelude::*;
use crate::commit::lemma_leg_candidate;
use crate::engine::ReservationSystem;
use crate::model::BookingSkeleton;

verus! {

/// A booking of a privileged user is never cancelled by a commit, whoever submits it:
/// only non-privileged bookings are named for preemption, and the cascade stays within
/// the named booking's compound, whose members all belong to that same user.
pub proof fn law_privileged_never_preempted(
    s: &ReservationSystem,
    user: usize,
    skels: Seq<BookingSkeleton>,
    now: u32,
    k: int,
)
    requires
        s.wf(),
        0 <= k < s.bookings@.len(),
        s.users@[s.bookings@[k].user as int].vip,
        forall|i: int| 0 <= i < skels.len() ==> #[trigger] skels[i].facility < s.facilities@.len(),
        s.bookings@.len() + skels.len() <= usize::MAX,
    ensures
        !s.preempted_by(user, skels, now, k),
{
    assert forall|i: int| 0 <= i < skels.len() implies !(#[trigger] s.leg_preemption(
        user,
        skels,
        now,
        i,
    ) matches Some(x) && s.bookings@[x as int].compound == s.bookings@[k].compound) by {
        lemma_leg_candidate(s, user, skels, now, i);
        if let Some(x) = s.leg_preemption(user, skels, now, i) {
            let bx = s.bookings@[x as int];
            let bk = s.bookings@[k];
            if bx.compound == bk.compound {
                assert(s.compounds@[bx.compound as int].user == bx.user);
                assert(s.compounds@[bk.compound as int].user == bk.user);
            }
        }
    }
}

} // verus!
