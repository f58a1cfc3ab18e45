//! Value records exchanged with the scheduling engine, together with the
//! specification-level predicates that the engine's contracts are stated over.

use vstd::prelude::*;

verus! {

/// A physical room. Rooms are identified by `name`; within one request no two
/// rooms may share a name (caller responsibility, stated as a precondition of
/// the engine).
#[derive(Debug)]
pub struct Room {
    pub name: String,
    pub capacity: u32,
}

impl Clone for Room {
    fn clone(&self) -> (r: Self)
        ensures
            r == *self,
    {
        Room { name: self.name.clone(), capacity: self.capacity }
    }
}

/// A time-boxed activity. `time_slots` is an ascending, contiguous run of
/// discrete slot indices: its first element is the start slot, its last the
/// end slot (inclusive). `room` is `None` until the engine assigns a room.
#[derive(Debug)]
pub struct Activity {
    pub id: u32,
    pub subject: String,
    pub room: Option<Room>,
    pub time_slots: Vec<u32>,
    pub students_count: u32,
}

/// The body of a scheduling request: the activities to place and the pool of
/// rooms available to them.
#[derive(Debug)]
pub struct ActivitiesRequest {
    pub activities: Vec<Activity>,
    pub rooms: Vec<Room>,
}

/// The claims carried by an access token. Only `sub`, `rol`, `user_id` and
/// `token_type` are inspected by this library; `exp` is enforced by the
/// token-decoding layer.
#[derive(Debug)]
pub struct Claims {
    pub sub: String,
    pub exp: usize,
    pub user_id: i64,
    pub rol: String,
    pub token_type: String,
}

/// How a scheduling run can fail as a whole.
#[derive(Debug)]
pub enum SchedulerError {
    /// There are fewer rooms than the peak number of simultaneously active
    /// activities, so no complete assignment can exist.
    CapacityInfeasible,
    /// Reserved for states the implementation proves unreachable; the engine's
    /// contract shows it is never returned.
    InternalInvariantViolation,
}

/// An activity's slot list is well-formed when it is non-empty and contiguous
/// ascending: slot `k` of the run equals the start slot plus `k`.
pub open spec fn act_wf(a: Activity) -> bool {
    &&& a.time_slots@.len() > 0
    &&& forall|k: int|
        0 <= k < a.time_slots@.len() ==> #[trigger] a.time_slots@[k] == a.time_slots@[0] + k
}

/// The start slot of a well-formed activity.
pub open spec fn a_first(a: Activity) -> u32 {
    a.time_slots@[0]
}

/// The end slot (inclusive) of a well-formed activity.
pub open spec fn a_last(a: Activity) -> u32 {
    a.time_slots@[a.time_slots@.len() - 1]
}

/// Whether the activity occupies time slot `t`.
pub open spec fn in_slot(a: Activity, t: u32) -> bool {
    a.time_slots@.contains(t)
}

/// Whether two activities are active during at least one common time slot.
pub open spec fn shares_slot(a: Activity, b: Activity) -> bool {
    exists|t: u32| in_slot(a, t) && in_slot(b, t)
}

/// The same activity with no room assigned; scheduling output is related to
/// input through this erasure.
pub open spec fn erase_room(a: Activity) -> Activity {
    Activity { room: None, ..a }
}

/// For a well-formed activity, occupying slot `t` is the same as lying in the
/// inclusive interval from its first to its last slot.
pub proof fn lemma_in_slot_interval(a: Activity, t: u32)
    requires
        act_wf(a),
    ensures
        in_slot(a, t) <==> a_first(a) <= t <= a_last(a),
{
    if a_first(a) <= t <= a_last(a) {
        let k = t - a_first(a);
        assert(a.time_slots@[k] == a.time_slots@[0] + k);
        assert(a.time_slots@.contains(t));
    }
    if in_slot(a, t) {
        let k = choose|k: int| 0 <= k < a.time_slots@.len() && a.time_slots@[k] == t;
        assert(a.time_slots@[k] == a.time_slots@[0] + k);
        assert(a.time_slots@[a.time_slots@.len() - 1] == a.time_slots@[0] + (a.time_slots@.len()
            - 1));
    }
}

} // verus!
