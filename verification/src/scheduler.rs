//! The scheduling engine: feasibility check, best-fit room selection, and the
//! time-slot simulation loop that assigns activities to rooms.

use vstd::multiset::Multiset;
use vstd::prelude::*;

use crate::models::{
    a_first, a_last, act_wf, erase_room, in_slot, lemma_in_slot_interval, shares_slot, Activity,
    Room, SchedulerError,
};

verus! {

broadcast use vstd::seq_lib::group_to_multiset_ensures;

/// How many of the activities occupy time slot `t`.
pub open spec fn count_in_slot(acts: Seq<Activity>, t: u32) -> nat
    decreases acts.len(),
{
    if acts.len() == 0 {
        0
    } else {
        count_in_slot(acts.drop_last(), t) + if in_slot(acts.last(), t) {
            1nat
        } else {
            0nat
        }
    }
}

/// A positive slot count means some activity occupies the slot, and the count
/// never exceeds the number of activities.
proof fn lemma_count_in_slot_bounds(acts: Seq<Activity>, t: u32)
    ensures
        count_in_slot(acts, t) <= acts.len(),
        count_in_slot(acts, t) > 0 <==> exists|i: int| 0 <= i < acts.len() && in_slot(acts[i], t),
    decreases acts.len(),
{
    if acts.len() > 0 {
        lemma_count_in_slot_bounds(acts.drop_last(), t);
        if count_in_slot(acts, t) > 0 {
            if in_slot(acts.last(), t) {
                assert(in_slot(acts[acts.len() - 1], t));
            } else {
                let i = choose|i: int|
                    0 <= i < acts.drop_last().len() && in_slot(acts.drop_last()[i], t);
                assert(in_slot(acts[i], t));
            }
        }
        if exists|i: int| 0 <= i < acts.len() && in_slot(acts[i], t) {
            let i = choose|i: int| 0 <= i < acts.len() && in_slot(acts[i], t);
            if i < acts.len() - 1 {
                assert(in_slot(acts.drop_last()[i], t));
            }
        }
    }
}

/// Whether `t` occurs in the slot list.
fn slots_contain(slots: &Vec<u32>, t: u32) -> (r: bool)
    ensures
        r == slots@.contains(t),
{
    let mut i: usize = 0;
    while i < slots.len()
        invariant
            i <= slots@.len(),
            forall|k: int| 0 <= k < i ==> slots@[k] != t,
        decreases slots@.len() - i,
    {
        if slots[i] == t {
            assert(slots@[i as int] == t);
            return true;
        }
        i += 1;
    }
    false
}

/// Counts the activities whose slot list includes `timeslot`.
pub fn simultaneus_activities_in_timeslot(timeslot: u32, activities: &Vec<Activity>) -> (count:
    usize)
    ensures
        count == count_in_slot(activities@, timeslot),
{
    let mut count: usize = 0;
    let mut i: usize = 0;
    while i < activities.len()
        invariant
            i <= activities@.len(),
            count == count_in_slot(activities@.take(i as int), timeslot),
            count <= i,
        decreases activities@.len() - i,
    {
        proof {
            assert(activities@.take(i + 1).drop_last() =~= activities@.take(i as int));
            assert(activities@.take(i + 1).last() == activities@[i as int]);
        }
        if slots_contain(&activities[i].time_slots, timeslot) {
            count += 1;
        }
        i += 1;
    }
    proof {
        assert(activities@.take(activities@.len() as int) =~= activities@);
    }
    count
}

/// Computes the peak concurrency: the largest number of activities that are
/// simultaneously active at any single time slot (0 when no activity has any
/// slot). The result is the least upper bound of `count_in_slot` over all
/// slots, and is attained whenever it is positive.
pub fn max_simultaneus_activities(activities: &Vec<Activity>) -> (max_count: usize)
    ensures
        forall|t: u32| count_in_slot(activities@, t) <= max_count,
        max_count == 0 || exists|t: u32| count_in_slot(activities@, t) == max_count,
{
    let mut max_count: usize = 0;
    let mut i: usize = 0;
    while i < activities.len()
        invariant
            i <= activities@.len(),
            max_count == 0 || exists|t: u32| count_in_slot(activities@, t) == max_count,
            forall|j: int, k: int|
                0 <= j < i && 0 <= k < activities@[j].time_slots@.len() ==> count_in_slot(
                    activities@,
                    #[trigger] activities@[j].time_slots@[k],
                ) <= max_count,
        decreases activities@.len() - i,
    {
        let slots_len = activities[i].time_slots.len();
        let mut k: usize = 0;
        while k < slots_len
            invariant
                i < activities@.len(),
                slots_len == activities@[i as int].time_slots@.len(),
                k <= slots_len,
                max_count == 0 || exists|t: u32| count_in_slot(activities@, t) == max_count,
                forall|j: int, m: int|
                    0 <= j < i && 0 <= m < activities@[j].time_slots@.len() ==> count_in_slot(
                        activities@,
                        #[trigger] activities@[j].time_slots@[m],
                    ) <= max_count,
                forall|m: int|
                    0 <= m < k ==> count_in_slot(
                        activities@,
                        #[trigger] activities@[i as int].time_slots@[m],
                    ) <= max_count,
            decreases slots_len - k,
        {
            let time_slot = activities[i].time_slots[k];
            let count = simultaneus_activities_in_timeslot(time_slot, activities);
            if count > max_count {
                max_count = count;
            }
            k += 1;
        }
        i += 1;
    }
    proof {
        assert forall|t: u32| count_in_slot(activities@, t) <= max_count by {
            lemma_count_in_slot_bounds(activities@, t);
            if count_in_slot(activities@, t) > 0 {
                let j = choose|j: int| 0 <= j < activities@.len() && in_slot(activities@[j], t);
                let m = choose|m: int|
                    0 <= m < activities@[j].time_slots@.len() && activities@[j].time_slots@[m]
                        == t;
                assert(count_in_slot(activities@, activities@[j].time_slots@[m]) <= max_count);
            }
        }
    }
    max_count
}

/// Stable insertion of `a` into `s` from the right: `a` goes after every
/// element whose `students_count` does not exceed its own.
pub open spec fn insert_sorted(s: Seq<Activity>, a: Activity) -> Seq<Activity>
    decreases s.len(),
{
    if s.len() == 0 {
        seq![a]
    } else if s.last().students_count <= a.students_count {
        s.push(a)
    } else {
        insert_sorted(s.drop_last(), a).push(s.last())
    }
}

/// The stable ascending sort (by `students_count`) of a sequence of
/// activities: insertion sort, processing the input left to right, so equal
/// counts keep their input order.
pub open spec fn sort_spec(s: Seq<Activity>) -> Seq<Activity>
    decreases s.len(),
{
    if s.len() == 0 {
        Seq::empty()
    } else {
        insert_sorted(sort_spec(s.drop_last()), s.last())
    }
}

proof fn lemma_insert_sorted_multiset(s: Seq<Activity>, a: Activity)
    ensures
        insert_sorted(s, a).to_multiset() == s.to_multiset().insert(a),
    decreases s.len(),
{
    if s.len() == 0 {
        assert(seq![a] =~= Seq::empty().push(a));
        assert(Seq::<Activity>::empty().to_multiset() =~= Multiset::empty());
    } else if s.last().students_count <= a.students_count {
    } else {
        lemma_insert_sorted_multiset(s.drop_last(), a);
        assert(s.drop_last().push(s.last()) =~= s);
        assert(insert_sorted(s.drop_last(), a).push(s.last()).to_multiset() == insert_sorted(
            s.drop_last(),
            a,
        ).to_multiset().insert(s.last()));
        assert(s.drop_last().to_multiset().insert(a).insert(s.last())
            =~= s.drop_last().to_multiset().insert(s.last()).insert(a));
    }
}

/// Sorting keeps exactly the input activities.
proof fn lemma_sort_spec_multiset(s: Seq<Activity>)
    ensures
        sort_spec(s).to_multiset() == s.to_multiset(),
    decreases s.len(),
{
    if s.len() == 0 {
        assert(sort_spec(s) =~= s);
    } else {
        lemma_sort_spec_multiset(s.drop_last());
        lemma_insert_sorted_multiset(sort_spec(s.drop_last()), s.last());
        assert(s.drop_last().push(s.last()) =~= s);
        assert(s.drop_last().to_multiset().insert(s.last()) == s.to_multiset());
    }
}

/// Insertion at the position found by a right-to-left scan agrees with
/// `insert_sorted`.
proof fn lemma_insert_sorted_at(s: Seq<Activity>, a: Activity, idx: int)
    requires
        0 <= idx <= s.len(),
        forall|j: int| idx <= j < s.len() ==> s[j].students_count > a.students_count,
        idx == 0 || s[idx - 1].students_count <= a.students_count,
    ensures
        insert_sorted(s, a) == s.take(idx) + seq![a] + s.skip(idx),
    decreases s.len(),
{
    if s.len() == 0 {
        assert(insert_sorted(s, a) =~= s.take(idx) + seq![a] + s.skip(idx));
    } else if idx == s.len() {
        assert(insert_sorted(s, a) == s.push(a));
        assert(s.push(a) =~= s.take(idx) + seq![a] + s.skip(idx));
    } else {
        assert(s[s.len() - 1].students_count > a.students_count);
        lemma_insert_sorted_at(s.drop_last(), a, idx);
        assert(insert_sorted(s, a) == insert_sorted(s.drop_last(), a).push(s.last()));
        assert((s.drop_last().take(idx) + seq![a] + s.drop_last().skip(idx)).push(s.last())
            =~= s.take(idx) + seq![a] + s.skip(idx));
    }
}

/// Inserts `a` into `out` keeping ascending `students_count` order; equal
/// counts go after the ones already present.
fn insert_activity(out: &mut Vec<Activity>, a: Activity)
    ensures
        final (out)@ == insert_sorted(old(out)@, a),
{
    let mut idx: usize = out.len();
    while idx > 0 && out[idx - 1].students_count > a.students_count
        invariant
            idx <= out@.len(),
            out@ == old(out)@,
            forall|j: int| idx <= j < out@.len() ==> out@[j].students_count > a.students_count,
        decreases idx,
    {
        idx -= 1;
    }
    proof {
        lemma_insert_sorted_at(out@, a, idx as int);
    }
    out.insert(idx, a);
    proof {
        assert(old(out)@.insert(idx as int, a) =~= old(out)@.take(idx as int) + seq![a] + old(
            out,
        )@.skip(idx as int));
    }
}

/// Sorts activities ascending by attendance; ties keep their input order.
pub fn sort_activities(activities: Vec<Activity>) -> (r: Vec<Activity>)
    ensures
        r@ == sort_spec(activities@),
{
    let ghost orig = activities@;
    let mut src = activities;
    let mut out: Vec<Activity> = Vec::new();
    let ghost mut taken: int = 0;
    while src.len() > 0
        invariant
            0 <= taken,
            taken + src@.len() == orig.len(),
            src@ == orig.skip(taken),
            out@ == sort_spec(orig.take(taken)),
        decreases src@.len(),
    {
        let a = src.remove(0);
        proof {
            assert(a == orig[taken]);
            assert(orig.skip(taken).remove(0) =~= orig.skip(taken + 1));
            assert(orig.take(taken + 1).drop_last() =~= orig.take(taken));
            assert(orig.take(taken + 1).last() == orig[taken]);
            taken = taken + 1;
        }
        insert_activity(&mut out, a);
    }
    proof {
        assert(orig.take(orig.len() as int) =~= orig);
    }
    out
}

/// The room fits the attendance.
pub open spec fn fits(students: u32) -> spec_fn(Room) -> bool {
    |r: Room| r.capacity >= students
}

/// The same activities with their room assignments erased.
pub open spec fn erased(s: Seq<Activity>) -> Seq<Activity> {
    s.map_values(|a: Activity| erase_room(a))
}

proof fn lemma_erased_push(s: Seq<Activity>, x: Activity)
    ensures
        erased(s.push(x)) == erased(s).push(erase_room(x)),
{
    assert(erased(s.push(x)) =~= erased(s).push(erase_room(x)));
}

/// Index `i` is one of the currently started (room-holding) positions.
pub open spec fn is_active(started: Seq<usize>, i: int) -> bool {
    exists|k: int| 0 <= k < started.len() && started[k] == i
}

/// The absolute difference between two non-negative integers.
pub open spec fn spec_distance(x1: u32, x0: u32) -> u32 {
    if x1 > x0 {
        (x1 - x0) as u32
    } else {
        (x0 - x1) as u32
    }
}

/// Absolute capacity distance between a room's capacity and an attendance.
pub fn distance(x1: u32, x0: u32) -> (d: u32)
    ensures
        d == spec_distance(x1, x0),
{
    if x1 > x0 {
        x1 - x0
    } else {
        x0 - x1
    }
}

/// The index of the first room whose capacity distance to `students` is
/// minimal: on ties, the earlier room wins.
pub open spec fn best_room_index(rooms: Seq<Room>, students: u32) -> int
    decreases rooms.len(),
{
    if rooms.len() <= 1 {
        0
    } else {
        let prev = best_room_index(rooms.drop_last(), students);
        if spec_distance(rooms.last().capacity, students) < spec_distance(
            rooms[prev].capacity,
            students,
        ) {
            rooms.len() - 1
        } else {
            prev
        }
    }
}

proof fn lemma_best_room_index(rooms: Seq<Room>, students: u32)
    requires
        rooms.len() > 0,
    ensures
        0 <= best_room_index(rooms, students) < rooms.len(),
        forall|j: int|
            0 <= j < rooms.len() ==> spec_distance(
                rooms[best_room_index(rooms, students)].capacity,
                students,
            ) <= spec_distance(#[trigger] rooms[j].capacity, students),
        forall|j: int|
            0 <= j < best_room_index(rooms, students) ==> spec_distance(
                rooms[best_room_index(rooms, students)].capacity,
                students,
            ) < spec_distance(#[trigger] rooms[j].capacity, students),
    decreases rooms.len(),
{
    if rooms.len() > 1 {
        lemma_best_room_index(rooms.drop_last(), students);
        assert forall|j: int| 0 <= j < rooms.len() - 1 implies rooms.drop_last()[j] == rooms[j] by {}
    }
}

/// Picks the free room whose capacity is closest to the activity's
/// attendance; among equally close rooms the first in the list wins.
pub fn get_best_room(activity: &Activity, rooms: Vec<Room>) -> (best: Room)
    requires
        rooms@.len() > 0,
    ensures
        0 <= best_room_index(rooms@, activity.students_count) < rooms@.len(),
        best == rooms@[best_room_index(rooms@, activity.students_count)],
        forall|j: int|
            0 <= j < rooms@.len() ==> spec_distance(best.capacity, activity.students_count)
                <= spec_distance(#[trigger] rooms@[j].capacity, activity.students_count),
{
    let students = activity.students_count;
    let mut best_i: usize = 0;
    let mut i: usize = 1;
    while i < rooms.len()
        invariant
            rooms@.len() > 0,
            best_i < i,
            i <= rooms@.len(),
            students == activity.students_count,
            best_i as int == best_room_index(rooms@.take(i as int), students),
        decreases rooms@.len() - i,
    {
        proof {
            assert(rooms@.take(i + 1).drop_last() =~= rooms@.take(i as int));
            assert(rooms@.take(i + 1).last() == rooms@[i as int]);
        }
        if distance(rooms[i].capacity, students) < distance(rooms[best_i].capacity, students) {
            best_i = i;
        }
        i += 1;
    }
    proof {
        assert(rooms@.take(rooms@.len() as int) =~= rooms@);
        lemma_best_room_index(rooms@, students);
    }
    let mut rooms = rooms;
    rooms.remove(best_i)
}


/// The activity's run of slots begins exactly at slot `t`.
pub open spec fn starts_at(t: int) -> spec_fn(Activity) -> bool {
    |a: Activity| a.time_slots@.len() > 0 && a.time_slots@[0] as int == t
}

/// The activity's run of slots does not begin at slot `t`.
pub open spec fn not_starts_at(t: int) -> spec_fn(Activity) -> bool {
    |a: Activity| !(a.time_slots@.len() > 0 && a.time_slots@[0] as int == t)
}

/// The pool without the first room carrying `name`; unchanged when none does.
pub open spec fn remove_first_named(rooms: Seq<Room>, name: Seq<char>) -> Seq<Room>
    decreases rooms.len(),
{
    if rooms.len() == 0 {
        rooms
    } else if rooms[0].name@ == name {
        rooms.drop_first()
    } else {
        seq![rooms[0]] + remove_first_named(rooms.drop_first(), name)
    }
}

/// Removing the first room named `name` removes exactly the element at the
/// first matching index.
proof fn lemma_remove_first_named_at(rooms: Seq<Room>, name: Seq<char>, i: int)
    requires
        0 <= i < rooms.len(),
        rooms[i].name@ == name,
        forall|k: int| 0 <= k < i ==> rooms[k].name@ != name,
    ensures
        remove_first_named(rooms, name) == rooms.remove(i),
    decreases i,
{
    if i == 0 {
        assert(rooms.drop_first() =~= rooms.remove(0));
    } else {
        lemma_remove_first_named_at(rooms.drop_first(), name, i - 1);
        assert(seq![rooms[0]] + rooms.drop_first().remove(i - 1) =~= rooms.remove(i));
    }
}

/// One release pass at slot `t`: drops from `started` each position whose
/// activity ended at slot `t - 1` and appends its room to the pool, keeping
/// both orders.
pub open spec fn spec_release(
    sched: Seq<Activity>,
    started: Seq<usize>,
    free: Seq<Room>,
    t: int,
) -> (Seq<usize>, Seq<Room>)
    decreases started.len(),
{
    if started.len() == 0 {
        (started, free)
    } else {
        let prev = spec_release(sched, started.drop_last(), free, t);
        let si = started.last() as int;
        if 0 <= si < sched.len() && sched[si].time_slots@.len() > 0 && a_last(sched[si]) as int
            == t - 1 {
            (prev.0, prev.1.push(sched[si].room->0))
        } else {
            (prev.0.push(started.last()), prev.1)
        }
    }
}

/// One admission pass: activities are taken from the end of `starting`; each
/// gets the best-fitting free room, or joins the unscheduled list when no
/// free room is large enough.
pub open spec fn spec_admit(
    starting: Seq<Activity>,
    free: Seq<Room>,
    sched: Seq<Activity>,
    unsched: Seq<Activity>,
    started: Seq<usize>,
) -> (Seq<Room>, Seq<Activity>, Seq<Activity>, Seq<usize>)
    decreases starting.len(),
{
    if starting.len() == 0 {
        (free, sched, unsched, started)
    } else {
        let a = starting.last();
        let rest = starting.drop_last();
        let avail = free.filter(fits(a.students_count));
        if avail.len() == 0 {
            spec_admit(rest, free, sched, unsched.push(a), started)
        } else {
            let best = avail[best_room_index(avail, a.students_count)];
            let free2 = remove_first_named(free, best.name@);
            let assigned = Activity { room: Some(best), ..a };
            spec_admit(rest, free2, sched.push(assigned), unsched, started.push(
                sched.len() as usize,
            ))
        }
    }
}

/// The latest start slot among the unprocessed activities (0 when none).
pub open spec fn max_start(pending: Seq<Activity>) -> int
    decreases pending.len(),
{
    if pending.len() == 0 {
        0
    } else {
        let rest = max_start(pending.drop_last());
        let f = a_first(pending.last()) as int;
        if f > rest {
            f
        } else {
            rest
        }
    }
}

proof fn lemma_max_start_ge(s: Seq<Activity>, k: int)
    requires
        0 <= k < s.len(),
    ensures
        max_start(s) >= a_first(s[k]) as int,
    decreases s.len(),
{
    if k < s.len() - 1 {
        lemma_max_start_ge(s.drop_last(), k);
        assert(s.drop_last()[k] == s[k]);
    }
}

proof fn lemma_max_start_subset(s2: Seq<Activity>, s1: Seq<Activity>)
    requires
        s2.len() > 0,
        forall|m: int|
            0 <= m < s2.len() ==> exists|j: int| 0 <= j < s1.len() && #[trigger] s2[m] == s1[j],
    ensures
        max_start(s2) <= max_start(s1),
    decreases s2.len(),
{
    let j = choose|j: int| 0 <= j < s1.len() && s2[s2.len() - 1] == s1[j];
    lemma_max_start_ge(s1, j);
    assert(a_first(s1[j]) as int >= 0);
    if s2.len() == 1 {
        assert(max_start(s2.drop_last()) == 0);
    }
    if s2.len() > 1 {
        assert forall|m: int| 0 <= m < s2.drop_last().len() implies exists|j2: int|
            0 <= j2 < s1.len() && #[trigger] s2.drop_last()[m] == s1[j2] by {
            assert(s2[m] == s2.drop_last()[m]);
        }
        lemma_max_start_subset(s2.drop_last(), s1);
    }
}

/// Every unprocessed activity is well-formed and starts no earlier than the
/// current slot.
pub open spec fn sim_inv(pending: Seq<Activity>, slot: int) -> bool {
    forall|k: int|
        0 <= k < pending.len() ==> act_wf(#[trigger] pending[k]) && a_first(pending[k]) as int
            >= slot
}

/// How many clock steps the simulation can still take before the unprocessed
/// list must be empty.
pub open spec fn sim_measure(pending: Seq<Activity>, slot: int) -> int {
    if pending.len() == 0 {
        0
    } else {
        max_start(pending) + 1 - slot
    }
}

/// The time-slot simulation: while activities remain unprocessed, take those
/// starting at the current slot, release the rooms of activities that ended
/// at the previous slot, admit the starting ones (last taken first), and
/// advance the clock; an idle slot only advances the clock. Yields the
/// scheduled and unscheduled lists.
pub open spec fn spec_sim(
    pending: Seq<Activity>,
    started: Seq<usize>,
    free: Seq<Room>,
    sched: Seq<Activity>,
    unsched: Seq<Activity>,
    slot: int,
) -> (Seq<Activity>, Seq<Activity>)
    decreases sim_measure(pending, slot),
        when sim_inv(pending, slot)
        via spec_sim_dec
{
    if pending.len() == 0 {
        (sched, unsched)
    } else {
        let starting = pending.filter(starts_at(slot));
        let pending2 = pending.filter(not_starts_at(slot));
        if starting.len() == 0 && started.len() == 0 {
            spec_sim(pending2, started, free, sched, unsched, slot + 1)
        } else {
            let rel = spec_release(sched, started, free, slot);
            let adm = spec_admit(starting, rel.1, sched, unsched, rel.0);
            spec_sim(pending2, adm.3, adm.0, adm.1, adm.2, slot + 1)
        }
    }
}

#[via_fn]
proof fn spec_sim_dec(
    pending: Seq<Activity>,
    started: Seq<usize>,
    free: Seq<Room>,
    sched: Seq<Activity>,
    unsched: Seq<Activity>,
    slot: int,
) {
    if pending.len() > 0 {
        let pending2 = pending.filter(not_starts_at(slot));
        assert forall|m: int| 0 <= m < pending2.len() implies (exists|j: int|
            0 <= j < pending.len() && #[trigger] pending2[m] == pending[j]) && act_wf(
            pending2[m],
        ) && a_first(pending2[m]) as int >= slot + 1 by {
            pending.lemma_filter_pred(not_starts_at(slot), m);
            assert(pending.filter(not_starts_at(slot)).contains(pending2[m]));
            pending.lemma_filter_contains_rev(not_starts_at(slot), pending2[m]);
            let j = choose|j: int| 0 <= j < pending.len() && pending[j] == pending2[m];
            assert(pending2[m] == pending[j]);
        }
        lemma_max_start_ge(pending, 0);
        if pending2.len() > 0 {
            assert forall|m: int| 0 <= m < pending2.len() implies exists|j: int|
                0 <= j < pending.len() && #[trigger] pending2[m] == pending[j] by {}
            lemma_max_start_subset(pending2, pending);
            lemma_max_start_ge(pending2, 0);
        }
    }
}

/// The engine's entire result, pinned: the ascending stable ordering followed
/// by the slot-by-slot simulation from slot 0 with every room free.
pub open spec fn schedule_spec(activities: Seq<Activity>, rooms: Seq<Room>) -> (
    Seq<Activity>,
    Seq<Activity>,
) {
    spec_sim(
        sort_spec(activities),
        Seq::empty(),
        rooms,
        Seq::empty(),
        Seq::empty(),
        0,
    )
}

/// All activities in `s` are well-formed, unassigned, and start at or after
/// slot `t`.
pub open spec fn pending_ok(s: Seq<Activity>, t: u64) -> bool {
    forall|k: int|
        0 <= k < s.len() ==> act_wf(#[trigger] s[k]) && s[k].room is None && a_first(s[k]) as int
            >= t as int
}

/// All activities in `s` are well-formed, hold a room large enough for their
/// attendance, and start no later than slot `bound`.
pub open spec fn scheduled_ok(s: Seq<Activity>, bound: int) -> bool {
    forall|k: int|
        0 <= k < s.len() ==> act_wf(#[trigger] s[k]) && s[k].room is Some
            && s[k].room->0.capacity >= s[k].students_count && a_first(s[k]) as int <= bound
}

/// No two distinct activities of `s` that share a time slot hold rooms with
/// the same name.
pub open spec fn no_double_booking(s: Seq<Activity>) -> bool {
    forall|i: int, j: int|
        0 <= i < s.len() && 0 <= j < s.len() && i != j && #[trigger] shares_slot(s[i], s[j])
            ==> s[i].room->0.name@ != s[j].room->0.name@
}

/// The started list is an ascending list of positions into `sched`, holding
/// exactly the positions whose activity is still active (ends at or after
/// `t_active`).
pub open spec fn started_ok(started: Seq<usize>, sched: Seq<Activity>, t_active: int) -> bool {
    &&& forall|k: int| 0 <= k < started.len() ==> (#[trigger] started[k]) < sched.len()
    &&& forall|k1: int, k2: int| 0 <= k1 < k2 < started.len() ==> started[k1] < started[k2]
    &&& forall|i: int|
        0 <= i < sched.len() ==> (is_active(started, i) <==> a_last(#[trigger] sched[i]) as int
            >= t_active)
}

/// Free rooms have pairwise distinct names, and no active activity's room
/// name occurs among them.
pub open spec fn rooms_ok(started: Seq<usize>, sched: Seq<Activity>, free: Seq<Room>) -> bool {
    &&& forall|j1: int, j2: int| 0 <= j1 < j2 < free.len() ==> free[j1].name@ != free[j2].name@
    &&& forall|i: int, j: int|
        0 <= i < sched.len() && is_active(started, i) && 0 <= j < free.len() ==> (
        #[trigger] sched[i]).room->0.name@ != (#[trigger] free[j]).name@
}

/// Two well-formed activities whose slot intervals both cover `x` share a
/// slot, so under `no_double_booking` their rooms must differ.
proof fn lemma_active_rooms_differ(sched: Seq<Activity>, i: int, j: int, x: u32)
    requires
        no_double_booking(sched),
        0 <= i < sched.len(),
        0 <= j < sched.len(),
        i != j,
        act_wf(sched[i]),
        act_wf(sched[j]),
        a_first(sched[i]) <= x <= a_last(sched[i]),
        a_first(sched[j]) <= x <= a_last(sched[j]),
    ensures
        sched[i].room->0.name@ != sched[j].room->0.name@,
{
    lemma_in_slot_interval(sched[i], x);
    lemma_in_slot_interval(sched[j], x);
    assert(in_slot(sched[i], x) && in_slot(sched[j], x));
    assert(shares_slot(sched[i], sched[j]));
}

/// Two well-formed activities with disjoint slot intervals share no slot.
proof fn lemma_disjoint_intervals_no_share(a: Activity, b: Activity)
    requires
        act_wf(a),
        act_wf(b),
        (a_last(a) as int) < a_first(b) as int,
    ensures
        !shares_slot(a, b),
{
    assert forall|t: u32| !(in_slot(a, t) && in_slot(b, t)) by {
        lemma_in_slot_interval(a, t);
        lemma_in_slot_interval(b, t);
    }
}

/// The free rooms able to hold `students` attendees, in pool order.
fn available_rooms_for(free_rooms: &Vec<Room>, students: u32) -> (avail: Vec<Room>)
    ensures
        avail@ == free_rooms@.filter(fits(students)),
{
    let mut avail: Vec<Room> = Vec::new();
    let mut i: usize = 0;
    while i < free_rooms.len()
        invariant
            i <= free_rooms@.len(),
            avail@ == free_rooms@.take(i as int).filter(fits(students)),
        decreases free_rooms@.len() - i,
    {
        proof {
            assert(free_rooms@.take(i + 1) =~= free_rooms@.take(i as int).push(
                free_rooms@[i as int],
            ));
            free_rooms@.take(i as int).lemma_filter_push(free_rooms@[i as int], fits(students));
        }
        if free_rooms[i].capacity >= students {
            avail.push(free_rooms[i].clone());
        }
        i += 1;
    }
    proof {
        assert(free_rooms@.take(free_rooms@.len() as int) =~= free_rooms@);
    }
    avail
}

/// Removes and returns the first room carrying `name` from the pool.
fn remove_room_named(rooms: &mut Vec<Room>, name: &String) -> (removed: Room)
    requires
        exists|j: int| 0 <= j < old(rooms)@.len() && old(rooms)@[j].name@ == name@,
    ensures
        final (rooms)@ == remove_first_named(old(rooms)@, name@),
        exists|j: int|
            0 <= j < old(rooms)@.len() && old(rooms)@[j].name@ == name@ && (forall|k: int|
                0 <= k < j ==> old(rooms)@[k].name@ != name@) && removed == old(rooms)@[j]
                && final (rooms)@ == old(rooms)@.remove(j),
{
    let mut i: usize = 0;
    while i < rooms.len()
        invariant
            rooms@ == old(rooms)@,
            i <= rooms@.len(),
            forall|k: int| 0 <= k < i ==> rooms@[k].name@ != name@,
            exists|j: int| 0 <= j < rooms@.len() && rooms@[j].name@ == name@,
        decreases rooms@.len() - i,
    {
        if rooms[i].name == *name {
            proof {
                lemma_remove_first_named_at(rooms@, name@, i as int);
            }
            return rooms.remove(i);
        }
        i += 1;
    }
    proof {
        assert(false);
    }
    rooms.remove(0)
}

/// Release phase of one simulation step: returns the rooms of activities
/// that ended at the previous slot to the pool and keeps the rest started.
#[verifier::loop_isolation(false)]
#[verifier::rlimit(60)]
fn release_finished(
    scheduled: &Vec<Activity>,
    started: Vec<usize>,
    free_rooms: &mut Vec<Room>,
    current_time_slot: u64,
) -> (new_started: Vec<usize>)
    requires
        scheduled_ok(scheduled@, current_time_slot as int - 1),
        no_double_booking(scheduled@),
        started_ok(started@, scheduled@, current_time_slot as int - 1),
        rooms_ok(started@, scheduled@, old(free_rooms)@),
    ensures
        started_ok(new_started@, scheduled@, current_time_slot as int),
        rooms_ok(new_started@, scheduled@, final (free_rooms)@),
        (new_started@, final (free_rooms)@) == spec_release(
            scheduled@,
            started@,
            old(free_rooms)@,
            current_time_slot as int,
        ),
{
    let t_now = current_time_slot;
    let mut new_started: Vec<usize> = Vec::new();
    proof {
        assert(started@.take(0) =~= Seq::<usize>::empty());
    }
    let mut krel: usize = 0;
    while krel < started.len()
        invariant
            krel <= started@.len(),
            (new_started@, free_rooms@) == spec_release(
                scheduled@,
                started@.take(krel as int),
                old(free_rooms)@,
                current_time_slot as int,
            ),
            forall|m: int|
                0 <= m < new_started@.len() ==> exists|k2: int|
                    0 <= k2 < krel && #[trigger] new_started@[m] == started@[k2],
            forall|m1: int, m2: int|
                0 <= m1 < m2 < new_started@.len() ==> new_started@[m1] < new_started@[m2],
            forall|m: int|
                0 <= m < new_started@.len() ==> (#[trigger] new_started@[m]) < scheduled@.len()
                    && a_last(scheduled@[new_started@[m] as int]) as int >= t_now as int,
            forall|k: int|
                0 <= k < krel && a_last(scheduled@[(#[trigger] started@[k]) as int]) as int
                    >= t_now as int ==> is_active(new_started@, started@[k] as int),
            forall|j1: int, j2: int|
                0 <= j1 < j2 < free_rooms@.len() ==> free_rooms@[j1].name@
                    != free_rooms@[j2].name@,
            forall|i: int, j: int|
                0 <= i < scheduled@.len() && (is_active(new_started@, i) || is_active(
                    started@.skip(krel as int),
                    i,
                )) && 0 <= j < free_rooms@.len() ==> (#[trigger] scheduled@[i]).room->0.name@ != (
                #[trigger] free_rooms@[j]).name@,
        decreases started@.len() - krel,
    {
        let si = started[krel];
        proof {
            assert(started@[krel as int] == si);
            assert(is_active(started@, si as int));
            assert(a_first(scheduled@[si as int]) as int <= current_time_slot as int - 1);
            assert(current_time_slot >= 1);
        }
        let ts_len = scheduled[si].time_slots.len();
        if scheduled[si].time_slots[ts_len - 1] as u64 == current_time_slot - 1 {
            let ghost pre_free = free_rooms@;
            match &scheduled[si].room {
                Some(rm) => {
                    free_rooms.push(rm.clone());
                },
                None => {},
            }
            proof {
                let x = (current_time_slot - 1) as u32;
                assert(a_last(scheduled@[si as int]) == x);
                assert(started@.take(krel as int + 1).drop_last() =~= started@.take(krel as int));
                assert(started@.take(krel as int + 1).last() == started@[krel as int]);
                assert(free_rooms@ == pre_free.push(scheduled@[si as int].room->0));
                assert((new_started@, free_rooms@) == spec_release(
                    scheduled@,
                    started@.take(krel as int + 1),
                    old(free_rooms)@,
                    current_time_slot as int,
                ));
                // Remaining active positions are other started entries, so
                // their rooms differ from the released one.
                assert forall|i: int|
                    0 <= i < scheduled@.len() && (is_active(new_started@, i) || is_active(
                        started@.skip(krel as int + 1),
                        i,
                    )) implies is_active(started@, i) && i != si as int by {
                    if is_active(new_started@, i) {
                        let m = choose|m: int|
                            0 <= m < new_started@.len() && new_started@[m] == i;
                        let k2 = choose|k2: int|
                            0 <= k2 < krel && new_started@[m] == started@[k2];
                        assert(started@[k2] == i);
                        assert(started@[k2] < started@[krel as int]);
                    } else {
                        let m = choose|m: int|
                            0 <= m < started@.skip(krel as int + 1).len() && (
                            #[trigger] started@.skip(krel as int + 1)[m]) == i;
                        assert(started@[krel as int + 1 + m] == i);
                        assert(started@[krel as int] < started@[krel as int + 1 + m]);
                    }
                }
                assert forall|i: int, j: int|
                    0 <= i < scheduled@.len() && (is_active(new_started@, i) || is_active(
                        started@.skip(krel as int + 1),
                        i,
                    )) && 0 <= j < free_rooms@.len() implies (#[trigger] scheduled@[i]).room
                    ->0.name@ != (#[trigger] free_rooms@[j]).name@ by {
                    assert(is_active(started@, i) && i != si as int);
                    if is_active(started@.skip(krel as int + 1), i) {
                        let m = choose|m: int|
                            0 <= m < started@.skip(krel as int + 1).len() && (
                            #[trigger] started@.skip(krel as int + 1)[m]) == i;
                        assert(started@.skip(krel as int)[m + 1] == i);
                        assert(is_active(started@.skip(krel as int), i));
                    }
                    if j < pre_free.len() {
                        assert(free_rooms@[j] == pre_free[j]);
                    } else {
                        assert(free_rooms@[j].name@ == scheduled@[si as int].room->0.name@);
                        assert(a_last(scheduled@[i]) as int >= current_time_slot as int - 1);
                        lemma_active_rooms_differ(scheduled@, i, si as int, x);
                    }
                }
                assert forall|j1: int, j2: int|
                    0 <= j1 < j2 < free_rooms@.len() implies free_rooms@[j1].name@
                    != free_rooms@[j2].name@ by {
                    if j2 == free_rooms@.len() - 1 {
                        assert(free_rooms@[j1] == pre_free[j1]);
                        assert(started@.skip(krel as int)[0] == si);
                        assert(is_active(started@.skip(krel as int), si as int));
                        assert(scheduled@[si as int].room->0.name@ != pre_free[j1].name@);
                    }
                }
            }
        } else {
            let ghost pre_new = new_started@;
            proof {
                assert(a_last(scheduled@[si as int]) as int >= current_time_slot as int - 1);
                assert(a_last(scheduled@[si as int]) as int != current_time_slot as int - 1);
                assert(started@.take(krel as int + 1).drop_last() =~= started@.take(krel as int));
                assert(started@.take(krel as int + 1).last() == started@[krel as int]);
                assert forall|m: int| 0 <= m < new_started@.len() implies new_started@[m]
                    < si by {
                    let k2 = choose|k2: int| 0 <= k2 < krel && new_started@[m] == started@[k2];
                    assert(started@[k2] < started@[krel as int]);
                }
            }
            new_started.push(si);
            proof {
                assert(new_started@[new_started@.len() - 1] == si);
                assert((new_started@, free_rooms@) == spec_release(
                    scheduled@,
                    started@.take(krel as int + 1),
                    old(free_rooms)@,
                    current_time_slot as int,
                ));
                assert forall|k: int|
                    0 <= k < krel + 1 && a_last(
                        scheduled@[(#[trigger] started@[k]) as int],
                    ) as int >= t_now as int implies is_active(
                    new_started@,
                    started@[k] as int,
                ) by {
                    if k == krel {
                        assert(new_started@[new_started@.len() - 1] == started@[k] as int);
                    } else {
                        assert(is_active(pre_new, started@[k] as int));
                        let m = choose|m: int|
                            0 <= m < pre_new.len() && pre_new[m] == started@[k] as int;
                        assert(new_started@[m] == started@[k] as int);
                    }
                }
                assert forall|i: int, j: int|
                    0 <= i < scheduled@.len() && (is_active(new_started@, i) || is_active(
                        started@.skip(krel as int + 1),
                        i,
                    )) && 0 <= j < free_rooms@.len() implies (#[trigger] scheduled@[i]).room
                    ->0.name@ != (#[trigger] free_rooms@[j]).name@ by {
                    if is_active(new_started@, i) {
                        let m = choose|m: int|
                            0 <= m < new_started@.len() && new_started@[m] == i;
                        if m == new_started@.len() - 1 {
                            assert(i == si as int);
                            assert(started@.skip(krel as int)[0] == si);
                            assert(is_active(started@.skip(krel as int), i));
                        } else {
                            assert(pre_new[m] == i);
                            assert(is_active(pre_new, i));
                        }
                    } else {
                        let m = choose|m: int|
                            0 <= m < started@.skip(krel as int + 1).len() && (
                            #[trigger] started@.skip(krel as int + 1)[m]) == i;
                        assert(started@.skip(krel as int)[m + 1] == i);
                        assert(is_active(started@.skip(krel as int), i));
                    }
                }
            }
        }
        krel += 1;
    }
    proof {
        assert(started@.take(started@.len() as int) =~= started@);
        // All positions processed: the kept list is exactly the still-active
        // ones.
        assert forall|m: int| 0 <= m < new_started@.len() implies (#[trigger] new_started@[m])
            < scheduled@.len() && a_last(scheduled@[new_started@[m] as int]) as int
            >= current_time_slot as int by {}
        assert forall|i: int|
            0 <= i < scheduled@.len() implies (is_active(new_started@, i) <==> a_last(
            #[trigger] scheduled@[i],
        ) as int >= current_time_slot as int) by {
            if is_active(new_started@, i) {
                let m = choose|m: int| 0 <= m < new_started@.len() && new_started@[m] == i;
                assert(a_last(scheduled@[new_started@[m] as int]) as int
                    >= current_time_slot as int);
            }
            if a_last(scheduled@[i]) as int >= current_time_slot as int {
                assert(a_last(scheduled@[i]) as int >= current_time_slot as int - 1);
                assert(is_active(started@, i));
                let k = choose|k: int| 0 <= k < started@.len() && started@[k] == i;
                assert(a_last(scheduled@[(started@[k]) as int]) as int >= t_now as int);
                assert(is_active(new_started@, started@[k] as int));
            }
        }
    }
    new_started
}

/// Runs the scheduling engine.
///
/// Activities are sorted ascending by attendance (ties keep input order),
/// checked for feasibility (peak concurrency must not exceed the room count),
/// and then admitted slot by slot: each activity starting at the current slot
/// is given the free room closest in capacity to its attendance, or routed to
/// the unscheduled list when no free room fits; a room returns to the pool
/// after its activity's last slot has passed.
///
/// The contract pins the result: the run fails (with `CapacityInfeasible`)
/// exactly when some slot is demanded by more activities than there are
/// rooms; otherwise both output lists, in order, equal `schedule_spec`, the
/// specification-level rerun of the simulation — so equal requests get equal
/// answers. The named guarantees follow and are also stated directly: every
/// scheduled activity holds a fitting room, no two scheduled activities
/// sharing a slot hold the same room, and the two output lists partition the
/// input.
#[verifier::loop_isolation(false)]
#[verifier::rlimit(60)]
pub fn run_scheduler(activities: Vec<Activity>, rooms: Vec<Room>) -> (r: Result<
    (Vec<Activity>, Vec<Activity>),
    SchedulerError,
>)
    requires
        forall|i: int|
            0 <= i < activities@.len() ==> act_wf(#[trigger] activities@[i])
                && activities@[i].room is None,
        forall|i: int, j: int|
            0 <= i < j < rooms@.len() ==> rooms@[i].name@ != rooms@[j].name@,
    ensures
        r is Err <==> exists|t: u32| count_in_slot(activities@, t) > rooms@.len(),
        r matches Err(e) ==> e is CapacityInfeasible,
        r matches Ok(out) ==> {
            &&& (out.0@, out.1@) == schedule_spec(activities@, rooms@)
            &&& forall|i: int|
                0 <= i < out.0@.len() ==> (#[trigger] out.0@[i]).room is Some
                    && out.0@[i].room->0.capacity >= out.0@[i].students_count
            &&& no_double_booking(out.0@)
            &&& erased(out.0@).to_multiset().add(out.1@.to_multiset())
                == activities@.to_multiset()
            &&& forall|i: int| 0 <= i < out.1@.len() ==> (#[trigger] out.1@[i]).room is None
        },
{
    broadcast use vstd::multiset::group_multiset_axioms;

    let max_simultaneus = max_simultaneus_activities(&activities);
    if rooms.len() < max_simultaneus {
        return Err(SchedulerError::CapacityInfeasible);
    }
    proof {
        lemma_sort_spec_multiset(activities@);
    }
    let mut pending = sort_activities(activities);
    let mut free_rooms = rooms;
    let mut scheduled: Vec<Activity> = Vec::new();
    let mut unscheduled: Vec<Activity> = Vec::new();
    let mut started: Vec<usize> = Vec::new();
    let mut current_time_slot: u64 = 0;
    let ghost sim_target = schedule_spec(activities@, rooms@);
    proof {
        assert(started@ =~= Seq::<usize>::empty());
        assert(scheduled@ =~= Seq::<Activity>::empty());
        assert(unscheduled@ =~= Seq::<Activity>::empty());
        assert(spec_sim(pending@, started@, free_rooms@, scheduled@, unscheduled@, 0)
            == sim_target);
        assert(pending@.to_multiset() == activities@.to_multiset());
        assert(erased(scheduled@) =~= Seq::<Activity>::empty());
        assert(erased(scheduled@).to_multiset().add(unscheduled@.to_multiset()).add(
            pending@.to_multiset(),
        ) =~= activities@.to_multiset());
        assert forall|k: int| 0 <= k < pending@.len() implies act_wf(#[trigger] pending@[k])
            && pending@[k].room is None by {
            assert(pending@.to_multiset().contains(pending@[k]));
            assert(activities@.contains(pending@[k]));
        }
    }
    while pending.len() > 0
        invariant
            pending_ok(pending@, current_time_slot),
            scheduled_ok(scheduled@, current_time_slot as int - 1),
            no_double_booking(scheduled@),
            started_ok(started@, scheduled@, current_time_slot as int - 1),
            rooms_ok(started@, scheduled@, free_rooms@),
            erased(scheduled@).to_multiset().add(unscheduled@.to_multiset()).add(
                pending@.to_multiset(),
            ) == activities@.to_multiset(),
            forall|k: int| 0 <= k < unscheduled@.len() ==> (#[trigger] unscheduled@[k]).room
                is None,
            spec_sim(
                pending@,
                started@,
                free_rooms@,
                scheduled@,
                unscheduled@,
                current_time_slot as int,
            ) == sim_target,
        decreases u32::MAX as int + 1 - current_time_slot as int,
    {
        let ghost entry_started = started@;
        let ghost entry_free = free_rooms@;
        let ghost entry_sched = scheduled@;
        let ghost entry_unsched = unscheduled@;
        proof {
            assert(a_first(pending@[0]) as int >= current_time_slot as int);
            assert(current_time_slot <= u32::MAX as u64);
            assert(sim_inv(pending@, current_time_slot as int));
        }
        // Gather the activities that start now, keeping pool order.
        let ghost pre_drain = pending@;
        let mut starting_now: Vec<Activity> = Vec::new();
        let ghost mut processed: int = 0;
        let mut idx: usize = 0;
        while idx < pending.len()
            invariant
                idx <= pending@.len(),
                pending_ok(pending@, current_time_slot),
                forall|k: int|
                    0 <= k < idx ==> a_first(#[trigger] pending@[k]) as int
                        != current_time_slot as int,
                forall|k: int|
                    0 <= k < starting_now@.len() ==> act_wf(#[trigger] starting_now@[k])
                        && starting_now@[k].room is None && a_first(starting_now@[k]) as int
                        == current_time_slot as int,
                pending@.to_multiset().add(starting_now@.to_multiset())
                    == pre_drain.to_multiset(),
                0 <= processed <= pre_drain.len(),
                pending@ == pre_drain.take(processed).filter(
                    not_starts_at(current_time_slot as int),
                ) + pre_drain.skip(processed),
                idx == pre_drain.take(processed).filter(
                    not_starts_at(current_time_slot as int),
                ).len(),
                starting_now@ == pre_drain.take(processed).filter(
                    starts_at(current_time_slot as int),
                ),
            decreases pending@.len() - idx,
        {
            proof {
                let t = current_time_slot as int;
                let kept = pre_drain.take(processed).filter(not_starts_at(t));
                assert(pre_drain.skip(processed).len() > 0);
                assert(pending@[idx as int] == pre_drain.skip(processed)[0]);
                assert(pre_drain.skip(processed)[0] == pre_drain[processed]);
                assert(pre_drain.take(processed + 1) =~= pre_drain.take(processed).push(
                    pre_drain[processed],
                ));
                pre_drain.take(processed).lemma_filter_push(pre_drain[processed], starts_at(t));
                pre_drain.take(processed).lemma_filter_push(
                    pre_drain[processed],
                    not_starts_at(t),
                );
                assert(pre_drain.skip(processed).drop_first() =~= pre_drain.skip(processed + 1));
            }
            if pending[idx].time_slots[0] as u64 == current_time_slot {
                let ghost pre = pending@;
                let a = pending.remove(idx);
                starting_now.push(a);
                proof {
                    let t = current_time_slot as int;
                    let kept = pre_drain.take(processed).filter(not_starts_at(t));
                    assert(pre.to_multiset().contains(a));
                    assert(pending@.to_multiset().add(starting_now@.to_multiset())
                        =~= pre_drain.to_multiset());
                    assert(starts_at(t)(pre_drain[processed]));
                    assert(pending@ =~= kept + pre_drain.skip(processed + 1));
                    assert(pre_drain.take(processed + 1).filter(not_starts_at(t)) == kept);
                    processed = processed + 1;
                }
            } else {
                proof {
                    let t = current_time_slot as int;
                    let kept = pre_drain.take(processed).filter(not_starts_at(t));
                    assert(not_starts_at(t)(pre_drain[processed]));
                    assert(kept.push(pre_drain[processed]) + pre_drain.skip(processed + 1)
                        =~= kept + pre_drain.skip(processed));
                    processed = processed + 1;
                }
                idx += 1;
            }
        }
        let ghost starting0 = starting_now@;
        proof {
            let t = current_time_slot as int;
            assert(pre_drain.skip(processed).len() == 0);
            assert(processed == pre_drain.len());
            assert(pre_drain.take(processed) =~= pre_drain);
            assert(pending@ =~= pre_drain.filter(not_starts_at(t)));
            assert(starting_now@ == pre_drain.filter(starts_at(t)));
        }
        if starting_now.is_empty() && started.is_empty() {
            proof {
                let t = current_time_slot as int;
                assert(spec_sim(pre_drain, entry_started, entry_free, entry_sched, entry_unsched, t)
                    == spec_sim(pending@, started@, free_rooms@, scheduled@, unscheduled@, t + 1));
            }
            current_time_slot = current_time_slot + 1;
        } else {
            started = release_finished(&scheduled, started, &mut free_rooms, current_time_slot);
            let ghost admit_target = spec_admit(
                starting_now@,
                free_rooms@,
                scheduled@,
                unscheduled@,
                started@,
            );
            proof {
                assert((started@, free_rooms@) == spec_release(
                    entry_sched,
                    entry_started,
                    entry_free,
                    current_time_slot as int,
                ));
            }
            // Admission phase: the last collected activity is handled first.
            while starting_now.len() > 0
                invariant
                    forall|k: int|
                        0 <= k < starting_now@.len() ==> act_wf(#[trigger] starting_now@[k])
                            && starting_now@[k].room is None && a_first(starting_now@[k]) as int
                            == current_time_slot as int,
                    scheduled_ok(scheduled@, current_time_slot as int),
                    no_double_booking(scheduled@),
                    started_ok(started@, scheduled@, current_time_slot as int),
                    rooms_ok(started@, scheduled@, free_rooms@),
                    erased(scheduled@).to_multiset().add(unscheduled@.to_multiset()).add(
                        pending@.to_multiset(),
                    ).add(starting_now@.to_multiset()) == activities@.to_multiset(),
                    forall|k: int| 0 <= k < unscheduled@.len() ==> (
                    #[trigger] unscheduled@[k]).room is None,
                    spec_admit(starting_now@, free_rooms@, scheduled@, unscheduled@, started@)
                        == admit_target,
                decreases starting_now@.len(),
            {
                let ghost pre_start = starting_now@;
                let ghost pre_unsched = unscheduled@;
                let mut activity = match starting_now.pop() {
                    Some(a) => a,
                    None => {
                        return Err(SchedulerError::InternalInvariantViolation);
                    },
                };
                proof {
                    assert(pre_start.drop_last().push(pre_start.last()) =~= pre_start);
                    assert(pre_start.to_multiset() == pre_start.drop_last().to_multiset().insert(
                        pre_start.last(),
                    ));
                }
                let available_rooms = available_rooms_for(&free_rooms, activity.students_count);
                if available_rooms.is_empty() {
                    unscheduled.push(activity);
                    proof {
                        assert(erased(scheduled@).to_multiset().add(
                            unscheduled@.to_multiset(),
                        ).add(pending@.to_multiset()).add(starting_now@.to_multiset())
                            =~= activities@.to_multiset());
                        assert(starting_now@ =~= pre_start.drop_last());
                        assert(unscheduled@ == pre_unsched.push(pre_start.last()));
                        assert(spec_admit(pre_start, free_rooms@, scheduled@, pre_unsched, started@)
                            == spec_admit(
                            starting_now@,
                            free_rooms@,
                            scheduled@,
                            unscheduled@,
                            started@,
                        ));
                    }
                } else {
                    let best_room = get_best_room(&activity, available_rooms);
                    proof {
                        assert(free_rooms@.filter(fits(activity.students_count)).contains(
                            best_room,
                        ));
                        free_rooms@.lemma_filter_contains_rev(
                            fits(activity.students_count),
                            best_room,
                        );
                        let jb = choose|j: int|
                            0 <= j < free_rooms@.len() && free_rooms@[j] == best_room;
                        assert(free_rooms@[jb].name@ == best_room.name@);
                    }
                    let ghost pre_free = free_rooms@;
                    let ghost pre_sched = scheduled@;
                    let ghost pre_started = started@;
                    let ghost orig_activity = activity;
                    let removed = remove_room_named(&mut free_rooms, &best_room.name);
                    proof {
                        let j0 = choose|j: int|
                            0 <= j < pre_free.len() && pre_free[j].name@ == best_room.name@ && (
                            forall|k: int| 0 <= k < j ==> pre_free[k].name@ != best_room.name@)
                                && removed == pre_free[j] && free_rooms@ == pre_free.remove(j);
                        let jb = choose|j: int|
                            0 <= j < pre_free.len() && pre_free[j] == best_room;
                        assert(j0 == jb);
                        assert(removed == best_room);
                    }
                    activity.room = Some(best_room);
                    scheduled.push(activity);
                    let new_idx = scheduled.len() - 1;
                    started.push(new_idx);
                    proof {
                        let t = current_time_slot;
                        let na = scheduled@[new_idx as int];
                        // The new activity's erasure is the activity as it
                        // was popped, so the partition is preserved.
                        assert(erase_room(na) == orig_activity);
                        lemma_erased_push(pre_sched, na);
                        assert(erased(scheduled@).to_multiset().add(
                            unscheduled@.to_multiset(),
                        ).add(pending@.to_multiset()).add(starting_now@.to_multiset())
                            =~= activities@.to_multiset());
                        // The new index is active; old positions keep their status.
                        assert forall|i: int|
                            0 <= i < scheduled@.len() implies (is_active(started@, i) <==> a_last(
                            #[trigger] scheduled@[i],
                        ) as int >= t as int) by {
                            if i == new_idx as int {
                                assert(started@[started@.len() - 1] == new_idx);
                                assert(a_last(na) as int >= a_first(na) as int);
                            } else {
                                assert(scheduled@[i] == pre_sched[i]);
                                if is_active(started@, i) {
                                    let k = choose|k: int|
                                        0 <= k < started@.len() && started@[k] == i;
                                    assert(started@[k] == pre_started[k]);
                                    assert(is_active(pre_started, i));
                                } else {
                                    if is_active(pre_started, i) {
                                        let k = choose|k: int|
                                            0 <= k < pre_started.len() && pre_started[k] == i;
                                        assert(started@[k] == i);
                                    }
                                }
                            }
                        }
                        // No double booking with the new activity.
                        assert forall|i: int, j: int|
                            0 <= i < scheduled@.len() && 0 <= j < scheduled@.len() && i != j
                                && #[trigger] shares_slot(scheduled@[i], scheduled@[j]) implies
                            scheduled@[i].room->0.name@ != scheduled@[j].room->0.name@ by {
                            if i < pre_sched.len() && j < pre_sched.len() {
                                assert(shares_slot(pre_sched[i], pre_sched[j]));
                            } else {
                                let m = if i == new_idx as int { j } else { i };
                                assert(scheduled@[m] == pre_sched[m]);
                                if is_active(pre_started, m) {
                                    assert(pre_sched[m].room->0.name@ != pre_free[j0_of(
                                        pre_free,
                                        best_room,
                                    )].name@);
                                } else {
                                    assert((a_last(pre_sched[m]) as int) < t as int);
                                    lemma_disjoint_intervals_no_share(pre_sched[m], na);
                                    assert(!shares_slot(scheduled@[m], na));
                                    assert(false);
                                }
                            }
                        }
                        // Room bookkeeping: the assigned room left the pool.
                        assert forall|i: int, j: int|
                            0 <= i < scheduled@.len() && is_active(started@, i) && 0 <= j
                                < free_rooms@.len() implies (#[trigger] scheduled@[i]).room
                            ->0.name@ != (#[trigger] free_rooms@[j]).name@ by {
                            let j0 = j0_of(pre_free, best_room);
                            assert(free_rooms@ == pre_free.remove(j0));
                            if j < j0 {
                                assert(free_rooms@[j] == pre_free[j]);
                            } else {
                                assert(free_rooms@[j] == pre_free[j + 1]);
                            }
                            if i != new_idx as int {
                                assert(is_active(pre_started, i));
                            }
                        }
                        assert forall|j1: int, j2: int|
                            0 <= j1 < j2 < free_rooms@.len() implies free_rooms@[j1].name@
                            != free_rooms@[j2].name@ by {
                            let j0 = j0_of(pre_free, best_room);
                            assert(free_rooms@ == pre_free.remove(j0));
                        }
                        // Exactness: this step is one unfolding of the
                        // admission pass.
                        assert(orig_activity == pre_start.last());
                        assert(free_rooms@ == remove_first_named(pre_free, best_room.name@));
                        assert(scheduled@ == pre_sched.push(
                            Activity { room: Some(best_room), ..orig_activity },
                        ));
                        assert(new_idx as int == pre_sched.len());
                        assert(pre_sched.len() as usize == new_idx);
                        assert(started@ == pre_started.push(new_idx));
                        assert(starting_now@ =~= pre_start.drop_last());
                        assert(spec_admit(pre_start, pre_free, pre_sched, unscheduled@, pre_started)
                            == spec_admit(
                            starting_now@,
                            free_rooms@,
                            scheduled@,
                            unscheduled@,
                            started@,
                        ));
                    }
                }
            }
            proof {
                let t = current_time_slot as int;
                assert(spec_admit(starting_now@, free_rooms@, scheduled@, unscheduled@, started@)
                    == (free_rooms@, scheduled@, unscheduled@, started@));
                assert(spec_sim(pre_drain, entry_started, entry_free, entry_sched, entry_unsched, t)
                    == spec_sim(pending@, started@, free_rooms@, scheduled@, unscheduled@, t + 1));
            }
            current_time_slot = current_time_slot + 1;
            proof {
                assert(starting_now@.to_multiset().len() == 0);
                assert(erased(scheduled@).to_multiset().add(unscheduled@.to_multiset()).add(
                    pending@.to_multiset(),
                ) =~= activities@.to_multiset());
            }
        }
    }
    proof {
        assert(pending@.to_multiset().len() == 0);
        assert(erased(scheduled@).to_multiset().add(unscheduled@.to_multiset())
            =~= activities@.to_multiset());
        assert forall|t: u32| count_in_slot(activities@, t) <= rooms@.len() by {}
        assert(sim_inv(pending@, current_time_slot as int));
        assert(spec_sim(
            pending@,
            started@,
            free_rooms@,
            scheduled@,
            unscheduled@,
            current_time_slot as int,
        ) == (scheduled@, unscheduled@));
        assert((scheduled@, unscheduled@) == schedule_spec(activities@, rooms@));
    }
    Ok((scheduled, unscheduled))
}

/// The index from which `remove_room_named` removed the room carrying
/// `best`'s name.
spec fn j0_of(pre_free: Seq<Room>, best: Room) -> int {
    choose|j: int|
        0 <= j < pre_free.len() && pre_free[j].name@ == best.name@ && (forall|k: int|
            0 <= k < j ==> pre_free[k].name@ != best.name@)
}

} // verus!
