use rooms_scheduler::models::{Activity, Room, SchedulerError};
use rooms_scheduler::scheduler::{
    distance, get_best_room, max_simultaneus_activities, run_scheduler,
    simultaneus_activities_in_timeslot, sort_activities,
};

fn act(id: u32, subject: &str, slots: Vec<u32>, students: u32) -> Activity {
    Activity {
        id,
        subject: subject.to_string(),
        room: None,
        time_slots: slots,
        students_count: students,
    }
}

fn room(name: &str, capacity: u32) -> Room {
    Room { name: name.to_string(), capacity }
}

#[test]
fn scenario_one_activity_one_fitting_room() {
    let activities = vec![act(1, "math", vec![0, 1], 10)];
    let rooms = vec![room("r1", 10)];
    let (scheduled, unscheduled) = run_scheduler(activities, rooms).unwrap();
    assert_eq!(scheduled.len(), 1);
    assert_eq!(scheduled[0].id, 1);
    assert_eq!(scheduled[0].room.as_ref().unwrap().name, "r1");
    assert_eq!(scheduled[0].room.as_ref().unwrap().capacity, 10);
    assert!(unscheduled.is_empty());
}

#[test]
fn scenario_contested_room_smaller_distance_wins() {
    let activities = vec![act(1, "small", vec![0], 5), act(2, "large", vec![0], 50)];
    let rooms = vec![room("r1", 20), room("tiny", 1)];
    let (scheduled, unscheduled) = run_scheduler(activities, rooms).unwrap();
    assert_eq!(scheduled.len(), 1);
    assert_eq!(scheduled[0].id, 1);
    assert_eq!(scheduled[0].room.as_ref().unwrap().name, "r1");
    assert_eq!(unscheduled.len(), 1);
    assert_eq!(unscheduled[0].id, 2);
    assert!(unscheduled[0].room.is_none());
}

#[test]
fn scenario_disjoint_times_reuse_one_room() {
    let activities = vec![act(1, "morning", vec![0, 1], 8), act(2, "afternoon", vec![2, 3], 9)];
    let rooms = vec![room("r1", 12)];
    let (scheduled, unscheduled) = run_scheduler(activities, rooms).unwrap();
    assert_eq!(scheduled.len(), 2);
    assert!(unscheduled.is_empty());
    for a in &scheduled {
        assert_eq!(a.room.as_ref().unwrap().name, "r1");
    }
}

#[test]
fn scenario_no_rooms_is_infeasible() {
    let activities = vec![act(1, "math", vec![0], 10)];
    let rooms: Vec<Room> = Vec::new();
    match run_scheduler(activities, rooms) {
        Err(SchedulerError::CapacityInfeasible) => {}
        _ => panic!("expected CapacityInfeasible"),
    }
}

#[test]
fn feasibility_boundary_equal_counts_succeeds() {
    let activities = vec![act(1, "a", vec![0], 5), act(2, "b", vec![0], 5)];
    let rooms = vec![room("r1", 5), room("r2", 5)];
    let result = run_scheduler(activities, rooms);
    assert!(result.is_ok());
    let (scheduled, unscheduled) = result.unwrap();
    assert_eq!(scheduled.len(), 2);
    assert!(unscheduled.is_empty());
}

#[test]
fn infeasible_when_rooms_fall_short_of_peak() {
    let activities = vec![act(1, "a", vec![0], 5), act(2, "b", vec![0], 5), act(3, "c", vec![0], 5)];
    let rooms = vec![room("r1", 50), room("r2", 50)];
    match run_scheduler(activities, rooms) {
        Err(SchedulerError::CapacityInfeasible) => {}
        _ => panic!("expected CapacityInfeasible"),
    }
}

#[test]
fn determinism_two_identical_runs() {
    let build = || {
        (
            vec![
                act(1, "a", vec![0, 1], 10),
                act(2, "b", vec![1, 2], 20),
                act(3, "c", vec![2, 3], 15),
                act(4, "d", vec![0], 30),
            ],
            vec![room("small", 12), room("mid", 22), room("big", 35)],
        )
    };
    let (a1, r1) = build();
    let (a2, r2) = build();
    let (s1, u1) = run_scheduler(a1, r1).unwrap();
    let (s2, u2) = run_scheduler(a2, r2).unwrap();
    assert_eq!(s1.len(), s2.len());
    assert_eq!(u1.len(), u2.len());
    for (x, y) in s1.iter().zip(s2.iter()) {
        assert_eq!(x.id, y.id);
        assert_eq!(x.room.as_ref().unwrap().name, y.room.as_ref().unwrap().name);
    }
    for (x, y) in u1.iter().zip(u2.iter()) {
        assert_eq!(x.id, y.id);
    }
}

#[test]
fn outputs_respect_capacity_booking_and_partition() {
    let activities = vec![
        act(1, "a", vec![0, 1], 25),
        act(2, "b", vec![0, 1], 10),
        act(3, "c", vec![1, 2], 18),
        act(4, "d", vec![3], 40),
        act(5, "e", vec![0], 60),
    ];
    let rooms = vec![room("r1", 30), room("r2", 20), room("r3", 12)];
    let (scheduled, unscheduled) = run_scheduler(activities, rooms).unwrap();
    // Partition: every input id appears exactly once across the outputs.
    let mut ids: Vec<u32> =
        scheduled.iter().chain(unscheduled.iter()).map(|a| a.id).collect();
    ids.sort();
    assert_eq!(ids, vec![1, 2, 3, 4, 5]);
    // Capacity invariant.
    for a in &scheduled {
        assert!(a.room.as_ref().unwrap().capacity >= a.students_count);
    }
    // No double-booking among slot-sharing activities.
    for x in &scheduled {
        for y in &scheduled {
            if x.id != y.id && x.time_slots.iter().any(|t| y.time_slots.contains(t)) {
                assert_ne!(x.room.as_ref().unwrap().name, y.room.as_ref().unwrap().name);
            }
        }
    }
    // Unscheduled activities carry no room.
    for a in &unscheduled {
        assert!(a.room.is_none());
    }
}

#[test]
fn count_in_single_timeslot() {
    let activities = vec![
        act(1, "a", vec![0, 1], 1),
        act(2, "b", vec![1, 2], 1),
        act(3, "c", vec![3], 1),
    ];
    assert_eq!(simultaneus_activities_in_timeslot(1, &activities), 2);
    assert_eq!(simultaneus_activities_in_timeslot(3, &activities), 1);
    assert_eq!(simultaneus_activities_in_timeslot(9, &activities), 0);
}

#[test]
fn peak_concurrency_values() {
    let activities = vec![
        act(1, "a", vec![0, 1], 1),
        act(2, "b", vec![1, 2], 1),
        act(3, "c", vec![1], 1),
    ];
    assert_eq!(max_simultaneus_activities(&activities), 3);
    let none: Vec<Activity> = Vec::new();
    assert_eq!(max_simultaneus_activities(&none), 0);
    let disjoint = vec![act(1, "a", vec![0], 1), act(2, "b", vec![5], 1)];
    assert_eq!(max_simultaneus_activities(&disjoint), 1);
}

#[test]
fn sort_is_stable_ascending() {
    let activities = vec![
        act(1, "a", vec![0], 20),
        act(2, "b", vec![0], 5),
        act(3, "c", vec![0], 20),
        act(4, "d", vec![0], 1),
    ];
    let sorted = sort_activities(activities);
    let ids: Vec<u32> = sorted.iter().map(|a| a.id).collect();
    assert_eq!(ids, vec![4, 2, 1, 3]);
}

#[test]
fn distance_is_absolute_difference() {
    assert_eq!(distance(10, 3), 7);
    assert_eq!(distance(3, 10), 7);
    assert_eq!(distance(4, 4), 0);
}

#[test]
fn best_room_minimizes_distance_first_wins_ties() {
    let a = act(1, "a", vec![0], 10);
    let rooms = vec![room("far", 30), room("close", 12), room("exact", 10)];
    let best = get_best_room(&a, rooms);
    assert_eq!(best.name, "exact");
    let tie = vec![room("low", 8), room("high", 12), room("late", 12)];
    let best = get_best_room(&a, tie);
    assert_eq!(best.name, "low");
}
