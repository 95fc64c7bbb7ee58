use chrono::TimeZone;
use gate_allocation::domain::AircraftSize;
use gate_allocation::domain::DisruptionEvent;
use gate_allocation::domain::DisruptionType;
use gate_allocation::domain::Flight;
use gate_allocation::domain::FlightStatus;
use gate_allocation::domain::Gate;
use gate_allocation::engine::AllocationEngine;

fn gate(id: &str, term: &str, size: AircraftSize) -> Gate {
    Gate { gate_id: id.into(), terminal: term.into(), size, is_available: true }
}

fn ts(h: u32, m: u32) -> i64 {
    chrono::Utc.with_ymd_and_hms(2026, 3, 1, h, m, 0).unwrap().timestamp()
}

fn flight(id: &str, ac: &str, arr_h: u32, dep_h: u32) -> Flight {
    Flight {
        flight_id: id.into(),
        airline: "Test".into(),
        origin: "LHR".into(),
        destination: "JFK".into(),
        aircraft_type: ac.into(),
        scheduled_arrival: ts(arr_h, 0),
        scheduled_departure: ts(dep_h, 0),
        status: FlightStatus::Scheduled,
    }
}

fn event(kind: DisruptionType, flight_id: &str, description: &str, delay: i32) -> DisruptionEvent {
    DisruptionEvent {
        event_id: uuid::Uuid::new_v4().to_string(),
        disruption_type: kind,
        affected_flight_id: flight_id.into(),
        description: description.into(),
        reported_at: chrono::Utc::now().timestamp(),
        delay_minutes: delay,
    }
}

#[test]
fn allocates_right_sized_gate() {
    let mut e = AllocationEngine::new();
    e.add_gate(gate("A1", "T5", AircraftSize::Medium));
    e.add_gate(gate("A2", "T5", AircraftSize::Large));
    assert_eq!(
        e.allocate_gate(&flight("F1", "A320", 10, 12), "LHR", &Vec::new())
            .assignment
            .unwrap()
            .gate
            .gate_id,
        "A1"
    );
}

#[test]
fn rejects_undersized_gate() {
    let mut e = AllocationEngine::new();
    e.add_gate(gate("A1", "T5", AircraftSize::Small));
    assert!(!e.allocate_gate(&flight("F1", "A320", 10, 12), "LHR", &Vec::new()).success);
}

#[test]
fn detects_time_conflicts() {
    let mut e = AllocationEngine::new();
    e.add_gate(gate("A1", "T5", AircraftSize::Medium));
    assert!(e.allocate_gate(&flight("F1", "A320", 10, 12), "LHR", &Vec::new()).success);
    assert!(!e.allocate_gate(&flight("F2", "A320", 11, 13), "LHR", &Vec::new()).success);
}

#[test]
fn cancellation_frees_gate() {
    let mut e = AllocationEngine::new();
    e.add_gate(gate("A1", "T5", AircraftSize::Medium));
    e.allocate_gate(&flight("F1", "A320", 10, 12), "LHR", &Vec::new());
    e.handle_disruption(event(DisruptionType::Cancellation, "F1", "Cancelled", 0));
    assert!(e.allocate_gate(&flight("F2", "A320", 11, 13), "LHR", &Vec::new()).success);
}

#[test]
fn prefers_requested_gate() {
    let mut e = AllocationEngine::new();
    e.add_gate(gate("A1", "T5", AircraftSize::Medium));
    e.add_gate(gate("B1", "T5", AircraftSize::Medium));
    let r = e.allocate_gate(&flight("F1", "A320", 10, 12), "LHR", &vec!["B1".to_string()]);
    assert_eq!(r.assignment.unwrap().gate.gate_id, "B1");
}

#[test]
fn allocation_message_reports_flight_gate_and_score() {
    let mut e = AllocationEngine::new();
    e.add_gate(gate("A1", "T5", AircraftSize::Medium));
    e.add_gate(gate("B1", "T5", AircraftSize::Medium));
    let r = e.allocate_gate(&flight("F1", "A320", 10, 12), "LHR", &Vec::new());
    assert_eq!(r.message, "Allocated F1 -> A1 (score: 0.0)");
    let r = e.allocate_gate(&flight("F2", "A320", 13, 15), "LHR", &vec!["B1".to_string()]);
    assert_eq!(r.message, "Allocated F2 -> B1 (score: -3.0)");
}

#[test]
fn abutting_windows_do_not_conflict() {
    // F1's window is [10:00, 12:15) with the 15-minute turnaround buffer;
    // a flight arriving exactly at 12:15 on the same single gate succeeds.
    let mut e = AllocationEngine::new();
    e.add_gate(gate("A1", "T5", AircraftSize::Medium));
    assert!(e.allocate_gate(&flight("F1", "A320", 10, 12), "LHR", &Vec::new()).success);
    let mut f2 = flight("F2", "A320", 13, 15);
    f2.scheduled_arrival = ts(12, 15);
    let r = e.allocate_gate(&f2, "LHR", &Vec::new());
    assert!(r.success);
    assert_eq!(r.assignment.unwrap().gate.gate_id, "A1");
}

#[test]
fn no_double_booking_holds_after_operations() {
    let mut e = AllocationEngine::new();
    e.add_gate(gate("A1", "T5", AircraftSize::Medium));
    e.add_gate(gate("B1", "T5", AircraftSize::Medium));
    e.allocate_gate(&flight("F1", "A320", 10, 12), "LHR", &Vec::new());
    e.allocate_gate(&flight("F2", "A320", 11, 13), "LHR", &Vec::new());
    e.allocate_gate(&flight("F3", "A320", 12, 14), "LHR", &Vec::new());
    e.handle_disruption(event(DisruptionType::Delay, "F1", "fog", 45));
    let all = e.get_assignments(None);
    for a in &all {
        for b in &all {
            if a.assignment_id != b.assignment_id && a.gate.gate_id == b.gate.gate_id {
                assert!(!(a.assigned_from < b.assigned_until && a.assigned_until > b.assigned_from));
            }
        }
    }
}

#[test]
fn allocation_window_uses_turnaround_buffer() {
    let mut e = AllocationEngine::new();
    e.add_gate(gate("A1", "T5", AircraftSize::Medium));
    let r = e.allocate_gate(&flight("F1", "A320", 10, 12), "LHR", &Vec::new());
    let a = r.assignment.unwrap();
    assert_eq!(a.assigned_from, ts(10, 0));
    assert_eq!(a.assigned_until, ts(12, 15));
}

#[test]
fn failed_allocation_reports_message_and_leaves_state() {
    let mut e = AllocationEngine::new();
    e.add_gate(gate("A1", "T5", AircraftSize::Small));
    let r = e.allocate_gate(&flight("F1", "A320", 10, 12), "LHR", &Vec::new());
    assert!(!r.success);
    assert!(r.assignment.is_none());
    assert_eq!(r.message, "No compatible gate for F1 (A320) at LHR");
    assert_eq!(e.stats().occupied_gates, 0);
}

#[test]
fn assignment_id_is_a_uuid_string() {
    let mut e = AllocationEngine::new();
    e.add_gate(gate("A1", "T5", AircraftSize::Medium));
    let a = e.allocate_gate(&flight("F1", "A320", 10, 12), "LHR", &Vec::new()).assignment.unwrap();
    assert_eq!(a.assignment_id.chars().count(), 36);
}

#[test]
fn delay_without_conflict_shifts_in_place() {
    let mut e = AllocationEngine::new();
    e.add_gate(gate("A1", "T5", AircraftSize::Medium));
    e.allocate_gate(&flight("F1", "A320", 10, 12), "LHR", &Vec::new());
    let id_before = e.assignments[0].assignment_id.clone();
    let r = e.handle_disruption(event(DisruptionType::Delay, "F1", "fog", 45));
    assert_eq!(e.assignments[0].assignment_id, id_before);
    assert!(r.acknowledged);
    assert_eq!(r.reassignments.len(), 1);
    assert_eq!(r.summary, "F1 delayed 45min - 1 assignment(s) adjusted");
    let all = e.get_assignments(None);
    assert_eq!(all.len(), 1);
    assert_eq!(all[0].assigned_from, ts(10, 45));
    assert_eq!(all[0].assigned_until, ts(12, 15) + 45 * 60);
    assert_eq!(all[0].flight.status, FlightStatus::Delayed);
    assert_eq!(all[0].gate.gate_id, "A1");
}

#[test]
fn delay_with_conflict_reallocates_to_other_gate() {
    let mut e = AllocationEngine::new();
    e.add_gate(gate("A1", "T5", AircraftSize::Medium));
    e.add_gate(gate("B1", "T5", AircraftSize::Medium));
    e.allocate_gate(&flight("F1", "A320", 10, 12), "LHR", &Vec::new());
    let mut f2 = flight("F2", "A320", 13, 15);
    f2.scheduled_arrival = ts(12, 15);
    // Both fit on A1 back to back; the 30-minute delay of F1 then collides
    // with F2 on A1, so F1's shifted copy is re-allocated, landing on B1.
    assert_eq!(
        e.allocate_gate(&f2, "LHR", &Vec::new()).assignment.unwrap().gate.gate_id,
        "A1"
    );
    let r = e.handle_disruption(event(DisruptionType::Delay, "F1", "fog", 30));
    assert_eq!(r.reassignments.len(), 1);
    assert_eq!(r.reassignments[0].gate.gate_id, "B1");
    assert_eq!(r.reassignments[0].flight.status, FlightStatus::Delayed);
    assert_eq!(r.reassignments[0].assigned_from, ts(10, 30));
    // The original slot on A1 is vacated: only F2 stays there, and F1
    // holds exactly its one new booking on B1.
    let all = e.get_assignments(None);
    assert_eq!(all.len(), 2);
    for a in &all {
        if a.gate.gate_id == "A1" {
            assert_eq!(a.flight.flight_id, "F2");
        } else {
            assert_eq!(a.gate.gate_id, "B1");
            assert_eq!(a.flight.flight_id, "F1");
        }
    }
}

#[test]
fn delay_conflict_without_alternative_leaves_flight_unassigned() {
    let mut e = AllocationEngine::new();
    e.add_gate(gate("A1", "T5", AircraftSize::Medium));
    e.allocate_gate(&flight("F1", "A320", 10, 12), "LHR", &Vec::new());
    let mut f2 = flight("F2", "A320", 13, 15);
    f2.scheduled_arrival = ts(12, 15);
    assert!(e.allocate_gate(&f2, "LHR", &Vec::new()).success);
    // The shifted F1 collides with F2 on the only gate, and no other gate
    // exists: the old slot is vacated and F1 ends without a booking.
    let r = e.handle_disruption(event(DisruptionType::Delay, "F1", "fog", 30));
    assert!(r.acknowledged);
    assert!(r.reassignments.is_empty());
    assert_eq!(r.summary, "F1 delayed 30min - 1 assignment(s) adjusted");
    let all = e.get_assignments(None);
    assert_eq!(all.len(), 1);
    assert_eq!(all[0].flight.flight_id, "F2");
}

#[test]
fn negative_delay_shifts_window_earlier() {
    let mut e = AllocationEngine::new();
    e.add_gate(gate("A1", "T5", AircraftSize::Medium));
    e.allocate_gate(&flight("F1", "A320", 10, 12), "LHR", &Vec::new());
    let r = e.handle_disruption(event(DisruptionType::Delay, "F1", "early", -30));
    assert_eq!(r.summary, "F1 delayed -30min - 1 assignment(s) adjusted");
    let all = e.get_assignments(None);
    assert_eq!(all[0].assigned_from, ts(9, 30));
    assert_eq!(all[0].assigned_until, ts(11, 45));
}

#[test]
fn delay_of_unknown_flight_touches_nothing() {
    let mut e = AllocationEngine::new();
    e.add_gate(gate("A1", "T5", AircraftSize::Medium));
    e.allocate_gate(&flight("F1", "A320", 10, 12), "LHR", &Vec::new());
    let r = e.handle_disruption(event(DisruptionType::Delay, "F9", "fog", 45));
    assert!(r.acknowledged);
    assert!(r.reassignments.is_empty());
    assert_eq!(r.summary, "F9 delayed 45min - 0 assignment(s) adjusted");
    assert_eq!(e.get_assignments(None)[0].assigned_from, ts(10, 0));
}

#[test]
fn cancellation_summary_counts_freed_gates() {
    let mut e = AllocationEngine::new();
    e.add_gate(gate("A1", "T5", AircraftSize::Medium));
    e.allocate_gate(&flight("F1", "A320", 10, 12), "LHR", &Vec::new());
    let r = e.handle_disruption(event(DisruptionType::Cancellation, "F1", "fault", 0));
    assert!(r.acknowledged);
    assert!(r.reassignments.is_empty());
    assert_eq!(r.summary, "F1 cancelled - 1 gate(s) freed");
    assert_eq!(e.stats().occupied_gates, 0);
}

#[test]
fn diversion_removes_assignments() {
    let mut e = AllocationEngine::new();
    e.add_gate(gate("A1", "T5", AircraftSize::Medium));
    e.allocate_gate(&flight("F1", "A320", 10, 12), "LHR", &Vec::new());
    let r = e.handle_disruption(event(DisruptionType::Diversion, "F1", "weather", 0));
    assert!(r.acknowledged);
    assert!(r.reassignments.is_empty());
    assert_eq!(e.stats().occupied_gates, 0);
}

#[test]
fn weather_and_mechanical_only_record_history() {
    let mut e = AllocationEngine::new();
    e.add_gate(gate("A1", "T5", AircraftSize::Medium));
    e.allocate_gate(&flight("F1", "A320", 10, 12), "LHR", &Vec::new());
    let r1 = e.handle_disruption(event(DisruptionType::Weather, "F1", "storm", 0));
    let r2 = e.handle_disruption(event(DisruptionType::Mechanical, "F1", "fault", 0));
    assert!(r1.acknowledged && r2.acknowledged);
    assert!(r1.reassignments.is_empty() && r2.reassignments.is_empty());
    assert_eq!(e.stats().occupied_gates, 1);
    assert_eq!(e.stats().total_disruptions, 2);
}

#[test]
fn gate_unavailable_vacates_and_reallocates() {
    let mut e = AllocationEngine::new();
    e.add_gate(gate("A1", "T5", AircraftSize::Medium));
    e.add_gate(gate("B1", "T5", AircraftSize::Medium));
    e.allocate_gate(&flight("F1", "A320", 10, 12), "LHR", &vec!["A1".to_string()]);
    let mut f2 = flight("F2", "A320", 13, 15);
    f2.scheduled_arrival = ts(12, 15);
    e.allocate_gate(&f2, "LHR", &vec!["A1".to_string()]);
    let r = e.handle_disruption(event(DisruptionType::GateUnavailable, "", "A1", 0));
    assert!(r.acknowledged);
    assert_eq!(r.summary, "Gate A1 unavailable - 2 flight(s) re-allocated");
    assert_eq!(r.reassignments.len(), 2);
    let all = e.get_assignments(None);
    assert_eq!(all.len(), 2);
    for a in &all {
        assert_eq!(a.gate.gate_id, "B1");
    }
    let s = e.stats();
    assert_eq!(s.total_gates, 2);
    assert_eq!(s.available_gates, 1);
}

#[test]
fn gate_unavailable_drops_unplaceable_flights() {
    let mut e = AllocationEngine::new();
    e.add_gate(gate("A1", "T5", AircraftSize::Medium));
    e.allocate_gate(&flight("F1", "A320", 10, 12), "LHR", &Vec::new());
    let r = e.handle_disruption(event(DisruptionType::GateUnavailable, "", "A1", 0));
    assert!(r.acknowledged);
    assert!(r.reassignments.is_empty());
    assert!(e.get_assignments(None).is_empty());
    assert_eq!(e.stats().available_gates, 0);
}

#[test]
fn get_assignments_filters_by_terminal() {
    let mut e = AllocationEngine::new();
    e.add_gate(gate("A1", "T5", AircraftSize::Medium));
    e.add_gate(gate("C1", "T2", AircraftSize::Medium));
    e.allocate_gate(&flight("F1", "A320", 10, 12), "LHR", &vec!["A1".to_string()]);
    e.allocate_gate(&flight("F2", "A320", 10, 12), "LHR", &vec!["C1".to_string()]);
    assert_eq!(e.get_assignments(None).len(), 2);
    let t2 = e.get_assignments(Some("T2"));
    assert_eq!(t2.len(), 1);
    assert_eq!(t2[0].flight.flight_id, "F2");
    assert!(e.get_assignments(Some("T9")).is_empty());
}

#[test]
fn stats_counts_gates_assignments_and_history() {
    let mut e = AllocationEngine::new();
    e.add_gate(gate("A1", "T5", AircraftSize::Medium));
    e.add_gate(gate("B1", "T5", AircraftSize::Large));
    e.allocate_gate(&flight("F1", "A320", 10, 12), "LHR", &Vec::new());
    e.handle_disruption(event(DisruptionType::Weather, "F1", "storm", 0));
    let s = e.stats();
    assert_eq!(s.total_gates, 2);
    assert_eq!(s.available_gates, 2);
    assert_eq!(s.occupied_gates, 1);
    assert_eq!(s.total_disruptions, 1);
}

#[test]
fn oversize_penalty_prefers_tight_fit_over_preference_tie() {
    // A Small-classified flight: a Small gate (penalty 0) beats a Medium
    // gate (penalty 10) even though the Medium gate is registered first.
    let mut e = AllocationEngine::new();
    e.add_gate(gate("M1", "T5", AircraftSize::Medium));
    e.add_gate(gate("S1", "T5", AircraftSize::Small));
    let r = e.allocate_gate(&flight("F1", "E190", 10, 12), "LHR", &Vec::new());
    assert_eq!(r.assignment.unwrap().gate.gate_id, "S1");
}

#[test]
fn preference_reward_outweighs_oversize_gap() {
    // Preferred Large gate scores 20 - 3 = 17; non-preferred Medium gate
    // scores 0 + 5 = 5, so the tight fit still wins for a Small flight.
    let mut e = AllocationEngine::new();
    e.add_gate(gate("M1", "T5", AircraftSize::Medium));
    e.add_gate(gate("L1", "T5", AircraftSize::Large));
    let r = e.allocate_gate(&flight("F1", "E190", 10, 12), "LHR", &vec!["L1".to_string()]);
    assert_eq!(r.assignment.unwrap().gate.gate_id, "M1");
}
