use gate_allocation::domain::AircraftSize;
use gate_allocation::domain::Gate;
use gate_allocation::domain::classify_aircraft;

fn gate_of(size: AircraftSize) -> Gate {
    Gate { gate_id: "G".into(), terminal: "T".into(), size, is_available: true }
}

#[test]
fn classification_matches_fixed_designator_lists() {
    for t in ["A350", "A380", "B777", "B787", "B747", "A330", "A340"] {
        assert_eq!(classify_aircraft(t), AircraftSize::Large);
    }
    for t in ["E190", "E195", "ATR72", "ATR42", "CRJ900", "CRJ700"] {
        assert_eq!(classify_aircraft(t), AircraftSize::Small);
    }
}

#[test]
fn classification_is_case_insensitive() {
    assert_eq!(classify_aircraft("b777"), AircraftSize::Large);
    assert_eq!(classify_aircraft("a350"), AircraftSize::Large);
    assert_eq!(classify_aircraft("crj900"), AircraftSize::Small);
    assert_eq!(classify_aircraft("atr72"), AircraftSize::Small);
    assert_eq!(classify_aircraft("e190"), AircraftSize::Small);
}

#[test]
fn unknown_designators_default_to_medium() {
    assert_eq!(classify_aircraft("A320"), AircraftSize::Medium);
    assert_eq!(classify_aircraft("B737"), AircraftSize::Medium);
    assert_eq!(classify_aircraft(""), AircraftSize::Medium);
    assert_eq!(classify_aircraft("ZZZZ"), AircraftSize::Medium);
}

#[test]
fn accommodation_agrees_with_size_order() {
    let sizes = [AircraftSize::Small, AircraftSize::Medium, AircraftSize::Large];
    for g in sizes {
        for s in sizes {
            assert_eq!(gate_of(g).can_accommodate(s), g >= s);
        }
    }
}

#[test]
fn size_order_is_small_medium_large() {
    assert!(AircraftSize::Small < AircraftSize::Medium);
    assert!(AircraftSize::Medium < AircraftSize::Large);
    assert!(gate_of(AircraftSize::Large).can_accommodate(AircraftSize::Small));
    assert!(!gate_of(AircraftSize::Small).can_accommodate(AircraftSize::Medium));
}
