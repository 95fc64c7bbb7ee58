//! Domain model: aircraft size classes, flights, gates, assignments and
//! disruption events, together with the classification and compatibility
//! predicates.

use vstd::prelude::*;

verus! {

/// Gate/aircraft size category, ordered `Small < Medium < Large`. A stand
/// can host an aircraft exactly when its own rank is no smaller than the
/// aircraft's rank.
#[derive(Debug, Clone, Copy, PartialEq, Eq, Structural, PartialOrd, Ord)]
pub enum AircraftSize {
    Small,
    Medium,
    Large,
}

/// The explicit rank underlying the size order: `Small = 0`, `Medium = 1`,
/// `Large = 2`.
pub open spec fn size_rank(s: AircraftSize) -> int {
    match s {
        AircraftSize::Small => 0,
        AircraftSize::Medium => 1,
        AircraftSize::Large => 2,
    }
}

/// Executable form of [`size_rank`].
pub fn rank_of(s: AircraftSize) -> (r: u8)
    ensures
        r as int == size_rank(s),
{
    match s {
        AircraftSize::Small => 0,
        AircraftSize::Medium => 1,
        AircraftSize::Large => 2,
    }
}

/// Case-folded code point used for case-insensitive designator matching:
/// ASCII lower-case letters map to their upper-case counterpart, every other
/// character is itself.
pub open spec fn upper_val(c: char) -> int {
    if 97 <= c as u32 && c as u32 <= 122 {
        c as u32 - 32
    } else {
        c as u32 as int
    }
}

/// Case-insensitive equality of two character sequences, ASCII case folding.
pub open spec fn ci_eq(a: Seq<char>, b: Seq<char>) -> bool {
    a.len() == b.len() && (forall|i: int| 0 <= i < a.len() ==> upper_val(a[i]) == upper_val(b[i]))
}

/// Compares two strings case-insensitively (ASCII case folding).
fn str_ieq(a: &str, b: &str) -> (r: bool)
    ensures
        r == ci_eq(a@, b@),
{
    let n = a.unicode_len();
    if n != b.unicode_len() {
        return false;
    }
    let mut i: usize = 0;
    while i < n
        invariant
            i <= n,
            n == a@.len(),
            n == b@.len(),
            forall|j: int| 0 <= j < i ==> upper_val(a@[j]) == upper_val(b@[j]),
        decreases n - i,
    {
        let ca = a.get_char(i) as u32;
        let cb = b.get_char(i) as u32;
        let ua = if 97 <= ca && ca <= 122 {
            ca - 32
        } else {
            ca
        };
        let ub = if 97 <= cb && cb <= 122 {
            cb - 32
        } else {
            cb
        };
        if ua != ub {
            return false;
        }
        i = i + 1;
    }
    true
}

/// Compares two strings for exact equality, character by character.
pub fn str_eq(a: &str, b: &str) -> (r: bool)
    ensures
        r == (a@ == b@),
{
    let n = a.unicode_len();
    if n != b.unicode_len() {
        proof {
            assert(a@ != b@);
        }
        return false;
    }
    let mut i: usize = 0;
    while i < n
        invariant
            i <= n,
            n == a@.len(),
            n == b@.len(),
            forall|j: int| 0 <= j < i ==> a@[j] == b@[j],
        decreases n - i,
    {
        if a.get_char(i) != b.get_char(i) {
            return false;
        }
        i = i + 1;
    }
    proof {
        assert(a@ =~= b@);
    }
    true
}

/// Wide-body designators that need a `Large` gate.
pub open spec fn is_large_designator(s: Seq<char>) -> bool {
    ||| ci_eq(s, "A350"@)
    ||| ci_eq(s, "A380"@)
    ||| ci_eq(s, "B777"@)
    ||| ci_eq(s, "B787"@)
    ||| ci_eq(s, "B747"@)
    ||| ci_eq(s, "A330"@)
    ||| ci_eq(s, "A340"@)
}

/// Regional jets and turboprops that fit a `Small` gate.
pub open spec fn is_small_designator(s: Seq<char>) -> bool {
    ||| ci_eq(s, "E190"@)
    ||| ci_eq(s, "E195"@)
    ||| ci_eq(s, "ATR72"@)
    ||| ci_eq(s, "ATR42"@)
    ||| ci_eq(s, "CRJ900"@)
    ||| ci_eq(s, "CRJ700"@)
}

/// The size class a designator maps to: wide-bodies are `Large`, regional
/// types are `Small`, anything unmatched defaults to `Medium` (the typical
/// narrow-body assumption for unknown types).
pub open spec fn spec_classify(s: Seq<char>) -> AircraftSize {
    if is_large_designator(s) {
        AircraftSize::Large
    } else if is_small_designator(s) {
        AircraftSize::Small
    } else {
        AircraftSize::Medium
    }
}

/// Map an ICAO/common aircraft designator to a gate-size category,
/// case-insensitively. Unmatched designators are valid input and default to
/// `Medium`.
pub fn classify_aircraft(aircraft_type: &str) -> (r: AircraftSize)
    ensures
        r == spec_classify(aircraft_type@),
{
    if str_ieq(aircraft_type, "A350") || str_ieq(aircraft_type, "A380") || str_ieq(
        aircraft_type,
        "B777",
    ) || str_ieq(aircraft_type, "B787") || str_ieq(aircraft_type, "B747") || str_ieq(
        aircraft_type,
        "A330",
    ) || str_ieq(aircraft_type, "A340") {
        AircraftSize::Large
    } else if str_ieq(aircraft_type, "E190") || str_ieq(aircraft_type, "E195") || str_ieq(
        aircraft_type,
        "ATR72",
    ) || str_ieq(aircraft_type, "ATR42") || str_ieq(aircraft_type, "CRJ900") || str_ieq(
        aircraft_type,
        "CRJ700",
    ) {
        AircraftSize::Small
    } else {
        AircraftSize::Medium
    }
}

/// Lifecycle state of a flight. Mutated only by the engine as a side effect
/// of disruption handling, never by allocation success or failure.
#[derive(Debug, Clone, Copy, PartialEq, Eq, Structural)]
pub enum FlightStatus {
    Scheduled,
    Boarding,
    Departed,
    EnRoute,
    Arrived,
    Delayed,
    Cancelled,
    Diverted,
}

/// A flight as handed in by the caller. Times are absolute UTC instants in
/// epoch seconds. The aircraft size class is derived from `aircraft_type`
/// via [`classify_aircraft`], not stored.
#[derive(Debug)]
pub struct Flight {
    pub flight_id: String,
    pub airline: String,
    pub origin: String,
    pub destination: String,
    pub aircraft_type: String,
    pub scheduled_arrival: i64,
    pub scheduled_departure: i64,
    pub status: FlightStatus,
}

impl Clone for Flight {
    fn clone(&self) -> (r: Self)
        ensures
            r == *self,
    {
        Flight {
            flight_id: self.flight_id.clone(),
            airline: self.airline.clone(),
            origin: self.origin.clone(),
            destination: self.destination.clone(),
            aircraft_type: self.aircraft_type.clone(),
            scheduled_arrival: self.scheduled_arrival,
            scheduled_departure: self.scheduled_departure,
            status: self.status,
        }
    }
}

impl Flight {
    /// The derived size class of this flight's aircraft.
    pub fn aircraft_size(&self) -> (r: AircraftSize)
        ensures
            r == spec_classify(self.aircraft_type@),
    {
        classify_aircraft(self.aircraft_type.as_str())
    }
}

/// A physical stand at the airport. `is_available` turns false solely as
/// the result of disruption handling, never because of a booking: while in
/// service, any number of back-to-back bookings may follow each other.
#[derive(Debug)]
pub struct Gate {
    pub gate_id: String,
    pub terminal: String,
    pub size: AircraftSize,
    pub is_available: bool,
}

impl Clone for Gate {
    fn clone(&self) -> (r: Self)
        ensures
            r == *self,
    {
        Gate {
            gate_id: self.gate_id.clone(),
            terminal: self.terminal.clone(),
            size: self.size,
            is_available: self.is_available,
        }
    }
}

impl Gate {
    /// A gate accommodates an aircraft size class iff its own size rank is
    /// at least the aircraft's: `Small < Medium < Large`.
    pub fn can_accommodate(&self, aircraft_size: AircraftSize) -> (r: bool)
        ensures
            r == (size_rank(self.size) >= size_rank(aircraft_size)),
    {
        rank_of(self.size) >= rank_of(aircraft_size)
    }
}

/// A booking of one gate for one flight over the half-open window
/// `[assigned_from, assigned_until)` (epoch seconds). Owns full copies of
/// the flight and gate as they were at assignment time.
#[derive(Debug)]
pub struct GateAssignment {
    pub assignment_id: String,
    pub flight: Flight,
    pub gate: Gate,
    pub assigned_from: i64,
    pub assigned_until: i64,
}

impl Clone for GateAssignment {
    fn clone(&self) -> (r: Self)
        ensures
            r == *self,
    {
        GateAssignment {
            assignment_id: self.assignment_id.clone(),
            flight: self.flight.clone(),
            gate: self.gate.clone(),
            assigned_from: self.assigned_from,
            assigned_until: self.assigned_until,
        }
    }
}

/// Kind of operational disruption.
#[derive(Debug, Clone, Copy, PartialEq, Eq, Structural)]
pub enum DisruptionType {
    Delay,
    Cancellation,
    Diversion,
    GateUnavailable,
    Weather,
    Mechanical,
}

/// A reported disruption. For `GateUnavailable` the target gate id is
/// carried in `description` and `affected_flight_id` is typically empty;
/// `delay_minutes` is meaningful only for `Delay`.
#[derive(Debug)]
pub struct DisruptionEvent {
    pub event_id: String,
    pub disruption_type: DisruptionType,
    pub affected_flight_id: String,
    pub description: String,
    pub reported_at: i64,
    pub delay_minutes: i32,
}

impl Clone for DisruptionEvent {
    fn clone(&self) -> (r: Self)
        ensures
            r == *self,
    {
        DisruptionEvent {
            event_id: self.event_id.clone(),
            disruption_type: self.disruption_type,
            affected_flight_id: self.affected_flight_id.clone(),
            description: self.description.clone(),
            reported_at: self.reported_at,
            delay_minutes: self.delay_minutes,
        }
    }
}

} // verus!
