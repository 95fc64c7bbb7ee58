//! Allocation engine: scoring-based gate selection, time-conflict detection,
//! and per-disruption-type state repair over the authoritative lists of
//! gates, assignments and disruption history.

use vstd::prelude::*;
use vstd::string::*;

use crate::domain::AircraftSize;
use crate::domain::DisruptionEvent;
use crate::domain::DisruptionType;
use crate::domain::Flight;
use crate::domain::FlightStatus;
use crate::domain::Gate;
use crate::domain::GateAssignment;
use crate::domain::rank_of;
use crate::domain::size_rank;
use crate::domain::spec_classify;
use crate::domain::str_eq;

verus! {

/// Mandatory gate-clearing time after scheduled departure, in seconds
/// (15 minutes).
pub const TURNAROUND_BUFFER_SECONDS: i64 = 900;

/// The booking content of an assignment: everything except the generated
/// identity token. Engine contracts are stated over bookings, since the
/// token of a fresh assignment is not a function of the inputs.
pub struct Booking {
    pub flight: Flight,
    pub gate: Gate,
    pub from: i64,
    pub until: i64,
}

/// The booking carried by an assignment.
pub open spec fn shape(a: GateAssignment) -> Booking {
    Booking { flight: a.flight, gate: a.gate, from: a.assigned_from, until: a.assigned_until }
}

/// The bookings carried by a sequence of assignments, in order.
pub open spec fn bk(s: Seq<GateAssignment>) -> Seq<Booking> {
    s.map_values(|a: GateAssignment| shape(a))
}

/// Keep predicate for removing every assignment of one flight.
pub open spec fn keeps_flight(fid: Seq<char>) -> spec_fn(GateAssignment) -> bool {
    |a: GateAssignment| a.flight.flight_id@ != fid
}

/// Keep predicate for removing every assignment on one gate.
pub open spec fn keeps_gate(gid: Seq<char>) -> spec_fn(GateAssignment) -> bool {
    |a: GateAssignment| a.gate.gate_id@ != gid
}

/// [`keeps_flight`], stated on bookings.
pub open spec fn bkeeps_flight(fid: Seq<char>) -> spec_fn(Booking) -> bool {
    |b: Booking| b.flight.flight_id@ != fid
}

/// [`keeps_gate`], stated on bookings.
pub open spec fn bkeeps_gate(gid: Seq<char>) -> spec_fn(Booking) -> bool {
    |b: Booking| b.gate.gate_id@ != gid
}

/// Two half-open windows `[a_from, a_until)` and `[b_from, b_until)` overlap.
/// Touching endpoints (one window ending exactly when the other begins) do
/// not overlap.
pub open spec fn windows_overlap(a_from: i64, a_until: i64, b_from: i64, b_until: i64) -> bool {
    a_from < b_until && a_until > b_from
}

/// Booking `b` would collide with a proposed window on gate `gate_id`.
pub open spec fn booking_conflicts(b: Booking, gate_id: Seq<char>, from: i64, until: i64) -> bool {
    b.gate.gate_id@ == gate_id && windows_overlap(b.from, b.until, from, until)
}

/// Some existing booking collides with the proposed `[from, until)` window
/// on gate `gate_id`.
pub open spec fn spec_has_conflict(s: Seq<Booking>, gate_id: Seq<char>, from: i64, until: i64) -> bool {
    exists|i: int| 0 <= i < s.len() && booking_conflicts(s[i], gate_id, from, until)
}

/// No two bookings on the same gate have overlapping windows.
pub open spec fn no_double_booking(s: Seq<Booking>) -> bool {
    forall|i: int, j: int|
        0 <= i < s.len() && 0 <= j < s.len() && i != j && s[i].gate.gate_id@ == s[j].gate.gate_id@
            ==> !windows_overlap(s[i].from, s[i].until, s[j].from, s[j].until)
}

/// Every booked flight's departure still admits the turnaround buffer
/// without exceeding the timestamp range, so repair re-allocations can
/// recompute the booking window.
pub open spec fn departures_in_range(s: Seq<Booking>) -> bool {
    forall|i: int|
        0 <= i < s.len() ==> s[i].flight.scheduled_departure + TURNAROUND_BUFFER_SECONDS
            <= i64::MAX
}

/// Gate id `id` occurs in the preference list.
pub open spec fn spec_id_in(ids: Seq<String>, id: Seq<char>) -> bool {
    exists|i: int| 0 <= i < ids.len() && ids[i]@ == id
}

/// The greedy score of a candidate gate: an oversize penalty of 10 per rank
/// of unused size, plus a preference reward of -3 or penalty of +5 when a
/// non-empty preference list is given. Lower is better.
pub open spec fn spec_score(g: Gate, size: AircraftSize, preferred: Seq<String>) -> int {
    let diff = size_rank(g.size) - size_rank(size);
    (if diff > 0 {
        10 * diff
    } else {
        0
    }) + (if preferred.len() == 0 {
        0
    } else if spec_id_in(preferred, g.gate_id@) {
        -3
    } else {
        5
    })
}

/// Gate `g` is a candidate for the proposed window: in service, large
/// enough, and free of conflicts with the existing bookings.
pub open spec fn spec_gate_ok(
    g: Gate,
    s: Seq<Booking>,
    size: AircraftSize,
    from: i64,
    until: i64,
) -> bool {
    g.is_available && size_rank(g.size) >= size_rank(size) && !spec_has_conflict(
        s,
        g.gate_id@,
        from,
        until,
    )
}

/// The index of the selected gate: the candidate with the minimum score,
/// ties broken by registration order (first registered wins); `None` when no
/// gate qualifies.
pub open spec fn spec_best_gate(
    gates: Seq<Gate>,
    s: Seq<Booking>,
    size: AircraftSize,
    from: i64,
    until: i64,
    preferred: Seq<String>,
) -> Option<int>
    decreases gates.len(),
{
    if gates.len() == 0 {
        Option::<int>::None
    } else {
        let j = gates.len() - 1;
        let prev = spec_best_gate(gates.drop_last(), s, size, from, until, preferred);
        if spec_gate_ok(gates[j], s, size, from, until) {
            match prev {
                Option::None => Option::Some(j),
                Option::Some(i) => if spec_score(gates[j], size, preferred) < spec_score(
                    gates[i],
                    size,
                    preferred,
                ) {
                    Option::Some(j)
                } else {
                    Option::Some(i)
                },
            }
        } else {
            prev
        }
    }
}

/// What [`spec_best_gate`] promises: the selected index is a candidate with
/// the minimum score, and the first-registered one among equal scores; and
/// when nothing is selected, no candidate exists.
pub proof fn lemma_best_gate_characterization(
    gates: Seq<Gate>,
    s: Seq<Booking>,
    size: AircraftSize,
    from: i64,
    until: i64,
    preferred: Seq<String>,
)
    ensures
        match spec_best_gate(gates, s, size, from, until, preferred) {
            Option::Some(i) => {
                &&& 0 <= i < gates.len()
                &&& spec_gate_ok(gates[i], s, size, from, until)
                &&& forall|j: int|
                    0 <= j < gates.len() && spec_gate_ok(gates[j], s, size, from, until)
                        ==> spec_score(gates[i], size, preferred) <= spec_score(
                        gates[j],
                        size,
                        preferred,
                    )
                &&& forall|j: int|
                    0 <= j < gates.len() && spec_gate_ok(gates[j], s, size, from, until)
                        && spec_score(gates[j], size, preferred) == spec_score(
                        gates[i],
                        size,
                        preferred,
                    ) ==> i <= j
            },
            Option::None => forall|j: int|
                0 <= j < gates.len() ==> !spec_gate_ok(gates[j], s, size, from, until),
        },
    decreases gates.len(),
{
    if gates.len() > 0 {
        lemma_best_gate_characterization(gates.drop_last(), s, size, from, until, preferred);
        assert(forall|j: int|
            0 <= j < gates.len() - 1 ==> gates.drop_last()[j] == gates[j]);
    }
}

/// Index of the winner of [`spec_best_gate`] when run for `flight`, using
/// the flight's classified size and its window extended by the turnaround
/// buffer.
pub open spec fn spec_alloc_choice(
    gates: Seq<Gate>,
    s: Seq<Booking>,
    flight: Flight,
    preferred: Seq<String>,
) -> Option<int> {
    spec_best_gate(
        gates,
        s,
        spec_classify(flight.aircraft_type@),
        flight.scheduled_arrival,
        (flight.scheduled_departure + TURNAROUND_BUFFER_SECONDS) as i64,
        preferred,
    )
}

/// The booking materialized when gate `i` is picked for `flight`: snapshots
/// of the flight and gate, over the window
/// `[scheduled_arrival, scheduled_departure + turnaround buffer)`.
pub open spec fn spec_new_booking(gates: Seq<Gate>, flight: Flight, i: int) -> Booking {
    Booking {
        flight: flight,
        gate: gates[i],
        from: flight.scheduled_arrival,
        until: (flight.scheduled_departure + TURNAROUND_BUFFER_SECONDS) as i64,
    }
}

/// Appending a booking that conflicts with nothing keeps the engine
/// invariants.
proof fn lemma_push_preserves_invariants(s: Seq<Booking>, b: Booking)
    requires
        no_double_booking(s),
        departures_in_range(s),
        !spec_has_conflict(s, b.gate.gate_id@, b.from, b.until),
        b.flight.scheduled_departure + TURNAROUND_BUFFER_SECONDS <= i64::MAX,
    ensures
        no_double_booking(s.push(b)),
        departures_in_range(s.push(b)),
{
    let t = s.push(b);
    assert forall|i: int, j: int|
        0 <= i < t.len() && 0 <= j < t.len() && i != j && t[i].gate.gate_id@
            == t[j].gate.gate_id@ implies !windows_overlap(
        t[i].from,
        t[i].until,
        t[j].from,
        t[j].until,
    ) by {
        if i < s.len() && j == s.len() {
            assert(!booking_conflicts(s[i], b.gate.gate_id@, b.from, b.until));
        } else if i == s.len() && j < s.len() {
            assert(!booking_conflicts(s[j], b.gate.gate_id@, b.from, b.until));
        }
    }
}

/// Replacing the booking at index `i` by one whose window conflicts with no
/// other booking keeps the engine invariants.
proof fn lemma_update_preserves_invariants(s: Seq<Booking>, i: int, b: Booking)
    requires
        no_double_booking(s),
        departures_in_range(s),
        0 <= i < s.len(),
        forall|j: int|
            0 <= j < s.len() && j != i && s[j].gate.gate_id@ == b.gate.gate_id@
                ==> !windows_overlap(s[j].from, s[j].until, b.from, b.until),
        b.flight.scheduled_departure + TURNAROUND_BUFFER_SECONDS <= i64::MAX,
    ensures
        no_double_booking(s.update(i, b)),
        departures_in_range(s.update(i, b)),
{
    let t = s.update(i, b);
    assert forall|p: int, q: int|
        0 <= p < t.len() && 0 <= q < t.len() && p != q && t[p].gate.gate_id@
            == t[q].gate.gate_id@ implies !windows_overlap(
        t[p].from,
        t[p].until,
        t[q].from,
        t[q].until,
    ) by {
        if p != i && q != i {
        } else if p == i {
            assert(t[q] == s[q]);
        } else {
            assert(t[p] == s[p]);
        }
    }
}

/// Every element of a filtered sequence occurs in the base sequence.
proof fn lemma_filter_elements_in(s: Seq<Booking>, pred: spec_fn(Booking) -> bool)
    ensures
        forall|k: int|
            0 <= k < s.filter(pred).len() ==> exists|j: int|
                0 <= j < s.len() && s[j] == #[trigger] s.filter(pred)[k],
    decreases s.len(),
{
    reveal_with_fuel(Seq::filter, 2);
    if s.len() > 0 {
        lemma_filter_elements_in(s.drop_last(), pred);
        assert forall|k: int| 0 <= k < s.filter(pred).len() implies exists|j: int|
            0 <= j < s.len() && s[j] == #[trigger] s.filter(pred)[k] by {
            let sub = s.drop_last().filter(pred);
            if k < sub.len() {
                let j = choose|j: int| 0 <= j < s.drop_last().len() && s.drop_last()[j] == sub[k];
                assert(s[j] == s.filter(pred)[k]);
            } else {
                assert(s.filter(pred)[k] == s.last());
                assert(s[s.len() - 1] == s.filter(pred)[k]);
            }
        }
    }
}

/// Dropping bookings keeps the engine invariants.
proof fn lemma_filter_preserves_invariants(s: Seq<Booking>, pred: spec_fn(Booking) -> bool)
    requires
        no_double_booking(s),
        departures_in_range(s),
    ensures
        no_double_booking(s.filter(pred)),
        departures_in_range(s.filter(pred)),
    decreases s.len(),
{
    reveal_with_fuel(Seq::filter, 2);
    if s.len() > 0 {
        assert(no_double_booking(s.drop_last())) by {
            assert(forall|i: int|
                0 <= i < s.len() - 1 ==> s.drop_last()[i] == s[i]);
        }
        assert(departures_in_range(s.drop_last())) by {
            assert(forall|i: int|
                0 <= i < s.len() - 1 ==> s.drop_last()[i] == s[i]);
        }
        lemma_filter_preserves_invariants(s.drop_last(), pred);
        if pred(s.last()) {
            let sub = s.drop_last().filter(pred);
            lemma_filter_elements_in(s.drop_last(), pred);
            assert forall|j: int|
                0 <= j < sub.len() && sub[j].gate.gate_id@
                    == s.last().gate.gate_id@ implies !windows_overlap(
                sub[j].from,
                sub[j].until,
                s.last().from,
                s.last().until,
            ) by {
                let j0 = choose|j0: int| 0 <= j0 < s.drop_last().len() && s.drop_last()[j0] == sub[j];
                assert(s[j0] == sub[j]);
                assert(!windows_overlap(s[j0].from, s[j0].until, s[s.len() - 1].from, s[s.len() - 1].until));
            }
            lemma_push_preserves_booking_pair(sub, s.last());
            assert(s.filter(pred) == sub.push(s.last()));
        }
    }
}

/// Appending a booking that overlaps no same-gate booking keeps the
/// invariants; stated over a plain pairwise hypothesis.
proof fn lemma_push_preserves_booking_pair(s: Seq<Booking>, b: Booking)
    requires
        no_double_booking(s),
        departures_in_range(s),
        forall|j: int|
            0 <= j < s.len() && s[j].gate.gate_id@ == b.gate.gate_id@ ==> !windows_overlap(
                s[j].from,
                s[j].until,
                b.from,
                b.until,
            ),
        b.flight.scheduled_departure + TURNAROUND_BUFFER_SECONDS <= i64::MAX,
    ensures
        no_double_booking(s.push(b)),
        departures_in_range(s.push(b)),
{
    let t = s.push(b);
    assert forall|i: int, j: int|
        0 <= i < t.len() && 0 <= j < t.len() && i != j && t[i].gate.gate_id@
            == t[j].gate.gate_id@ implies !windows_overlap(
        t[i].from,
        t[i].until,
        t[j].from,
        t[j].until,
    ) by {
        if i < s.len() && j == s.len() {
            assert(t[i] == s[i] && t[j] == b);
        } else if i == s.len() && j < s.len() {
            assert(t[i] == b && t[j] == s[j]);
        }
    }
}

/// Filtering assignments and taking their bookings commutes with taking the
/// bookings and filtering them, when the predicates agree through [`shape`].
proof fn lemma_bk_filter_commute(
    s: Seq<GateAssignment>,
    pa: spec_fn(GateAssignment) -> bool,
    pb: spec_fn(Booking) -> bool,
)
    requires
        forall|a: GateAssignment| #[trigger] pa(a) == pb(shape(a)),
    ensures
        bk(s.filter(pa)) =~= bk(s).filter(pb),
    decreases s.len(),
{
    reveal_with_fuel(Seq::filter, 2);
    if s.len() > 0 {
        lemma_bk_filter_commute(s.drop_last(), pa, pb);
        assert(bk(s).drop_last() =~= bk(s.drop_last()));
        assert(bk(s).last() == shape(s.last()));
        if pa(s.last()) {
            assert(bk(s.filter(pa)) =~= bk(s.drop_last().filter(pa)).push(shape(s.last())));
        }
    }
}

/// The shifted windows of every assignment of the delayed flight, and the
/// recomputed windows of its shifted copy, stay within the timestamp range.
pub open spec fn spec_delay_feasible(s: Seq<Booking>, fid: Seq<char>, d: int) -> bool {
    forall|i: int|
        0 <= i < s.len() && (#[trigger] s[i]).flight.flight_id@ == fid ==> {
            &&& i64::MIN <= s[i].from + d <= i64::MAX
            &&& i64::MIN <= s[i].until + d <= i64::MAX
            &&& i64::MIN <= s[i].flight.scheduled_arrival + d <= i64::MAX
            &&& i64::MIN <= s[i].flight.scheduled_departure + d <= i64::MAX
            &&& s[i].flight.scheduled_departure + d + TURNAROUND_BUFFER_SECONDS <= i64::MAX
        }
}

/// A flight with both scheduled times shifted by `d` seconds and its status
/// set to `Delayed`.
pub open spec fn spec_shifted_flight(f: Flight, d: int) -> Flight {
    Flight {
        scheduled_arrival: (f.scheduled_arrival + d) as i64,
        scheduled_departure: (f.scheduled_departure + d) as i64,
        status: FlightStatus::Delayed,
        ..f
    }
}

/// The record at `a`, shifted in place by `d` seconds: same identity and
/// gate, the flight marked `Delayed`, the window moved by `d`.
pub open spec fn spec_shifted_assignment(a: GateAssignment, d: int) -> GateAssignment {
    GateAssignment {
        assignment_id: a.assignment_id,
        flight: Flight { status: FlightStatus::Delayed, ..a.flight },
        gate: a.gate,
        assigned_from: (a.assigned_from + d) as i64,
        assigned_until: (a.assigned_until + d) as i64,
    }
}

/// How many assignments belong to the given flight.
pub open spec fn spec_count_matching(s: Seq<GateAssignment>, fid: Seq<char>) -> int
    decreases s.len(),
{
    if s.len() == 0 {
        0
    } else {
        (if s[0].flight.flight_id@ == fid {
            1int
        } else {
            0int
        }) + spec_count_matching(s.drop_first(), fid)
    }
}

/// Delay resolution as a relation on whole assignment records. From state
/// `s` with the cursor at `idx` and `rem` original records still
/// unprocessed there, processing them leads to the final list `fs` while
/// reporting the reassignment records `rs`, consumed front first. Each
/// record of the delayed flight is shifted in place — identity kept — when
/// the shifted window is free on its gate; otherwise a shifted copy of the
/// flight is offered to the allocator with the original gate preferred
/// (while the old record is still in place, so the selector sees it), and
/// the old record is then removed whether or not a new gate was found. Only
/// the generated identity of a freshly allocated record is left open.
pub open spec fn spec_delay_rel(
    gates: Seq<Gate>,
    s: Seq<GateAssignment>,
    idx: int,
    rem: int,
    fid: Seq<char>,
    d: int,
    fs: Seq<GateAssignment>,
    rs: Seq<GateAssignment>,
) -> bool
    decreases rem,
{
    if rem <= 0 {
        fs == s && rs == Seq::<GateAssignment>::empty()
    } else {
        let a = s[idx];
        if a.flight.flight_id@ != fid {
            spec_delay_rel(gates, s, idx + 1, rem - 1, fid, d, fs, rs)
        } else {
            let nf = (a.assigned_from + d) as i64;
            let nu = (a.assigned_until + d) as i64;
            let conflict = exists|j: int|
                0 <= j < bk(s).len() && j != idx && (#[trigger] bk(s)[j]).gate.gate_id@
                    == a.gate.gate_id@ && windows_overlap(bk(s)[j].from, bk(s)[j].until, nf, nu);
            if conflict {
                let sf = spec_shifted_flight(a.flight, d);
                let pref = Seq::<String>::empty().push(a.gate.gate_id);
                match spec_alloc_choice(gates, bk(s), sf, pref) {
                    Option::Some(g) => {
                        &&& rs.len() > 0
                        &&& shape(rs[0]) == spec_new_booking(gates, sf, g)
                        &&& spec_delay_rel(
                            gates,
                            s.push(rs[0]).remove(idx),
                            idx,
                            rem - 1,
                            fid,
                            d,
                            fs,
                            rs.drop_first(),
                        )
                    },
                    Option::None => spec_delay_rel(
                        gates,
                        s.remove(idx),
                        idx,
                        rem - 1,
                        fid,
                        d,
                        fs,
                        rs,
                    ),
                }
            } else {
                let ua = spec_shifted_assignment(a, d);
                &&& rs.len() > 0
                &&& rs[0] == ua
                &&& spec_delay_rel(gates, s.update(idx, ua), idx + 1, rem - 1, fid, d, fs, rs.drop_first())
            }
        }
    }
}

/// Taking bookings commutes with removing one record.
proof fn lemma_bk_remove(s: Seq<GateAssignment>, i: int)
    requires
        0 <= i < s.len(),
    ensures
        bk(s.remove(i)) =~= bk(s).remove(i),
{
    s.remove_ensures(i);
    bk(s).remove_ensures(i);
}

/// Removing a booking keeps the engine invariants.
proof fn lemma_remove_preserves_invariants(s: Seq<Booking>, i: int)
    requires
        no_double_booking(s),
        departures_in_range(s),
        0 <= i < s.len(),
    ensures
        no_double_booking(s.remove(i)),
        departures_in_range(s.remove(i)),
{
    let t = s.remove(i);
    s.remove_ensures(i);
    assert forall|p: int, q: int|
        0 <= p < t.len() && 0 <= q < t.len() && p != q && t[p].gate.gate_id@
            == t[q].gate.gate_id@ implies !windows_overlap(
        t[p].from,
        t[p].until,
        t[q].from,
        t[q].until,
    ) by {
        let p0: int = if p < i {
            p
        } else {
            p + 1
        };
        let q0: int = if q < i {
            q
        } else {
            q + 1
        };
        assert(t[p] == s[p0] && t[q] == s[q0]);
    }
    assert forall|k: int| 0 <= k < t.len() implies (#[trigger] t[k]).flight.scheduled_departure
        + TURNAROUND_BUFFER_SECONDS <= i64::MAX by {
        let k0: int = if k < i {
            k
        } else {
            k + 1
        };
        assert(t[k] == s[k0]);
    }
}

/// Index of the first gate whose id matches, or `-1` when none does.
pub open spec fn spec_first_gate(gates: Seq<Gate>, gid: Seq<char>) -> int
    decreases gates.len(),
{
    if gates.len() == 0 {
        -1
    } else if gates[0].gate_id@ == gid {
        0
    } else {
        let rest = spec_first_gate(gates.drop_first(), gid);
        if rest == -1 {
            -1
        } else {
            rest + 1
        }
    }
}

/// When no gate before `i` matches and gate `i` does, `i` is the first
/// match; when no gate matches at all, there is no first match.
proof fn lemma_first_gate_characterization(gates: Seq<Gate>, gid: Seq<char>, i: int)
    requires
        0 <= i <= gates.len(),
        forall|j: int| 0 <= j < i ==> (#[trigger] gates[j]).gate_id@ != gid,
    ensures
        i < gates.len() && gates[i].gate_id@ == gid ==> spec_first_gate(gates, gid) == i,
        i == gates.len() ==> spec_first_gate(gates, gid) == -1,
    decreases gates.len(),
{
    if gates.len() > 0 {
        if gates[0].gate_id@ == gid {
        } else {
            lemma_first_gate_characterization(gates.drop_first(), gid, if i == 0 {
                0
            } else {
                i - 1
            });
        }
    }
}

/// The registry after a gate is reported unusable: the first gate whose id
/// matches is marked out of service; everything else is untouched. When no
/// gate matches, the registry is unchanged.
pub open spec fn spec_disable_gate(gates: Seq<Gate>, gid: Seq<char>) -> Seq<Gate> {
    let i = spec_first_gate(gates, gid);
    if i == -1 {
        gates
    } else {
        gates.update(i, Gate { is_available: false, ..gates[i] })
    }
}

/// The flights booked on gate `gid`, in booking order.
pub open spec fn spec_flights_on(s: Seq<Booking>, gid: Seq<char>) -> Seq<Flight>
    decreases s.len(),
{
    if s.len() == 0 {
        Seq::<Flight>::empty()
    } else {
        let prefix = spec_flights_on(s.drop_last(), gid);
        if s.last().gate.gate_id@ == gid {
            prefix.push(s.last().flight)
        } else {
            prefix
        }
    }
}

/// Gate-loss repair over the first `n` affected flights: each is offered to
/// the allocator with no preference against the evolving state; flights the
/// allocator cannot place are dropped from the bookings.
pub open spec fn spec_gate_loss_rec(
    gates: Seq<Gate>,
    s0: Seq<Booking>,
    fl: Seq<Flight>,
    n: int,
) -> (Seq<Booking>, Seq<Booking>)
    decreases n,
{
    if n <= 0 {
        (s0, Seq::<Booking>::empty())
    } else {
        let prev = spec_gate_loss_rec(gates, s0, fl, n - 1);
        let f = fl[n - 1];
        match spec_alloc_choice(gates, prev.0, f, Seq::<String>::empty()) {
            Option::Some(g) => {
                let nb = spec_new_booking(gates, f, g);
                (prev.0.push(nb), prev.1.push(nb))
            },
            Option::None => prev,
        }
    }
}

/// Every flight booked on a gate is the flight of some booking.
proof fn lemma_flights_on_from(s: Seq<Booking>, gid: Seq<char>)
    ensures
        forall|k: int|
            0 <= k < spec_flights_on(s, gid).len() ==> exists|i: int|
                0 <= i < s.len() && s[i].flight == #[trigger] spec_flights_on(s, gid)[k],
    decreases s.len(),
{
    if s.len() > 0 {
        lemma_flights_on_from(s.drop_last(), gid);
        assert forall|k: int| 0 <= k < spec_flights_on(s, gid).len() implies exists|i: int|
            0 <= i < s.len() && s[i].flight == #[trigger] spec_flights_on(s, gid)[k] by {
            let sub = spec_flights_on(s.drop_last(), gid);
            if k < sub.len() {
                let i = choose|i: int|
                    0 <= i < s.drop_last().len() && s.drop_last()[i].flight == sub[k];
                assert(s[i].flight == spec_flights_on(s, gid)[k]);
            } else {
                assert(s[s.len() - 1].flight == spec_flights_on(s, gid)[k]);
            }
        }
    }
}

/// No-double-booking law: in a well-formed engine, any two live assignments
/// on the same gate satisfy `!(a.from < b.until && a.until > b.from)`.
pub proof fn lemma_no_double_booking(e: AllocationEngine, i: int, j: int)
    requires
        e.wf(),
        0 <= i < e.bookings().len(),
        0 <= j < e.bookings().len(),
        i != j,
        e.bookings()[i].gate.gate_id@ == e.bookings()[j].gate.gate_id@,
    ensures
        !windows_overlap(
            e.bookings()[i].from,
            e.bookings()[i].until,
            e.bookings()[j].from,
            e.bookings()[j].until,
        ),
{
}

/// Back-to-back windows never collide: whenever each booking already on
/// the target ends no later than the proposed start, the conflict test is
/// false, so such an allocation can go through.
pub proof fn lemma_abutting_no_conflict(s: Seq<Booking>, gate_id: Seq<char>, from: i64, until: i64)
    requires
        forall|i: int|
            0 <= i < s.len() && (#[trigger] s[i]).gate.gate_id@ == gate_id ==> s[i].until <= from,
    ensures
        !spec_has_conflict(s, gate_id, from, until),
{
}

/// Delay steps over a range holding no record of the delayed flight change
/// nothing: the relation pins the final list to the current one and the
/// report to empty.
proof fn lemma_delay_rel_frame(
    gates: Seq<Gate>,
    s: Seq<GateAssignment>,
    idx: int,
    rem: int,
    fid: Seq<char>,
    d: int,
    fs: Seq<GateAssignment>,
    rs: Seq<GateAssignment>,
)
    requires
        0 <= idx,
        0 <= rem,
        idx + rem <= s.len(),
        forall|k: int| idx <= k < idx + rem ==> (#[trigger] s[k]).flight.flight_id@ != fid,
    ensures
        spec_delay_rel(gates, s, idx, rem, fid, d, fs, rs) <==> (fs == s && rs == Seq::<
            GateAssignment,
        >::empty()),
    decreases rem,
{
    if rem > 0 {
        lemma_delay_rel_frame(gates, s, idx + 1, rem - 1, fid, d, fs, rs);
    }
}

/// Walking the cursor over records of other flights changes nothing about
/// the relation.
proof fn lemma_delay_rel_skip(
    gates: Seq<Gate>,
    s: Seq<GateAssignment>,
    idx: int,
    rem: int,
    fid: Seq<char>,
    d: int,
    fs: Seq<GateAssignment>,
    rs: Seq<GateAssignment>,
    m: int,
)
    requires
        0 <= idx <= m,
        m <= idx + rem,
        idx + rem <= s.len(),
        forall|k: int| idx <= k < m ==> (#[trigger] s[k]).flight.flight_id@ != fid,
    ensures
        spec_delay_rel(gates, s, idx, rem, fid, d, fs, rs) <==> spec_delay_rel(
            gates,
            s,
            m,
            rem - (m - idx),
            fid,
            d,
            fs,
            rs,
        ),
    decreases m - idx,
{
    if m > idx {
        lemma_delay_rel_skip(gates, s, idx + 1, rem - 1, fid, d, fs, rs, m);
    }
}

/// How many records of a flight a list with none of them holds: zero.
proof fn lemma_count_matching_none(s: Seq<GateAssignment>, fid: Seq<char>)
    requires
        forall|k: int| 0 <= k < s.len() ==> (#[trigger] s[k]).flight.flight_id@ != fid,
    ensures
        spec_count_matching(s, fid) == 0,
    decreases s.len(),
{
    if s.len() > 0 {
        assert(forall|k: int|
            0 <= k < s.drop_first().len() ==> #[trigger] s.drop_first()[k] == s[k + 1]);
        lemma_count_matching_none(s.drop_first(), fid);
    }
}

/// No-booking delay law: a delay for a flight that holds no booking changes
/// nothing — the final list is the starting one, records and identities
/// untouched, nothing is reported, and the count of adjusted assignments is
/// zero.
pub proof fn lemma_delay_without_booking(
    gates: Seq<Gate>,
    s: Seq<GateAssignment>,
    fid: Seq<char>,
    d: int,
    fs: Seq<GateAssignment>,
    rs: Seq<GateAssignment>,
)
    requires
        forall|k: int| 0 <= k < s.len() ==> (#[trigger] s[k]).flight.flight_id@ != fid,
    ensures
        spec_delay_rel(gates, s, 0, s.len() as int, fid, d, fs, rs) <==> (fs == s && rs == Seq::<
            GateAssignment,
        >::empty()),
        spec_count_matching(s, fid) == 0,
{
    lemma_delay_rel_frame(gates, s, 0, s.len() as int, fid, d, fs, rs);
    lemma_count_matching_none(s, fid);
}

/// In-place delay law: when exactly one record belongs to the delayed
/// flight and its shifted window is free on its gate, delay resolution
/// shifts that record's window by the delay in place — identity, gate and
/// the rest of the record kept, status set to `Delayed` — and reports
/// exactly that record.
pub proof fn lemma_delay_in_place(
    gates: Seq<Gate>,
    s: Seq<GateAssignment>,
    fid: Seq<char>,
    d: int,
    i: int,
    fs: Seq<GateAssignment>,
    rs: Seq<GateAssignment>,
)
    requires
        0 <= i < s.len(),
        s[i].flight.flight_id@ == fid,
        forall|k: int|
            0 <= k < s.len() && k != i ==> (#[trigger] s[k]).flight.flight_id@ != fid,
        !(exists|j: int|
            0 <= j < s.len() && j != i && (#[trigger] s[j]).gate.gate_id@ == s[i].gate.gate_id@
                && windows_overlap(
                s[j].assigned_from,
                s[j].assigned_until,
                (s[i].assigned_from + d) as i64,
                (s[i].assigned_until + d) as i64,
            )),
    ensures
        spec_delay_rel(gates, s, 0, s.len() as int, fid, d, fs, rs) <==> (fs == s.update(
            i,
            spec_shifted_assignment(s[i], d),
        ) && rs == Seq::<GateAssignment>::empty().push(spec_shifted_assignment(s[i], d))),
{
    lemma_delay_rel_skip(gates, s, 0, s.len() as int, fid, d, fs, rs, i);
    let a = s[i];
    let nf = (a.assigned_from + d) as i64;
    let nu = (a.assigned_until + d) as i64;
    assert(!(exists|j: int|
        0 <= j < bk(s).len() && j != i && (#[trigger] bk(s)[j]).gate.gate_id@ == a.gate.gate_id@
            && windows_overlap(bk(s)[j].from, bk(s)[j].until, nf, nu))) by {
        assert(forall|j: int| 0 <= j < s.len() ==> #[trigger] bk(s)[j] == shape(s[j]));
    }
    let ua = spec_shifted_assignment(a, d);
    let t = s.update(i, ua);
    lemma_delay_rel_frame(gates, t, i + 1, s.len() - i - 1, fid, d, fs, rs.drop_first());
    if rs == Seq::<GateAssignment>::empty().push(ua) {
        assert(rs.drop_first() =~= Seq::<GateAssignment>::empty());
    }
    if rs.len() > 0 && rs[0] == ua && rs.drop_first() == Seq::<GateAssignment>::empty() {
        assert(rs =~= Seq::<GateAssignment>::empty().push(ua));
    }
}

/// Conflicting delay law: when exactly one record belongs to the delayed
/// flight, its window is the one derived from its flight times, the shift
/// stays in range, and the shifted window collides with another record on
/// its gate, then delay resolution vacates the original slot: the old
/// record is removed whatever the allocator finds. When the allocator finds
/// a gate, the one reported record carries the shifted flight on a gate
/// other than the original; when it finds none, nothing is reported and no
/// record of the flight remains.
pub proof fn lemma_delay_vacates_on_conflict(
    gates: Seq<Gate>,
    s: Seq<GateAssignment>,
    fid: Seq<char>,
    d: int,
    i: int,
    fs: Seq<GateAssignment>,
    rs: Seq<GateAssignment>,
)
    requires
        0 <= i < s.len(),
        s[i].flight.flight_id@ == fid,
        forall|k: int|
            0 <= k < s.len() && k != i ==> (#[trigger] s[k]).flight.flight_id@ != fid,
        exists|j: int|
            0 <= j < s.len() && j != i && (#[trigger] s[j]).gate.gate_id@ == s[i].gate.gate_id@
                && windows_overlap(
                s[j].assigned_from,
                s[j].assigned_until,
                (s[i].assigned_from + d) as i64,
                (s[i].assigned_until + d) as i64,
            ),
        s[i].assigned_from == s[i].flight.scheduled_arrival,
        s[i].assigned_until == s[i].flight.scheduled_departure + TURNAROUND_BUFFER_SECONDS,
        i64::MIN <= s[i].flight.scheduled_arrival + d <= i64::MAX,
        i64::MIN <= s[i].flight.scheduled_departure + d <= i64::MAX,
        s[i].flight.scheduled_departure + d + TURNAROUND_BUFFER_SECONDS <= i64::MAX,
        spec_delay_rel(gates, s, 0, s.len() as int, fid, d, fs, rs),
    ensures
        ({
            let sf = spec_shifted_flight(s[i].flight, d);
            let pref = Seq::<String>::empty().push(s[i].gate.gate_id);
            match spec_alloc_choice(gates, bk(s), sf, pref) {
                Option::Some(g) => {
                    &&& rs.len() == 1
                    &&& shape(rs[0]) == spec_new_booking(gates, sf, g)
                    &&& rs[0].gate.gate_id@ != s[i].gate.gate_id@
                    &&& fs == s.push(rs[0]).remove(i)
                },
                Option::None => {
                    &&& rs == Seq::<GateAssignment>::empty()
                    &&& fs == s.remove(i)
                    &&& forall|k: int|
                        0 <= k < fs.len() ==> (#[trigger] fs[k]).flight.flight_id@ != fid
                },
            }
        }),
{
    lemma_delay_rel_skip(gates, s, 0, s.len() as int, fid, d, fs, rs, i);
    let a = s[i];
    let nf = (a.assigned_from + d) as i64;
    let nu = (a.assigned_until + d) as i64;
    assert(exists|j: int|
        0 <= j < bk(s).len() && j != i && (#[trigger] bk(s)[j]).gate.gate_id@ == a.gate.gate_id@
            && windows_overlap(bk(s)[j].from, bk(s)[j].until, nf, nu)) by {
        let j0 = choose|j: int|
            0 <= j < s.len() && j != i && (#[trigger] s[j]).gate.gate_id@ == s[i].gate.gate_id@
                && windows_overlap(s[j].assigned_from, s[j].assigned_until, nf, nu);
        assert(bk(s)[j0] == shape(s[j0]));
    }
    let sf = spec_shifted_flight(a.flight, d);
    let pref = Seq::<String>::empty().push(a.gate.gate_id);
    match spec_alloc_choice(gates, bk(s), sf, pref) {
        Option::Some(g) => {
            assert(spec_delay_rel(gates, s, i, s.len() - i, fid, d, fs, rs));
            assert(rs.len() > 0);
            let t = s.push(rs[0]).remove(i);
            assert(spec_delay_rel(gates, t, i, s.len() - 1 - i, fid, d, fs, rs.drop_first()));
            assert forall|k: int|
                i <= k < i + (s.len() - 1 - i) implies (#[trigger] t[k]).flight.flight_id@
                != fid by {
                assert(t[k] == s.push(rs[0])[k + 1]);
                assert(t[k] == s[k + 1]);
            }
            lemma_delay_rel_frame(gates, t, i, s.len() - 1 - i, fid, d, fs, rs.drop_first());
            assert(rs.drop_first() == Seq::<GateAssignment>::empty());
            assert(rs.drop_first().len() == rs.len() - 1);
            assert(rs.len() == 1);
            // The old gate still hosts the colliding record, and the shifted
            // flight derives exactly the shifted window, so the selector
            // cannot pick any gate bearing the old id.
            lemma_best_gate_characterization(
                gates,
                bk(s),
                spec_classify(sf.aircraft_type@),
                sf.scheduled_arrival,
                (sf.scheduled_departure + TURNAROUND_BUFFER_SECONDS) as i64,
                pref,
            );
            let j0 = choose|j: int|
                0 <= j < bk(s).len() && j != i && (#[trigger] bk(s)[j]).gate.gate_id@
                    == a.gate.gate_id@ && windows_overlap(bk(s)[j].from, bk(s)[j].until, nf, nu);
            assert(sf.scheduled_arrival == nf && (sf.scheduled_departure
                + TURNAROUND_BUFFER_SECONDS) as i64 == nu);
            assert(booking_conflicts(bk(s)[j0], a.gate.gate_id@, nf, nu));
            assert(spec_gate_ok(
                gates[g],
                bk(s),
                spec_classify(sf.aircraft_type@),
                sf.scheduled_arrival,
                (sf.scheduled_departure + TURNAROUND_BUFFER_SECONDS) as i64,
            ));
            assert(rs[0].gate.gate_id@ != a.gate.gate_id@) by {
                if gates[g].gate_id@ == a.gate.gate_id@ {
                    assert(spec_has_conflict(bk(s), gates[g].gate_id@, nf, nu));
                }
            }
        },
        Option::None => {
            let t = s.remove(i);
            s.remove_ensures(i);
            assert(forall|k: int|
                i <= k < i + (s.len() - 1 - i) ==> #[trigger] t[k] == s[k + 1]);
            lemma_delay_rel_frame(gates, t, i, s.len() - 1 - i, fid, d, fs, rs);
            assert forall|k: int| 0 <= k < fs.len() implies (#[trigger] fs[k]).flight.flight_id@
                != fid by {
                let k0: int = if k < i {
                    k
                } else {
                    k + 1
                };
                assert(fs[k] == s[k0]);
            }
        },
    }
}

/// Replacing a dropped element by another dropped element leaves a filter
/// unchanged.
proof fn lemma_filter_update_dropped(
    s: Seq<GateAssignment>,
    i: int,
    b: GateAssignment,
    pred: spec_fn(GateAssignment) -> bool,
)
    requires
        0 <= i < s.len(),
        !pred(s[i]),
        !pred(b),
    ensures
        s.update(i, b).filter(pred) == s.filter(pred),
    decreases s.len(),
{
    reveal_with_fuel(Seq::filter, 2);
    let t = s.update(i, b);
    if i == s.len() - 1 {
        assert(t.drop_last() =~= s.drop_last());
        assert(t.last() == b);
    } else {
        assert(t.drop_last() =~= s.drop_last().update(i, b));
        assert(t.last() == s.last());
        lemma_filter_update_dropped(s.drop_last(), i, b, pred);
    }
}

/// Removing a dropped element leaves a filter unchanged.
proof fn lemma_filter_remove_dropped(
    s: Seq<GateAssignment>,
    i: int,
    pred: spec_fn(GateAssignment) -> bool,
)
    requires
        0 <= i < s.len(),
        !pred(s[i]),
    ensures
        s.remove(i).filter(pred) == s.filter(pred),
    decreases s.len(),
{
    reveal_with_fuel(Seq::filter, 2);
    let t = s.remove(i);
    s.remove_ensures(i);
    if i == s.len() - 1 {
        assert(t =~= s.drop_last());
    } else {
        assert(t.drop_last() =~= s.drop_last().remove(i));
        assert(t.last() == s.last());
        lemma_filter_remove_dropped(s.drop_last(), i, pred);
    }
}

/// Delay never touches another flight's records: whatever states the delay
/// relation connects, the records that do not belong to the delayed flight
/// come out exactly as they went in, identities included and in order.
pub proof fn lemma_delay_keeps_other_flights(
    gates: Seq<Gate>,
    s: Seq<GateAssignment>,
    idx: int,
    rem: int,
    fid: Seq<char>,
    d: int,
    fs: Seq<GateAssignment>,
    rs: Seq<GateAssignment>,
)
    requires
        0 <= idx,
        0 <= rem,
        idx + rem <= s.len(),
        spec_delay_rel(gates, s, idx, rem, fid, d, fs, rs),
    ensures
        fs.filter(keeps_flight(fid)) == s.filter(keeps_flight(fid)),
    decreases rem,
{
    if rem > 0 {
        let a = s[idx];
        if a.flight.flight_id@ != fid {
            lemma_delay_keeps_other_flights(gates, s, idx + 1, rem - 1, fid, d, fs, rs);
        } else {
            let nf = (a.assigned_from + d) as i64;
            let nu = (a.assigned_until + d) as i64;
            let conflict = exists|j: int|
                0 <= j < bk(s).len() && j != idx && (#[trigger] bk(s)[j]).gate.gate_id@
                    == a.gate.gate_id@ && windows_overlap(bk(s)[j].from, bk(s)[j].until, nf, nu);
            if conflict {
                let sf = spec_shifted_flight(a.flight, d);
                let pref = Seq::<String>::empty().push(a.gate.gate_id);
                match spec_alloc_choice(gates, bk(s), sf, pref) {
                    Option::Some(g) => {
                        let t = s.push(rs[0]).remove(idx);
                        reveal_with_fuel(Seq::filter, 2);
                        assert(s.push(rs[0]).drop_last() =~= s);
                        assert(!keeps_flight(fid)(rs[0]));
                        lemma_filter_remove_dropped(s.push(rs[0]), idx, keeps_flight(fid));
                        lemma_delay_keeps_other_flights(
                            gates,
                            t,
                            idx,
                            rem - 1,
                            fid,
                            d,
                            fs,
                            rs.drop_first(),
                        );
                    },
                    Option::None => {
                        lemma_filter_remove_dropped(s, idx, keeps_flight(fid));
                        lemma_delay_keeps_other_flights(
                            gates,
                            s.remove(idx),
                            idx,
                            rem - 1,
                            fid,
                            d,
                            fs,
                            rs,
                        );
                    },
                }
            } else {
                let ua = spec_shifted_assignment(a, d);
                lemma_filter_update_dropped(s, idx, ua, keeps_flight(fid));
                lemma_delay_keeps_other_flights(
                    gates,
                    s.update(idx, ua),
                    idx + 1,
                    rem - 1,
                    fid,
                    d,
                    fs,
                    rs.drop_first(),
                );
            }
        }
    }
}

/// Gate-loss law: when every gate bearing the lost id is out of service and/// Gate-loss law: when every gate bearing the lost id is out of service and
/// the base state holds no booking on that id, no booking produced by the
/// repair is on the lost gate.
pub proof fn lemma_gate_loss_vacates(
    gates: Seq<Gate>,
    s0: Seq<Booking>,
    fl: Seq<Flight>,
    gid: Seq<char>,
    n: int,
)
    requires
        forall|i: int|
            0 <= i < gates.len() && (#[trigger] gates[i]).gate_id@ == gid
                ==> !gates[i].is_available,
        forall|i: int| 0 <= i < s0.len() ==> (#[trigger] s0[i]).gate.gate_id@ != gid,
        0 <= n,
    ensures
        forall|i: int|
            0 <= i < spec_gate_loss_rec(gates, s0, fl, n).0.len()
                ==> (#[trigger] spec_gate_loss_rec(gates, s0, fl, n).0[i]).gate.gate_id@ != gid,
    decreases n,
{
    if n > 0 {
        lemma_gate_loss_vacates(gates, s0, fl, gid, n - 1);
        let prev = spec_gate_loss_rec(gates, s0, fl, n - 1);
        let f = fl[n - 1];
        match spec_alloc_choice(gates, prev.0, f, Seq::<String>::empty()) {
            Option::Some(g) => {
                lemma_best_gate_characterization(
                    gates,
                    prev.0,
                    spec_classify(f.aircraft_type@),
                    f.scheduled_arrival,
                    (f.scheduled_departure + TURNAROUND_BUFFER_SECONDS) as i64,
                    Seq::<String>::empty(),
                );
            },
            Option::None => {},
        }
    }
}

/// The registry that results from a gate loss has the lost gate out of
/// service, provided at most one gate bears the lost id.
pub proof fn lemma_disable_gate_disables(gates: Seq<Gate>, gid: Seq<char>)
    requires
        forall|i: int, j: int|
            0 <= i < j < gates.len() ==> !((#[trigger] gates[i]).gate_id@ == gid
                && (#[trigger] gates[j]).gate_id@ == gid),
    ensures
        forall|i: int|
            0 <= i < spec_disable_gate(gates, gid).len()
                && (#[trigger] spec_disable_gate(gates, gid)[i]).gate_id@ == gid
                ==> !spec_disable_gate(gates, gid)[i].is_available,
    decreases gates.len(),
{
    let m = spec_first_gate(gates, gid);
    lemma_first_gate_matches(gates, gid);
    if m != -1 {
        assert forall|i: int|
            0 <= i < spec_disable_gate(gates, gid).len()
                && (#[trigger] spec_disable_gate(gates, gid)[i]).gate_id@
                == gid implies !spec_disable_gate(gates, gid)[i].is_available by {
            if i != m {
                assert(spec_disable_gate(gates, gid)[i] == gates[i]);
                assert(gates[i].gate_id@ == gid && gates[m].gate_id@ == gid);
            }
        }
    }
}

/// Gate-loss law over an engine state: starting well-formed with at most
/// one stand bearing the lost id, the bookings that result from a
/// `GateUnavailable` event for that id — the state [`handle_disruption`]
/// promises — contain none on the lost gate.
pub proof fn lemma_gate_unavailable_leaves_gate_empty(pre: AllocationEngine, gid: Seq<char>)
    requires
        pre.wf(),
        forall|i: int, j: int|
            0 <= i < j < pre.gates@.len() ==> !((#[trigger] pre.gates@[i]).gate_id@ == gid
                && (#[trigger] pre.gates@[j]).gate_id@ == gid),
    ensures
        ({
            let gates2 = spec_disable_gate(pre.gates@, gid);
            let base = bk(pre.assignments@.filter(keeps_gate(gid)));
            let affected = spec_flights_on(pre.bookings(), gid);
            let res = spec_gate_loss_rec(gates2, base, affected, affected.len() as int);
            forall|i: int|
                0 <= i < res.0.len() ==> (#[trigger] res.0[i]).gate.gate_id@ != gid
        }),
{
    let gates2 = spec_disable_gate(pre.gates@, gid);
    let base = bk(pre.assignments@.filter(keeps_gate(gid)));
    let affected = spec_flights_on(pre.bookings(), gid);
    lemma_disable_gate_disables(pre.gates@, gid);
    let filtered = pre.assignments@.filter(keeps_gate(gid));
    assert forall|i: int| 0 <= i < base.len() implies (#[trigger] base[i]).gate.gate_id@
        != gid by {
        pre.assignments@.lemma_filter_pred(keeps_gate(gid), i);
        assert(base[i] == shape(filtered[i]));
    }
    lemma_gate_loss_vacates(gates2, base, affected, gid, affected.len() as int);
}

/// When there is a first matching gate, it is in range, it matches, and no
/// earlier gate matches; when there is none, no gate matches.
proof fn lemma_first_gate_matches(gates: Seq<Gate>, gid: Seq<char>)
    ensures
        ({
            let m = spec_first_gate(gates, gid);
            if m == -1 {
                forall|i: int| 0 <= i < gates.len() ==> (#[trigger] gates[i]).gate_id@ != gid
            } else {
                0 <= m < gates.len() && gates[m].gate_id@ == gid
            }
        }),
    decreases gates.len(),
{
    if gates.len() > 0 && gates[0].gate_id@ != gid {
        lemma_first_gate_matches(gates.drop_first(), gid);
        let rest = spec_first_gate(gates.drop_first(), gid);
        if rest == -1 {
            assert forall|i: int| 0 <= i < gates.len() implies (#[trigger] gates[i]).gate_id@
                != gid by {
                if i > 0 {
                    assert(gates.drop_first()[i - 1] == gates[i]);
                }
            }
        } else {
            assert(gates.drop_first()[rest] == gates[rest + 1]);
        }
    }
}

/// The decimal rendering of an integer, minus sign included.
pub open spec fn spec_int_text(n: int) -> Seq<char> {
    if n >= 0 {
        spec_decimal(n)
    } else {
        "-"@ + spec_decimal(-n)
    }
}

/// The decimal digit characters of `n / 10` followed by the digit of
/// `n % 10`.
pub open spec fn spec_decimal(n: int) -> Seq<char>
    decreases n,
{
    if n < 10 {
        spec_digit(n)
    } else {
        spec_decimal(n / 10) + spec_digit(n % 10)
    }
}

/// The character sequence of one decimal digit.
pub open spec fn spec_digit(d: int) -> Seq<char> {
    if d == 0 {
        "0"@
    } else if d == 1 {
        "1"@
    } else if d == 2 {
        "2"@
    } else if d == 3 {
        "3"@
    } else if d == 4 {
        "4"@
    } else if d == 5 {
        "5"@
    } else if d == 6 {
        "6"@
    } else if d == 7 {
        "7"@
    } else if d == 8 {
        "8"@
    } else {
        "9"@
    }
}

/// Appends the decimal rendering of `n` to `s`.
fn append_u64(s: &mut String, n: u64)
    ensures
        final(s)@ == old(s)@ + spec_decimal(n as int),
    decreases n,
{
    if n >= 10 {
        append_u64(s, n / 10);
    }
    let d = n % 10;
    let ds: &str = if d == 0 {
        "0"
    } else if d == 1 {
        "1"
    } else if d == 2 {
        "2"
    } else if d == 3 {
        "3"
    } else if d == 4 {
        "4"
    } else if d == 5 {
        "5"
    } else if d == 6 {
        "6"
    } else if d == 7 {
        "7"
    } else if d == 8 {
        "8"
    } else {
        "9"
    };
    s.append(ds);
}

/// Appends the decimal rendering of `n`, with a leading minus sign when
/// negative, to `s`.
fn append_i64(s: &mut String, n: i64)
    ensures
        final(s)@ == if n >= 0 {
            old(s)@ + spec_decimal(n as int)
        } else {
            old(s)@ + "-"@ + spec_decimal(-(n as int))
        },
{
    if n >= 0 {
        append_u64(s, n as u64);
    } else {
        s.append("-");
        let m: u64 = if n == i64::MIN {
            9223372036854775808u64
        } else {
            (-n) as u64
        };
        append_u64(s, m);
    }
}

/// Owner of all mutable state: the registry of stands in the order they
/// were added, the live assignments, and the history of events handled.
pub struct AllocationEngine {
    pub gates: Vec<Gate>,
    pub assignments: Vec<GateAssignment>,
    pub disruptions: Vec<DisruptionEvent>,
}

/// Outcome of one allocation attempt. An empty candidate set is a normal,
/// non-fatal outcome reported with `success == false`.
#[derive(Debug)]
pub struct AllocationResult {
    pub success: bool,
    pub assignment: Option<GateAssignment>,
    pub message: String,
}

/// Outcome of handling one disruption event. Every event is acknowledged;
/// `reassignments` lists the bookings created or adjusted in response.
#[derive(Debug)]
pub struct DisruptionResult {
    pub acknowledged: bool,
    pub reassignments: Vec<GateAssignment>,
    pub summary: String,
}

/// Aggregate counts over the engine state.
#[derive(Debug, Clone, Copy, PartialEq, Eq, Structural)]
pub struct EngineStats {
    pub total_gates: usize,
    pub available_gates: usize,
    pub occupied_gates: usize,
    pub total_disruptions: usize,
}

/// Number of gates currently in service.
pub open spec fn count_available(gates: Seq<Gate>) -> int
    decreases gates.len(),
{
    if gates.len() == 0 {
        0
    } else {
        count_available(gates.drop_last()) + if gates.last().is_available {
            1int
        } else {
            0int
        }
    }
}

/// View of an optional terminal filter.
pub open spec fn spec_opt_view(t: Option<&str>) -> Option<Seq<char>> {
    match t {
        Option::None => Option::<Seq<char>>::None,
        Option::Some(s) => Option::Some(s@),
    }
}

/// The assignments kept by an optional terminal filter, in order.
pub open spec fn spec_filter_terminal(s: Seq<GateAssignment>, t: Option<Seq<char>>) -> Seq<
    GateAssignment,
>
    decreases s.len(),
{
    if s.len() == 0 {
        Seq::<GateAssignment>::empty()
    } else {
        let prefix = spec_filter_terminal(s.drop_last(), t);
        let keep = match t {
            Option::None => true,
            Option::Some(tv) => s.last().gate.terminal@ == tv,
        };
        if keep {
            prefix.push(s.last())
        } else {
            prefix
        }
    }
}

/// Relies on `uuid::Uuid::new_v4` and the crate's `Display` rendering: a
/// fresh random version-4 UUID in the 36-character hyphenated form. The
/// result is random, so nothing is assumed beyond its length.
#[verifier::external_body]
fn fresh_assignment_id() -> (r: String)
    ensures
        r@.len() == 36,
{
    uuid::Uuid::new_v4().to_string()
}

/// Gate id membership test against a preference list.
fn id_in_list(ids: &Vec<String>, id: &String) -> (r: bool)
    ensures
        r == spec_id_in(ids@, id@),
{
    let mut i: usize = 0;
    while i < ids.len()
        invariant
            i <= ids@.len(),
            forall|j: int| 0 <= j < i ==> ids@[j]@ != id@,
        decreases ids@.len() - i,
    {
        if ids[i] == *id {
            return true;
        }
        i = i + 1;
    }
    false
}

/// The greedy score of one gate; see [`spec_score`].
fn score_of(gate: &Gate, size: AircraftSize, preferred: &Vec<String>) -> (r: i32)
    ensures
        r as int == spec_score(*gate, size, preferred@),
{
    let diff = rank_of(gate.size) as i32 - rank_of(size) as i32;
    let oversize: i32 = if diff > 0 {
        10 * diff
    } else {
        0
    };
    let pref: i32 = if preferred.len() == 0 {
        0
    } else if id_in_list(preferred, &gate.gate_id) {
        -3
    } else {
        5
    };
    oversize + pref
}

impl AllocationEngine {
    /// The bookings carried by the current assignments, in order.
    pub open spec fn bookings(self) -> Seq<Booking> {
        bk(self.assignments@)
    }

    /// Engine invariant: no gate is double-booked, and every booked
    /// departure admits the turnaround buffer within the timestamp range.
    pub open spec fn wf(self) -> bool {
        no_double_booking(self.bookings()) && departures_in_range(self.bookings())
    }

    /// A fresh engine with no gates, assignments or history.
    pub fn new() -> (r: Self)
        ensures
            r.gates@.len() == 0,
            r.assignments@.len() == 0,
            r.disruptions@.len() == 0,
            r.wf(),
    {
        let r = AllocationEngine { gates: Vec::new(), assignments: Vec::new(), disruptions: Vec::new() };
        proof {
            assert(r.bookings() =~= Seq::<Booking>::empty());
        }
        r
    }

    /// Append a gate to the registry. Registration order is significant: it
    /// breaks score ties in allocation.
    pub fn add_gate(&mut self, gate: Gate)
        ensures
            final(self).gates@ == old(self).gates@.push(gate),
            final(self).assignments@ == old(self).assignments@,
            final(self).disruptions@ == old(self).disruptions@,
            old(self).wf() ==> final(self).wf(),
    {
        self.gates.push(gate);
    }

    /// True iff an existing assignment on `gate_id` overlaps the proposed
    /// half-open window `[from, until)`.
    fn has_conflict(&self, gate_id: &String, from: i64, until: i64) -> (r: bool)
        ensures
            r == spec_has_conflict(self.bookings(), gate_id@, from, until),
    {
        let mut i: usize = 0;
        while i < self.assignments.len()
            invariant
                i <= self.assignments@.len(),
                forall|j: int|
                    0 <= j < i ==> !booking_conflicts(self.bookings()[j], gate_id@, from, until),
            decreases self.assignments@.len() - i,
        {
            let a = &self.assignments[i];
            if a.gate.gate_id == *gate_id && a.assigned_from < until && a.assigned_until > from {
                proof {
                    assert(booking_conflicts(self.bookings()[i as int], gate_id@, from, until));
                }
                return true;
            }
            i = i + 1;
        }
        false
    }

    /// Allocate the best available gate for a flight using greedy scoring.
    ///
    /// The candidate set holds every in-service gate that is large enough
    /// for the flight's derived size class and free of time conflicts over
    /// the derived booking window; the minimum-score candidate wins, ties
    /// broken by registration order. On success exactly one new assignment
    /// is appended; on an empty candidate set the state is unchanged, a
    /// normal non-fatal outcome.
    pub fn allocate_gate(&mut self, flight: &Flight, airport: &str, preferred: &Vec<String>) -> (r:
        AllocationResult)
        requires
            old(self).wf(),
            flight.scheduled_departure + TURNAROUND_BUFFER_SECONDS <= i64::MAX,
        ensures
            final(self).gates@ == old(self).gates@,
            final(self).disruptions@ == old(self).disruptions@,
            final(self).wf(),
            r.success == (spec_alloc_choice(
                old(self).gates@,
                old(self).bookings(),
                *flight,
                preferred@,
            ) is Some),
            match spec_alloc_choice(old(self).gates@, old(self).bookings(), *flight, preferred@) {
                Option::Some(i) => {
                    &&& r.assignment is Some
                    &&& shape(r.assignment->Some_0) == spec_new_booking(
                        old(self).gates@,
                        *flight,
                        i,
                    )
                    &&& final(self).assignments@ == old(self).assignments@.push(
                        r.assignment->Some_0,
                    )
                    &&& final(self).bookings() == old(self).bookings().push(
                        spec_new_booking(old(self).gates@, *flight, i),
                    )
                    &&& r.message@ == "Allocated "@ + flight.flight_id@ + " -> "@
                        + old(self).gates@[i].gate_id@ + " (score: "@ + spec_int_text(
                        spec_score(
                            old(self).gates@[i],
                            spec_classify(flight.aircraft_type@),
                            preferred@,
                        ),
                    ) + ".0)"@
                },
                Option::None => {
                    &&& r.assignment is None
                    &&& final(self).assignments@ == old(self).assignments@
                    &&& r.message@ == "No compatible gate for "@ + flight.flight_id@ + " ("@
                        + flight.aircraft_type@ + ") at "@ + airport@
                },
            },
    {
        let size = flight.aircraft_size();
        let need_from = flight.scheduled_arrival;
        let need_until = flight.scheduled_departure + TURNAROUND_BUFFER_SECONDS;
        let n = self.gates.len();
        let mut best: Option<usize> = None;
        let mut best_score: i32 = 0;
        let mut i: usize = 0;
        while i < n
            invariant
                self.gates@ == old(self).gates@,
                self.assignments@ == old(self).assignments@,
                self.disruptions@ == old(self).disruptions@,
                i <= n,
                n == self.gates@.len(),
                size == spec_classify(flight.aircraft_type@),
                need_from == flight.scheduled_arrival,
                need_until as int == flight.scheduled_departure + TURNAROUND_BUFFER_SECONDS,
                (match best {
                    Option::None => Option::<int>::None,
                    Option::Some(b) => Option::Some(b as int),
                }) == spec_best_gate(
                    self.gates@.take(i as int),
                    self.bookings(),
                    size,
                    need_from,
                    need_until,
                    preferred@,
                ),
                match best {
                    Option::Some(b) => b < i && best_score as int == spec_score(
                        self.gates@[b as int],
                        size,
                        preferred@,
                    ),
                    Option::None => true,
                },
            decreases n - i,
        {
            proof {
                assert(self.gates@.take(i + 1 as int).drop_last() =~= self.gates@.take(i as int));
                assert(self.gates@.take(i + 1 as int).last() == self.gates@[i as int]);
            }
            let avail = self.gates[i].is_available;
            let fits = self.gates[i].can_accommodate(size);
            if avail && fits {
                let gid = self.gates[i].gate_id.clone();
                if !self.has_conflict(&gid, need_from, need_until) {
                    let sc = score_of(&self.gates[i], size, preferred);
                    match best {
                        Option::None => {
                            best = Some(i);
                            best_score = sc;
                        },
                        Option::Some(_b) => {
                            if sc < best_score {
                                best = Some(i);
                                best_score = sc;
                            }
                        },
                    }
                }
            }
            i = i + 1;
        }
        proof {
            assert(self.gates@.take(n as int) =~= self.gates@);
        }
        match best {
            Option::Some(bi) => {
                let chosen = self.gates[bi].clone();
                let new_assignment = GateAssignment {
                    assignment_id: fresh_assignment_id(),
                    flight: flight.clone(),
                    gate: chosen,
                    assigned_from: need_from,
                    assigned_until: need_until,
                };
                let returned = new_assignment.clone();
                let mut msg = String::from_str("Allocated ");
                msg.append(flight.flight_id.as_str());
                msg.append(" -> ");
                msg.append(new_assignment.gate.gate_id.as_str());
                msg.append(" (score: ");
                append_i64(&mut msg, best_score as i64);
                msg.append(".0)");
                proof {
                    assert(msg@ =~= "Allocated "@ + flight.flight_id@ + " -> "@
                        + self.gates@[bi as int].gate_id@ + " (score: "@ + spec_int_text(
                        spec_score(self.gates@[bi as int], size, preferred@),
                    ) + ".0)"@);
                }
                proof {
                    lemma_best_gate_characterization(
                        self.gates@,
                        self.bookings(),
                        size,
                        need_from,
                        need_until,
                        preferred@,
                    );
                    lemma_push_preserves_invariants(self.bookings(), shape(new_assignment));
                }
                let ghost before = self.bookings();
                self.assignments.push(new_assignment);
                proof {
                    assert(self.bookings() =~= before.push(
                        spec_new_booking(old(self).gates@, *flight, bi as int),
                    ));
                }
                AllocationResult { success: true, assignment: Some(returned), message: msg }
            },
            Option::None => {
                let mut msg = String::from_str("No compatible gate for ");
                msg.append(flight.flight_id.as_str());
                msg.append(" (");
                msg.append(flight.aircraft_type.as_str());
                msg.append(") at ");
                msg.append(airport);
                proof {
                    assert(msg@ =~= "No compatible gate for "@ + flight.flight_id@ + " ("@
                        + flight.aircraft_type@ + ") at "@ + airport@);
                }
                AllocationResult { success: false, assignment: None, message: msg }
            },
        }
    }

    /// True iff an assignment other than the one at index `skip` overlaps
    /// the proposed half-open window `[from, until)` on `gate_id`.
    fn has_conflict_except(&self, skip: usize, gate_id: &String, from: i64, until: i64) -> (r:
        bool)
        ensures
            r == (exists|j: int|
                0 <= j < self.bookings().len() && j != skip && (#[trigger] self.bookings()[j]).gate.gate_id@
                    == gate_id@ && windows_overlap(
                    self.bookings()[j].from,
                    self.bookings()[j].until,
                    from,
                    until,
                )),
    {
        let mut i: usize = 0;
        while i < self.assignments.len()
            invariant
                i <= self.assignments@.len(),
                forall|j: int|
                    0 <= j < i && j != skip ==> !((#[trigger] self.bookings()[j]).gate.gate_id@
                        == gate_id@ && windows_overlap(
                        self.bookings()[j].from,
                        self.bookings()[j].until,
                        from,
                        until,
                    )),
            decreases self.assignments@.len() - i,
        {
            if i != skip {
                let a = &self.assignments[i];
                if a.gate.gate_id == *gate_id && a.assigned_from < until && a.assigned_until
                    > from {
                    proof {
                        assert(self.bookings()[i as int].gate.gate_id@ == gate_id@);
                    }
                    return true;
                }
            }
            i = i + 1;
        }
        false
    }

    /// Remove every assignment of the given flight; returns how many were
    /// freed.
    fn remove_flight_assignments(&mut self, fid: &String) -> (freed: usize)
        requires
            old(self).wf(),
        ensures
            final(self).gates@ == old(self).gates@,
            final(self).disruptions@ == old(self).disruptions@,
            final(self).assignments@ == old(self).assignments@.filter(keeps_flight(fid@)),
            freed == old(self).assignments@.len() - final(self).assignments@.len(),
            final(self).wf(),
    {
        let before = self.assignments.len();
        let mut kept: Vec<GateAssignment> = Vec::new();
        let mut i: usize = 0;
        while i < self.assignments.len()
            invariant
                self.gates@ == old(self).gates@,
                self.assignments@ == old(self).assignments@,
                self.disruptions@ == old(self).disruptions@,
                i <= self.assignments@.len(),
                kept@ == self.assignments@.take(i as int).filter(keeps_flight(fid@)),
            decreases self.assignments@.len() - i,
        {
            proof {
                reveal_with_fuel(Seq::filter, 2);
                assert(self.assignments@.take(i + 1 as int).drop_last() =~= self.assignments@.take(
                    i as int,
                ));
                assert(self.assignments@.take(i + 1 as int).last() == self.assignments@[i as int]);
            }
            if !(self.assignments[i].flight.flight_id == *fid) {
                kept.push(self.assignments[i].clone());
            }
            i = i + 1;
        }
        proof {
            assert(self.assignments@.take(self.assignments@.len() as int) =~= self.assignments@);
            self.assignments@.lemma_filter_len(keeps_flight(fid@));
            assert(forall|a: GateAssignment| #[trigger]
                keeps_flight(fid@)(a) == bkeeps_flight(fid@)(shape(a)));
            lemma_bk_filter_commute(self.assignments@, keeps_flight(fid@), bkeeps_flight(fid@));
            lemma_filter_preserves_invariants(self.bookings(), bkeeps_flight(fid@));
        }
        let after = kept.len();
        self.assignments = kept;
        before - after
    }

    /// Remove every assignment on the given gate; returns how many were
    /// removed.
    fn remove_gate_assignments(&mut self, gid: &String) -> (removed: usize)
        requires
            old(self).wf(),
        ensures
            final(self).gates@ == old(self).gates@,
            final(self).disruptions@ == old(self).disruptions@,
            final(self).assignments@ == old(self).assignments@.filter(keeps_gate(gid@)),
            removed == old(self).assignments@.len() - final(self).assignments@.len(),
            final(self).wf(),
    {
        let before = self.assignments.len();
        let mut kept: Vec<GateAssignment> = Vec::new();
        let mut i: usize = 0;
        while i < self.assignments.len()
            invariant
                self.gates@ == old(self).gates@,
                self.assignments@ == old(self).assignments@,
                self.disruptions@ == old(self).disruptions@,
                i <= self.assignments@.len(),
                kept@ == self.assignments@.take(i as int).filter(keeps_gate(gid@)),
            decreases self.assignments@.len() - i,
        {
            proof {
                reveal_with_fuel(Seq::filter, 2);
                assert(self.assignments@.take(i + 1 as int).drop_last() =~= self.assignments@.take(
                    i as int,
                ));
                assert(self.assignments@.take(i + 1 as int).last() == self.assignments@[i as int]);
            }
            if !(self.assignments[i].gate.gate_id == *gid) {
                kept.push(self.assignments[i].clone());
            }
            i = i + 1;
        }
        proof {
            assert(self.assignments@.take(self.assignments@.len() as int) =~= self.assignments@);
            self.assignments@.lemma_filter_len(keeps_gate(gid@));
            assert(forall|a: GateAssignment| #[trigger]
                keeps_gate(gid@)(a) == bkeeps_gate(gid@)(shape(a)));
            lemma_bk_filter_commute(self.assignments@, keeps_gate(gid@), bkeeps_gate(gid@));
            lemma_filter_preserves_invariants(self.bookings(), bkeeps_gate(gid@));
        }
        let after = kept.len();
        self.assignments = kept;
        before - after
    }

    /// Handle a disruption event with automatic re-allocation.
    ///
    /// Whatever the kind, the event first goes into the history and the
    /// result acknowledges it. `Delay` shifts each booking of the affected
    /// flight in place when its gate stays free, and otherwise vacates the
    /// old slot after offering a shifted copy of the flight to the
    /// allocator; `Cancellation` and `Diversion` drop the flight's
    /// bookings; `GateUnavailable` retires the stand whose id sits in
    /// `description` and tries the allocator once more for each flight it
    /// was hosting; `Weather` and `Mechanical` leave assignments and stands
    /// alone.
    pub fn handle_disruption(&mut self, event: DisruptionEvent) -> (r: DisruptionResult)
        requires
            old(self).wf(),
            event.disruption_type == DisruptionType::Delay ==> spec_delay_feasible(
                old(self).bookings(),
                event.affected_flight_id@,
                event.delay_minutes as int * 60,
            ),
        ensures
            final(self).wf(),
            final(self).disruptions@ == old(self).disruptions@.push(event),
            r.acknowledged,
            event.disruption_type == DisruptionType::Delay ==> {
                &&& final(self).gates@ == old(self).gates@
                &&& spec_delay_rel(
                    old(self).gates@,
                    old(self).assignments@,
                    0,
                    old(self).assignments@.len() as int,
                    event.affected_flight_id@,
                    event.delay_minutes as int * 60,
                    final(self).assignments@,
                    r.reassignments@,
                )
                &&& r.summary@ == event.affected_flight_id@ + " delayed "@ + spec_int_text(
                    event.delay_minutes as int,
                ) + "min - "@ + spec_decimal(
                    spec_count_matching(old(self).assignments@, event.affected_flight_id@),
                ) + " assignment(s) adjusted"@
            },
            (event.disruption_type == DisruptionType::Cancellation || event.disruption_type
                == DisruptionType::Diversion) ==> {
                &&& final(self).gates@ == old(self).gates@
                &&& final(self).assignments@ == old(self).assignments@.filter(
                    keeps_flight(event.affected_flight_id@),
                )
                &&& r.reassignments@.len() == 0
            },
            event.disruption_type == DisruptionType::Cancellation ==> r.summary@
                == event.affected_flight_id@ + " cancelled - "@ + spec_decimal(
                old(self).assignments@.len() - old(self).assignments@.filter(
                    keeps_flight(event.affected_flight_id@),
                ).len(),
            ) + " gate(s) freed"@,
            event.disruption_type == DisruptionType::Diversion ==> r.summary@
                == "Diversion event for "@ + event.affected_flight_id@,
            (event.disruption_type == DisruptionType::Weather || event.disruption_type
                == DisruptionType::Mechanical) ==> {
                &&& final(self).gates@ == old(self).gates@
                &&& final(self).assignments@ == old(self).assignments@
                &&& r.reassignments@.len() == 0
            },
            event.disruption_type == DisruptionType::Weather ==> r.summary@
                == "Weather event for "@ + event.affected_flight_id@,
            event.disruption_type == DisruptionType::Mechanical ==> r.summary@
                == "Mechanical event for "@ + event.affected_flight_id@,
            event.disruption_type == DisruptionType::GateUnavailable ==> ({
                let gid = event.description@;
                let gates2 = spec_disable_gate(old(self).gates@, gid);
                let base = bk(old(self).assignments@.filter(keeps_gate(gid)));
                let affected = spec_flights_on(old(self).bookings(), gid);
                let res = spec_gate_loss_rec(gates2, base, affected, affected.len() as int);
                &&& final(self).gates@ == gates2
                &&& final(self).assignments@ == old(self).assignments@.filter(keeps_gate(gid))
                    + r.reassignments@
                &&& final(self).bookings() == res.0
                &&& bk(r.reassignments@) == res.1
                &&& r.summary@ == "Gate "@ + gid + " unavailable - "@ + spec_decimal(
                    affected.len() as int,
                ) + " flight(s) re-allocated"@
            }),
    {
        self.disruptions.push(event.clone());
        match event.disruption_type {
            DisruptionType::Delay => {
                let delay_s: i64 = (event.delay_minutes as i64) * 60;
                let ghost d: int = event.delay_minutes as int * 60;
                let ghost fid = event.affected_flight_id@;
                let ghost s0a = self.assignments@;
                let orig_len = self.assignments.len();
                let ghost n: int = orig_len as int;
                let mut reassignments: Vec<GateAssignment> = Vec::new();
                let mut touched: usize = 0;
                let mut idx: usize = 0;
                let mut rem: usize = orig_len;
                proof {
                    assert(s0a.subrange(0, n) =~= s0a);
                }
                while rem > 0
                    invariant
                        self.gates@ == old(self).gates@,
                        self.disruptions@ == old(self).disruptions@.push(event),
                        s0a == old(self).assignments@,
                        n == s0a.len(),
                        n == orig_len as int,
                        fid == event.affected_flight_id@,
                        d == event.delay_minutes as int * 60,
                        delay_s as int == d,
                        spec_delay_feasible(bk(s0a), fid, d),
                        rem <= n,
                        idx as int <= n - rem as int,
                        idx + rem <= self.assignments@.len(),
                        self.assignments@.subrange(idx as int, idx as int + rem as int)
                            == s0a.subrange(n - rem as int, n),
                        touched as int <= n - rem as int,
                        touched as int + spec_count_matching(
                            s0a.subrange(n - rem as int, n),
                            fid,
                        ) == spec_count_matching(s0a, fid),
                        self.wf(),
                        forall|fs: Seq<GateAssignment>, rs: Seq<GateAssignment>|
                            #[trigger] spec_delay_rel(
                                self.gates@,
                                self.assignments@,
                                idx as int,
                                rem as int,
                                fid,
                                d,
                                fs,
                                rs,
                            ) ==> spec_delay_rel(
                                self.gates@,
                                s0a,
                                0,
                                n,
                                fid,
                                d,
                                fs,
                                reassignments@ + rs,
                            ),
                    decreases rem,
                {
                    let ghost cur = self.assignments@;
                    let ghost idx0: int = idx as int;
                    let ghost rem0: int = rem as int;
                    let ghost reass_pre = reassignments@;
                    let ghost a_spec = cur[idx0];
                    proof {
                        assert(cur.subrange(idx0, idx0 + rem0)[0] == cur[idx0]);
                        assert(s0a.subrange(n - rem0, n)[0] == s0a[n - rem0]);
                        assert(a_spec == s0a[n - rem0]);
                        assert(bk(s0a)[n - rem0] == shape(s0a[n - rem0]));
                        assert(s0a.subrange(n - rem0, n).drop_first() =~= s0a.subrange(
                            n - rem0 + 1,
                            n,
                        ));
                    }
                    if self.assignments[idx].flight.flight_id == event.affected_flight_id {
                        touched = touched + 1;
                        let new_from = self.assignments[idx].assigned_from + delay_s;
                        let new_until = self.assignments[idx].assigned_until + delay_s;
                        let gate_id = self.assignments[idx].gate.gate_id.clone();
                        let conflict = self.has_conflict_except(idx, &gate_id, new_from, new_until);
                        if conflict {
                            let mut shifted = self.assignments[idx].flight.clone();
                            shifted.scheduled_arrival = shifted.scheduled_arrival + delay_s;
                            shifted.scheduled_departure = shifted.scheduled_departure + delay_s;
                            shifted.status = FlightStatus::Delayed;
                            proof {
                                assert(shifted == spec_shifted_flight(a_spec.flight, d));
                            }
                            let mut pref: Vec<String> = Vec::new();
                            pref.push(gate_id);
                            proof {
                                assert(pref@ =~= Seq::<String>::empty().push(a_spec.gate.gate_id));
                            }
                            let result = self.allocate_gate(
                                &shifted,
                                shifted.destination.as_str(),
                                &pref,
                            );
                            let ghost post_alloc = self.assignments@;
                            let _removed = self.assignments.remove(idx);
                            proof {
                                lemma_bk_remove(post_alloc, idx0);
                                lemma_remove_preserves_invariants(bk(post_alloc), idx0);
                                assert(self.assignments@.subrange(idx0, idx0 + rem0 - 1)
                                    =~= s0a.subrange(n - rem0 + 1, n)) by {
                                    post_alloc.remove_ensures(idx0);
                                }
                            }
                            rem = rem - 1;
                            match result.assignment {
                                Option::Some(a2) => {
                                    reassignments.push(a2);
                                    proof {
                                        assert(post_alloc == cur.push(a2));
                                        assert forall|fs: Seq<GateAssignment>, rs: Seq<
                                            GateAssignment,
                                        >|
                                            #[trigger] spec_delay_rel(
                                                self.gates@,
                                                self.assignments@,
                                                idx as int,
                                                rem as int,
                                                fid,
                                                d,
                                                fs,
                                                rs,
                                            ) implies spec_delay_rel(
                                            self.gates@,
                                            s0a,
                                            0,
                                            n,
                                            fid,
                                            d,
                                            fs,
                                            reassignments@ + rs,
                                        ) by {
                                            let emitted = reassignments@.last();
                                            let rsx = Seq::<GateAssignment>::empty().push(emitted)
                                                + rs;
                                            assert(rsx.drop_first() =~= rs);
                                            assert(spec_delay_rel(
                                                self.gates@,
                                                cur,
                                                idx0,
                                                rem0,
                                                fid,
                                                d,
                                                fs,
                                                rsx,
                                            ));
                                            assert(reass_pre + rsx =~= reassignments@ + rs);
                                        }
                                    }
                                },
                                Option::None => {
                                    proof {
                                        assert(post_alloc == cur);
                                        assert forall|fs: Seq<GateAssignment>, rs: Seq<
                                            GateAssignment,
                                        >|
                                            #[trigger] spec_delay_rel(
                                                self.gates@,
                                                self.assignments@,
                                                idx as int,
                                                rem as int,
                                                fid,
                                                d,
                                                fs,
                                                rs,
                                            ) implies spec_delay_rel(
                                            self.gates@,
                                            s0a,
                                            0,
                                            n,
                                            fid,
                                            d,
                                            fs,
                                            reassignments@ + rs,
                                        ) by {
                                            assert(spec_delay_rel(
                                                self.gates@,
                                                cur,
                                                idx0,
                                                rem0,
                                                fid,
                                                d,
                                                fs,
                                                rs,
                                            ));
                                        }
                                    }
                                },
                            }
                        } else {
                            let mut fl = self.assignments[idx].flight.clone();
                            fl.status = FlightStatus::Delayed;
                            let updated = GateAssignment {
                                assignment_id: self.assignments[idx].assignment_id.clone(),
                                flight: fl,
                                gate: self.assignments[idx].gate.clone(),
                                assigned_from: new_from,
                                assigned_until: new_until,
                            };
                            let copy = updated.clone();
                            proof {
                                assert(updated == spec_shifted_assignment(a_spec, d));
                                assert(self.bookings()[idx0] == shape(cur[idx0]));
                                lemma_update_preserves_invariants(
                                    self.bookings(),
                                    idx0,
                                    shape(updated),
                                );
                            }
                            self.assignments[idx] = updated;
                            reassignments.push(copy);
                            proof {
                                assert(bk(self.assignments@) =~= bk(cur).update(
                                    idx0,
                                    shape(spec_shifted_assignment(a_spec, d)),
                                ));
                            }
                            idx = idx + 1;
                            rem = rem - 1;
                            proof {
                                assert(self.assignments@.subrange(idx as int, idx as int
                                    + rem as int) =~= s0a.subrange(n - rem as int, n));
                                assert forall|fs: Seq<GateAssignment>, rs: Seq<GateAssignment>|
                                    #[trigger] spec_delay_rel(
                                        self.gates@,
                                        self.assignments@,
                                        idx as int,
                                        rem as int,
                                        fid,
                                        d,
                                        fs,
                                        rs,
                                    ) implies spec_delay_rel(
                                    self.gates@,
                                    s0a,
                                    0,
                                    n,
                                    fid,
                                    d,
                                    fs,
                                    reassignments@ + rs,
                                ) by {
                                    let ua = spec_shifted_assignment(a_spec, d);
                                    let rsx = Seq::<GateAssignment>::empty().push(ua) + rs;
                                    assert(rsx.drop_first() =~= rs);
                                    assert(spec_delay_rel(
                                        self.gates@,
                                        cur,
                                        idx0,
                                        rem0,
                                        fid,
                                        d,
                                        fs,
                                        rsx,
                                    ));
                                    assert(reass_pre + rsx =~= reassignments@ + rs);
                                }
                            }
                        }
                    } else {
                        idx = idx + 1;
                        rem = rem - 1;
                        proof {
                            assert(self.assignments@.subrange(idx as int, idx as int + rem as int)
                                =~= s0a.subrange(n - rem as int, n));
                            assert forall|fs: Seq<GateAssignment>, rs: Seq<GateAssignment>|
                                #[trigger] spec_delay_rel(
                                    self.gates@,
                                    self.assignments@,
                                    idx as int,
                                    rem as int,
                                    fid,
                                    d,
                                    fs,
                                    rs,
                                ) implies spec_delay_rel(
                                self.gates@,
                                s0a,
                                0,
                                n,
                                fid,
                                d,
                                fs,
                                reassignments@ + rs,
                            ) by {
                                assert(spec_delay_rel(self.gates@, cur, idx0, rem0, fid, d, fs, rs));
                            }
                        }
                    }
                }
                proof {
                    assert(spec_delay_rel(
                        self.gates@,
                        self.assignments@,
                        idx as int,
                        0,
                        fid,
                        d,
                        self.assignments@,
                        Seq::<GateAssignment>::empty(),
                    ));
                    assert(reassignments@ + Seq::<GateAssignment>::empty() =~= reassignments@);
                    assert(s0a.subrange(n, n) =~= Seq::<GateAssignment>::empty());
                }
                let mut summary = String::from_str(event.affected_flight_id.as_str());
                summary.append(" delayed ");
                append_i64(&mut summary, event.delay_minutes as i64);
                summary.append("min - ");
                append_u64(&mut summary, touched as u64);
                summary.append(" assignment(s) adjusted");
                proof {
                    assert(summary@ =~= event.affected_flight_id@ + " delayed "@ + spec_int_text(
                        event.delay_minutes as int,
                    ) + "min - "@ + spec_decimal(touched as int) + " assignment(s) adjusted"@);
                }
                DisruptionResult { acknowledged: true, reassignments, summary }
            },
            DisruptionType::Cancellation => {
                let freed = self.remove_flight_assignments(&event.affected_flight_id);
                let mut summary = String::from_str(event.affected_flight_id.as_str());
                summary.append(" cancelled - ");
                append_u64(&mut summary, freed as u64);
                summary.append(" gate(s) freed");
                proof {
                    assert(summary@ =~= event.affected_flight_id@ + " cancelled - "@
                        + spec_decimal(freed as int) + " gate(s) freed"@);
                }
                DisruptionResult { acknowledged: true, reassignments: Vec::new(), summary }
            },
            DisruptionType::Diversion => {
                let _freed = self.remove_flight_assignments(&event.affected_flight_id);
                let mut summary = String::from_str("Diversion event for ");
                summary.append(event.affected_flight_id.as_str());
                proof {
                    assert(summary@ =~= "Diversion event for "@ + event.affected_flight_id@);
                }
                DisruptionResult { acknowledged: true, reassignments: Vec::new(), summary }
            },
            DisruptionType::GateUnavailable => {
                let gid_str = event.description.clone();
                let ghost gid = event.description@;
                let mut affected: Vec<Flight> = Vec::new();
                let mut i: usize = 0;
                while i < self.assignments.len()
                    invariant
                        self.gates@ == old(self).gates@,
                        self.assignments@ == old(self).assignments@,
                        self.disruptions@ == old(self).disruptions@.push(event),
                        i <= self.assignments@.len(),
                        gid_str@ == gid,
                        affected@ == spec_flights_on(self.bookings().take(i as int), gid),
                    decreases self.assignments@.len() - i,
                {
                    proof {
                        assert(self.bookings().take(i + 1 as int).drop_last()
                            =~= self.bookings().take(i as int));
                        assert(self.bookings().take(i + 1 as int).last() == shape(
                            self.assignments@[i as int],
                        ));
                    }
                    if self.assignments[i].gate.gate_id == gid_str {
                        affected.push(self.assignments[i].flight.clone());
                    }
                    i = i + 1;
                }
                proof {
                    assert(self.bookings().take(self.bookings().len() as int)
                        =~= self.bookings());
                }
                let n = self.gates.len();
                let mut found: Option<usize> = None;
                let mut gi: usize = 0;
                while gi < n
                    invariant
                        n == self.gates@.len(),
                        gi <= n,
                        gid_str@ == gid,
                        self.gates@ == old(self).gates@,
                        match found {
                            Option::None => forall|j: int|
                                0 <= j < gi ==> (#[trigger] self.gates@[j]).gate_id@ != gid,
                            Option::Some(k) => k < gi && self.gates@[k as int].gate_id@ == gid
                                && (forall|j: int|
                                0 <= j < k ==> (#[trigger] self.gates@[j]).gate_id@ != gid),
                        },
                    decreases n - gi,
                {
                    if found.is_none() && self.gates[gi].gate_id == gid_str {
                        found = Some(gi);
                    }
                    gi = gi + 1;
                }
                match found {
                    Option::Some(k) => {
                        let g2 = Gate {
                            gate_id: self.gates[k].gate_id.clone(),
                            terminal: self.gates[k].terminal.clone(),
                            size: self.gates[k].size,
                            is_available: false,
                        };
                        proof {
                            lemma_first_gate_characterization(self.gates@, gid, k as int);
                        }
                        self.gates[k] = g2;
                        proof {
                            assert(self.gates@ =~= spec_disable_gate(old(self).gates@, gid));
                        }
                    },
                    Option::None => {
                        proof {
                            lemma_first_gate_characterization(self.gates@, gid, n as int);
                        }
                    },
                }
                let _removed = self.remove_gate_assignments(&gid_str);
                let ghost base_a = self.assignments@;
                let ghost base = self.bookings();
                let ghost gates2 = self.gates@;
                proof {
                    lemma_flights_on_from(old(self).bookings(), gid);
                }
                let empty_pref: Vec<String> = Vec::new();
                let mut reassignments: Vec<GateAssignment> = Vec::new();
                let total = affected.len();
                let mut k: usize = 0;
                while k < total
                    invariant
                        k <= total,
                        total == affected@.len(),
                        self.gates@ == gates2,
                        gates2 == spec_disable_gate(old(self).gates@, gid),
                        self.disruptions@ == old(self).disruptions@.push(event),
                        base_a == old(self).assignments@.filter(keeps_gate(gid)),
                        base == bk(old(self).assignments@.filter(keeps_gate(gid))),
                        self.assignments@ == base_a + reassignments@,
                        affected@ == spec_flights_on(old(self).bookings(), gid),
                        empty_pref@.len() == 0,
                        self.wf(),
                        forall|t: int|
                            0 <= t < affected@.len() ==> (#[trigger] affected@[t]).scheduled_departure
                                + TURNAROUND_BUFFER_SECONDS <= i64::MAX,
                        self.bookings() == spec_gate_loss_rec(gates2, base, affected@, k as int).0,
                        bk(reassignments@) == spec_gate_loss_rec(
                            gates2,
                            base,
                            affected@,
                            k as int,
                        ).1,
                    decreases total - k,
                {
                    let f = affected[k].clone();
                    proof {
                        assert(empty_pref@ =~= Seq::<String>::empty());
                    }
                    let result = self.allocate_gate(&f, f.destination.as_str(), &empty_pref);
                    match result.assignment {
                        Option::Some(a) => {
                            proof {
                                assert(bk(reassignments@.push(a)) =~= bk(reassignments@).push(
                                    shape(a),
                                ));
                                assert((base_a + reassignments@).push(a) =~= base_a
                                    + reassignments@.push(a));
                            }
                            reassignments.push(a);
                        },
                        Option::None => {},
                    }
                    k = k + 1;
                }
                let mut summary = String::from_str("Gate ");
                summary.append(gid_str.as_str());
                summary.append(" unavailable - ");
                append_u64(&mut summary, total as u64);
                summary.append(" flight(s) re-allocated");
                proof {
                    assert(summary@ =~= "Gate "@ + gid + " unavailable - "@ + spec_decimal(
                        total as int,
                    ) + " flight(s) re-allocated"@);
                }
                DisruptionResult { acknowledged: true, reassignments, summary }
            },
            DisruptionType::Weather => {
                let mut summary = String::from_str("Weather event for ");
                summary.append(event.affected_flight_id.as_str());
                proof {
                    assert(summary@ =~= "Weather event for "@ + event.affected_flight_id@);
                }
                DisruptionResult { acknowledged: true, reassignments: Vec::new(), summary }
            },
            DisruptionType::Mechanical => {
                let mut summary = String::from_str("Mechanical event for ");
                summary.append(event.affected_flight_id.as_str());
                proof {
                    assert(summary@ =~= "Mechanical event for "@ + event.affected_flight_id@);
                }
                DisruptionResult { acknowledged: true, reassignments: Vec::new(), summary }
            },
        }
    }

    /// All assignments, optionally restricted to those whose gate's terminal
    /// matches the filter exactly. A read-only snapshot.
    pub fn get_assignments(&self, terminal: Option<&str>) -> (r: Vec<GateAssignment>)
        ensures
            r@ == spec_filter_terminal(self.assignments@, spec_opt_view(terminal)),
    {
        let mut out: Vec<GateAssignment> = Vec::new();
        let mut i: usize = 0;
        while i < self.assignments.len()
            invariant
                i <= self.assignments@.len(),
                out@ == spec_filter_terminal(self.assignments@.take(i as int), spec_opt_view(terminal)),
            decreases self.assignments@.len() - i,
        {
            let keep = match terminal {
                Option::None => true,
                Option::Some(t) => str_eq(t, self.assignments[i].gate.terminal.as_str()),
            };
            if keep {
                out.push(self.assignments[i].clone());
            }
            proof {
                assert(self.assignments@.take(i + 1 as int).drop_last() =~= self.assignments@.take(
                    i as int,
                ));
                assert(self.assignments@.take(i + 1 as int).last() == self.assignments@[i as int]);
            }
            i = i + 1;
        }
        proof {
            assert(self.assignments@.take(self.assignments@.len() as int) =~= self.assignments@);
        }
        out
    }

    /// Aggregate statistics: total and in-service gates, live assignments,
    /// and the length of the disruption history.
    pub fn stats(&self) -> (r: EngineStats)
        ensures
            r.total_gates == self.gates@.len(),
            r.available_gates as int == count_available(self.gates@),
            r.occupied_gates == self.assignments@.len(),
            r.total_disruptions == self.disruptions@.len(),
    {
        let mut avail: usize = 0;
        let mut i: usize = 0;
        while i < self.gates.len()
            invariant
                i <= self.gates@.len(),
                avail <= i,
                avail as int == count_available(self.gates@.take(i as int)),
            decreases self.gates@.len() - i,
        {
            proof {
                assert(self.gates@.take(i + 1 as int).drop_last() =~= self.gates@.take(i as int));
                assert(self.gates@.take(i + 1 as int).last() == self.gates@[i as int]);
            }
            if self.gates[i].is_available {
                avail = avail + 1;
            }
            i = i + 1;
        }
        proof {
            assert(self.gates@.take(self.gates@.len() as int) =~= self.gates@);
        }
        EngineStats {
            total_gates: self.gates.len(),
            available_gates: avail,
            occupied_gates: self.assignments.len(),
            total_disruptions: self.disruptions.len(),
        }
    }
}

} // verus!

