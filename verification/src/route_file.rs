//! A planned route as the text of a route file.
//!
//! Numbers come in as they are to be written; what is decided here is which
//! lines there are and what each waypoint says.

use vstd::prelude::*;

use crate::passage::{count_gates, gate_count};
use crate::scalar::Scalar;

verus! {

/// What a route file says.
#[derive(Debug)]
pub struct RouteText {
    pub name: String,
    pub acceptance_radius: String,
    pub close_hauled_angle_deg: String,
    pub xte_lookahead: String,
    pub min_tack_duration_s: String,
    pub gate_open_along_current: String,
    pub gate_min_fair_window_s: String,
    pub wind_direction_deg: String,
    pub wind_speed: String,
    /// East and north of each waypoint.
    pub places: Vec<(String, String)>,
    pub gates: Vec<bool>,
    /// Shortest time on a tack, as planned and as the route asked for.
    pub min_tack_s: Scalar,
    pub base_min_tack_s: Scalar,
}

/// One line.
pub open spec fn line(key: Seq<char>, value: Seq<char>) -> Seq<char> {
    key + value + "\n"@
}

/// The lines before the waypoints.
pub open spec fn head_text(t: RouteText) -> Seq<char> {
    "name: "@ + t.name@ + "_planned\n"@ + line("acceptance_radius: "@, t.acceptance_radius@) + line(
        "close_hauled_angle_deg: "@,
        t.close_hauled_angle_deg@,
    ) + line("xte_lookahead: "@, t.xte_lookahead@) + line(
        "min_tack_duration_s: "@,
        t.min_tack_duration_s@,
    ) + "fly_by_radius: 400.0\n"@ + "# Generated by `--scenario plan` (isochrone planner).\n"@ + (
    if t.base_min_tack_s.below(t.min_tack_s) {
        raised_note()
    } else {
        Seq::empty()
    }) + (if gate_count(t.gates@) > 0 {
        gate_note() + line("gate_open_along_current: "@, t.gate_open_along_current@) + line(
            "gate_min_fair_window_s: "@,
            t.gate_min_fair_window_s@,
        )
    } else {
        Seq::empty()
    }) + "wind: { direction_deg: "@ + t.wind_direction_deg@ + ", speed: "@ + t.wind_speed@ + " }\n"@
        + "waypoints:\n"@
}

/// What is said where the shortest time on a tack was raised.
pub open spec fn raised_note() -> Seq<char> {
    "# Minimum tack raised for long legs: commit to long tacks. The follower also loosens XTE lookahead per-leg so long legs foot for speed.\n"@
}

/// What is said where there are gates.
pub open spec fn gate_note() -> Seq<char> {
    "# Tidal gates inserted where a leg would be sailed against a foul stream.\n"@
}

/// Whether waypoint `i` is a gate. A waypoint without a flag is none.
pub open spec fn is_gate(gates: Seq<bool>, i: int) -> bool {
    i < gates.len() && gates[i]
}

/// The line of waypoint `i`: fly-by unless it is one of the ends.
pub open spec fn waypoint_line(t: RouteText, i: int) -> Seq<char> {
    "  - { x: "@ + t.places@[i].0@ + ", y: "@ + t.places@[i].1@ + (if 0 < i && i < t.places@.len()
        - 1 {
        ", soft: true"@
    } else {
        Seq::empty()
    }) + (if is_gate(t.gates@, i) {
        ", gate: true"@
    } else {
        Seq::empty()
    }) + " }\n"@
}

/// The lines of the first `n` waypoints.
pub open spec fn waypoint_lines(t: RouteText, n: int) -> Seq<char>
    decreases n,
{
    if n <= 0 {
        Seq::empty()
    } else {
        waypoint_lines(t, n - 1) + waypoint_line(t, n - 1)
    }
}

/// The whole text.
pub open spec fn route_text(t: RouteText) -> Seq<char> {
    head_text(t) + waypoint_lines(t, t.places@.len() as int) + "loop: false\n"@
}

fn write_line(text: &mut String, key: &str, value: &str)
    ensures
        final(text)@ == old(text)@ + line(key@, value@),
{
    text.append(key);
    text.append(value);
    text.append("\n");
    assert(text@ =~= old(text)@ + line(key@, value@));
}

fn write_head(t: &RouteText) -> (r: String)
    ensures
        r@ == head_text(*t),
{
    let mut s: String = "name: ".to_string();
    s.append(t.name.as_str());
    s.append("_planned\n");
    write_line(&mut s, "acceptance_radius: ", t.acceptance_radius.as_str());
    write_line(&mut s, "close_hauled_angle_deg: ", t.close_hauled_angle_deg.as_str());
    write_line(&mut s, "xte_lookahead: ", t.xte_lookahead.as_str());
    write_line(&mut s, "min_tack_duration_s: ", t.min_tack_duration_s.as_str());
    s.append("fly_by_radius: 400.0\n");
    s.append("# Generated by `--scenario plan` (isochrone planner).\n");
    let ghost before = s@;
    if t.min_tack_s.gt(t.base_min_tack_s) {
        s.append(
            "# Minimum tack raised for long legs: commit to long tacks. The follower also loosens XTE lookahead per-leg so long legs foot for speed.\n",
        );
    } else {
        assert(before + Seq::<char>::empty() =~= before);
    }
    let ghost noted = s@;
    if count_gates(&t.gates) > 0 {
        s.append("# Tidal gates inserted where a leg would be sailed against a foul stream.\n");
        write_line(&mut s, "gate_open_along_current: ", t.gate_open_along_current.as_str());
        write_line(&mut s, "gate_min_fair_window_s: ", t.gate_min_fair_window_s.as_str());
        assert(s@ =~= noted + (gate_note() + line(
            "gate_open_along_current: "@,
            t.gate_open_along_current@,
        ) + line("gate_min_fair_window_s: "@, t.gate_min_fair_window_s@)));
    } else {
        assert(noted + Seq::<char>::empty() =~= noted);
    }
    s.append("wind: { direction_deg: ");
    s.append(t.wind_direction_deg.as_str());
    s.append(", speed: ");
    s.append(t.wind_speed.as_str());
    s.append(" }\n");
    s.append("waypoints:\n");
    s
}

fn write_waypoint(s: &mut String, t: &RouteText, i: usize)
    requires
        i < t.places@.len(),
    ensures
        final(s)@ == old(s)@ + waypoint_line(*t, i as int),
{
    let n: usize = t.places.len();
    s.append("  - { x: ");
    s.append(t.places[i].0.as_str());
    s.append(", y: ");
    s.append(t.places[i].1.as_str());
    let ghost start = s@;
    if 0 < i && i < n - 1 {
        s.append(", soft: true");
    } else {
        assert(start + Seq::<char>::empty() =~= start);
    }
    let ghost mid = s@;
    if i < t.gates.len() && t.gates[i] {
        s.append(", gate: true");
    } else {
        assert(mid + Seq::<char>::empty() =~= mid);
    }
    s.append(" }\n");
    assert(s@ =~= old(s)@ + waypoint_line(*t, i as int));
}

/// Write a planned route down: both ends as hard waypoints, the points between
/// them as fly-bys, and the gates.
pub fn planned_route_text(t: &RouteText) -> (r: String)
    ensures
        r@ == route_text(*t),
{
    let mut s: String = write_head(t);
    let n: usize = t.places.len();
    let mut i: usize = 0;
    assert(head_text(*t) + Seq::<char>::empty() =~= head_text(*t));
    while i < n
        invariant
            n == t.places@.len(),
            i <= n,
            s@ == head_text(*t) + waypoint_lines(*t, i as int),
        decreases n - i,
    {
        write_waypoint(&mut s, t, i);
        assert(s@ =~= head_text(*t) + waypoint_lines(*t, i + 1));
        i = i + 1;
    }
    s.append("loop: false\n");
    s
}

proof fn lemma_gates_show(gates: Seq<bool>)
    ensures
        gate_count(gates) >= 0,
        gate_count(gates) > 0 <==> exists|i: int| 0 <= i < gates.len() && #[trigger] gates[i],
    decreases gates.len(),
{
    if gates.len() > 0 {
        let rest = gates.drop_last();
        lemma_gates_show(rest);
        if exists|i: int| 0 <= i < rest.len() && #[trigger] rest[i] {
            let i = choose|i: int| 0 <= i < rest.len() && #[trigger] rest[i];
            assert(gates[i]);
        }
        if gates[gates.len() - 1] {
            assert(gates.last());
        }
        if exists|i: int| 0 <= i < gates.len() && #[trigger] gates[i] {
            let i = choose|i: int| 0 <= i < gates.len() && #[trigger] gates[i];
            if i < rest.len() {
                assert(rest[i]);
            }
        }
    }
}

/// A waypoint is written with its place; one between the ends is told to be a
/// fly-by, the ends are not, and one whose flag is set is told to be a gate.
pub proof fn law_waypoint_is_written(t: RouteText, i: int)
    requires
        0 <= i < t.places@.len(),
    ensures
        ({
            let place = "  - { x: "@ + t.places@[i].0@ + ", y: "@ + t.places@[i].1@;
            let end = i == 0 || i == t.places@.len() - 1;
            let flagged = i < t.gates@.len() && t.gates@[i];
            &&& end && !flagged ==> waypoint_line(t, i) == place + " }\n"@
            &&& end && flagged ==> waypoint_line(t, i) == place + ", gate: true"@ + " }\n"@
            &&& !end && !flagged ==> waypoint_line(t, i) == place + ", soft: true"@ + " }\n"@
            &&& !end && flagged ==> waypoint_line(t, i) == place + ", soft: true"@
                + ", gate: true"@ + " }\n"@
        }),
{
    let place = "  - { x: "@ + t.places@[i].0@ + ", y: "@ + t.places@[i].1@;
    assert(place + Seq::<char>::empty() =~= place);
    assert(place + Seq::<char>::empty() + Seq::<char>::empty() =~= place);
    let soft = place + ", soft: true"@;
    assert(soft + Seq::<char>::empty() =~= soft);
}

/// The line of every waypoint stands in the text behind the lines of those before
/// it, and the text ends by saying that the route is no loop.
pub proof fn law_waypoints_are_written_in_order(t: RouteText, i: int) -> (around: (
    Seq<char>,
    Seq<char>,
))
    requires
        0 <= i < t.places@.len(),
    ensures
        route_text(t) == head_text(t) + around.0 + waypoint_line(t, i) + around.1 + "loop: false\n"@,
        i == 0 ==> around.0.len() == 0,
        i > 0 ==> exists|before: Seq<char>| around.0 == #[trigger] (before + waypoint_line(t, i - 1)),
        i == t.places@.len() - 1 ==> around.1.len() == 0,
        i < t.places@.len() - 1 ==> exists|behind: Seq<char>|
            around.1 == #[trigger] (waypoint_line(t, i + 1) + behind),
{
    let n = t.places@.len() as int;
    let before = waypoint_lines(t, i);
    let behind = lemma_lines_behind(t, i + 1, n);
    if i > 0 {
        assert(before == waypoint_lines(t, i - 1) + waypoint_line(t, i - 1));
    }
    if i < n - 1 {
        let rest = lemma_lines_behind(t, i + 2, n);
        assert(waypoint_lines(t, i + 2) == waypoint_lines(t, i + 1) + waypoint_line(t, i + 1));
        let shared = waypoint_lines(t, i + 1);
        assert(shared + behind =~= shared + (waypoint_line(t, i + 1) + rest));
        assert((shared + behind).skip(shared.len() as int) =~= behind);
        assert((shared + (waypoint_line(t, i + 1) + rest)).skip(shared.len() as int)
            =~= waypoint_line(t, i + 1) + rest);
    } else {
        assert((waypoint_lines(t, n) + behind).len() == waypoint_lines(t, n).len());
    }
    assert(waypoint_lines(t, i + 1) == before + waypoint_line(t, i));
    assert(head_text(t) + waypoint_lines(t, n) =~= head_text(t) + before + waypoint_line(t, i)
        + behind);
    (before, behind)
}

proof fn lemma_lines_behind(t: RouteText, k: int, n: int) -> (behind: Seq<char>)
    requires
        0 <= k <= n,
    ensures
        waypoint_lines(t, n) == waypoint_lines(t, k) + behind,
    decreases n - k,
{
    if k == n {
        assert(waypoint_lines(t, n) =~= waypoint_lines(t, k) + Seq::<char>::empty());
        Seq::empty()
    } else {
        let less = lemma_lines_behind(t, k, n - 1);
        assert(waypoint_lines(t, n) =~= waypoint_lines(t, k) + (less + waypoint_line(t, n - 1)));
        less + waypoint_line(t, n - 1)
    }
}

/// The lines before the waypoints: the name, the four settings of the follower, a
/// note where the shortest time on a tack was raised, the two settings of the gates
/// where some waypoint is one, and the wind.
pub proof fn law_settings_are_written(t: RouteText)
    ensures
        ({
            let raised = t.base_min_tack_s.below(t.min_tack_s);
            let gated = exists|i: int| 0 <= i < t.gates@.len() && #[trigger] t.gates@[i];
            let start = "name: "@ + t.name@ + "_planned\n"@ + ("acceptance_radius: "@
                + t.acceptance_radius@ + "\n"@) + ("close_hauled_angle_deg: "@
                + t.close_hauled_angle_deg@ + "\n"@) + ("xte_lookahead: "@ + t.xte_lookahead@
                + "\n"@) + ("min_tack_duration_s: "@ + t.min_tack_duration_s@ + "\n"@)
                + "fly_by_radius: 400.0\n"@
                + "# Generated by `--scenario plan` (isochrone planner).\n"@;
            let gates = ("gate_open_along_current: "@ + t.gate_open_along_current@ + "\n"@) + (
            "gate_min_fair_window_s: "@ + t.gate_min_fair_window_s@ + "\n"@);
            let wind = "wind: { direction_deg: "@ + t.wind_direction_deg@ + ", speed: "@
                + t.wind_speed@ + " }\n"@ + "waypoints:\n"@;
            &&& !raised && !gated ==> head_text(t) == start + wind
            &&& raised && !gated ==> head_text(t) == start + raised_note() + wind
            &&& !raised && gated ==> head_text(t) == start + gate_note() + gates + wind
            &&& raised && gated ==> head_text(t) == start + raised_note() + gate_note() + gates
                + wind
        }),
{
    lemma_gates_show(t.gates@);
    let raised = t.base_min_tack_s.below(t.min_tack_s);
    let gated = exists|i: int| 0 <= i < t.gates@.len() && #[trigger] t.gates@[i];
    let start = "name: "@ + t.name@ + "_planned\n"@ + line(
        "acceptance_radius: "@,
        t.acceptance_radius@,
    ) + line("close_hauled_angle_deg: "@, t.close_hauled_angle_deg@) + line(
        "xte_lookahead: "@,
        t.xte_lookahead@,
    ) + line("min_tack_duration_s: "@, t.min_tack_duration_s@) + "fly_by_radius: 400.0\n"@
        + "# Generated by `--scenario plan` (isochrone planner).\n"@;
    let gates = line("gate_open_along_current: "@, t.gate_open_along_current@) + line(
        "gate_min_fair_window_s: "@,
        t.gate_min_fair_window_s@,
    );
    let wind = "wind: { direction_deg: "@ + t.wind_direction_deg@ + ", speed: "@ + t.wind_speed@
        + " }\n"@ + "waypoints:\n"@;
    let note = if raised {
        raised_note()
    } else {
        Seq::empty()
    };
    let gating = if gated {
        gate_note() + gates
    } else {
        Seq::empty()
    };
    assert(gate_note() + line("gate_open_along_current: "@, t.gate_open_along_current@) + line(
        "gate_min_fair_window_s: "@,
        t.gate_min_fair_window_s@,
    ) =~= gate_note() + gates);
    assert(head_text(t) =~= start + note + gating + wind);
    assert(start + Seq::<char>::empty() =~= start);
    assert(start + note + (gate_note() + gates) =~= start + note + gate_note() + gates);
    assert(start + note + Seq::<char>::empty() =~= start + note);
}

} // verus!
