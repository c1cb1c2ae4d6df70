//! The run of a simulation: control and integration in turn, and what is
//! recorded of them; and the rules of the dynamics that are not arithmetic.

use vstd::prelude::*;

use crate::helm::QUARTER_TURN;
use crate::scalar::Scalar;

verus! {

/// Pattern of a thirtieth of half a turn: the rudder turns no faster, in
/// radians per second.
pub const MAX_RUDDER_SPEED: u64 = 0x3fba_cee9_f37b_ebd5;

/// Pattern of a tenth of half a turn: the sail winch turns no faster, in
/// radians per second.
pub const MAX_SAIL_SPEED: u64 = 0x3fd4_1b2f_769c_f0e0;

/// What the control asks for in one step.
#[derive(Clone, Copy, PartialEq, Eq, Structural, Debug)]
pub struct Order {
    pub rudder: Scalar,
    pub sail: Scalar,
    pub ref_heading: Scalar,
}

/// What is recorded of a run: a state and its time before and after each step,
/// and the orders of each step.
#[derive(Debug)]
pub struct SimResult<S> {
    pub t: Vec<Scalar>,
    pub x: Vec<S>,
    pub rudder: Vec<Scalar>,
    pub sail: Vec<Scalar>,
    pub ref_heading: Vec<Scalar>,
}

impl<S> SimResult<S> {
    /// Number of steps taken.
    pub open spec fn steps(&self) -> nat {
        self.rudder@.len()
    }

    /// There is one state more than orders.
    pub open spec fn inv(&self) -> bool {
        &&& self.t@.len() == self.rudder@.len() + 1
        &&& self.x@.len() == self.rudder@.len() + 1
        &&& self.sail@.len() == self.rudder@.len()
        &&& self.ref_heading@.len() == self.rudder@.len()
    }

    /// The order of step `k`.
    pub open spec fn order(&self, k: int) -> Order {
        Order { rudder: self.rudder@[k], sail: self.sail@[k], ref_heading: self.ref_heading@[k] }
    }
}

/// Step `k` of a run follows the rules: the control gave its order in the state
/// before it, and the dynamics led from there to the state behind it.
pub open spec fn step_ran<
    S,
    C: Fn(Scalar, S) -> Option<Order>,
    I: Fn(Scalar, S, Order) -> Result<S, String>,
    A: Fn(Scalar) -> Scalar,
>(r: SimResult<S>, control: C, integrate: I, advance: A, k: int) -> bool {
    &&& call_ensures(control, (r.t@[k], r.x@[k]), Some(r.order(k)))
    &&& call_ensures(integrate, (r.t@[k], r.x@[k], r.order(k)), Ok(r.x@[k + 1]))
    &&& call_ensures(advance, (r.t@[k],), r.t@[k + 1])
}

/// A run from `x0`, every step of which follows the rules.
pub open spec fn run_so_far<
    S,
    C: Fn(Scalar, S) -> Option<Order>,
    I: Fn(Scalar, S, Order) -> Result<S, String>,
    A: Fn(Scalar) -> Scalar,
>(r: SimResult<S>, x0: S, control: C, integrate: I, advance: A) -> bool {
    &&& r.inv()
    &&& r.t@[0] == (Scalar { bits: 0 })
    &&& r.x@[0] == x0
    &&& forall|k: int| 0 <= k < r.steps() ==> #[trigger] step_ran(r, control, integrate, advance, k)
}

/// A run from `x0` that the dynamics broke off with the error `e` after the
/// order `o`.
pub open spec fn broke_off<
    S,
    C: Fn(Scalar, S) -> Option<Order>,
    I: Fn(Scalar, S, Order) -> Result<S, String>,
    A: Fn(Scalar) -> Scalar,
>(r: SimResult<S>, x0: S, control: C, integrate: I, advance: A, o: Order, e: String) -> bool {
    &&& run_so_far(r, x0, control, integrate, advance)
    &&& call_ensures(control, (r.t@.last(), r.x@.last()), Some(o))
    &&& call_ensures(integrate, (r.t@.last(), r.x@.last(), o), Err(e))
}

/// Run a simulation of at most `n_steps` steps. `control` gives the order in a
/// state, or nothing once the mission is over; `integrate` leads from a state
/// to the next one; `advance` moves the clock on.
pub fn simulate<
    S: Copy,
    C: Fn(Scalar, S) -> Option<Order>,
    I: Fn(Scalar, S, Order) -> Result<S, String>,
    A: Fn(Scalar) -> Scalar,
>(x0: S, n_steps: usize, control: &C, integrate: &I, advance: &A) -> (r: Result<
    SimResult<S>,
    String,
>)
    requires
        forall|t: Scalar, x: S| call_requires(*control, (t, x)),
        forall|t: Scalar, x: S, o: Order| call_requires(*integrate, (t, x, o)),
        forall|t: Scalar| call_requires(*advance, (t,)),
    ensures
        r is Ok ==> {
            let run = r->Ok_0;
            &&& run_so_far(run, x0, *control, *integrate, *advance)
            &&& run.steps() <= n_steps
            &&& run.steps() < n_steps ==> call_ensures(
                *control,
                (run.t@.last(), run.x@.last()),
                None,
            )
        },
        r is Err ==> exists|run: SimResult<S>, o: Order| #[trigger]
            broke_off(run, x0, *control, *integrate, *advance, o, r->Err_0) && run.steps()
                < n_steps,
{
    let mut run: SimResult<S> = SimResult {
        t: Vec::new(),
        x: Vec::new(),
        rudder: Vec::new(),
        sail: Vec::new(),
        ref_heading: Vec::new(),
    };
    let mut t: Scalar = Scalar::zero();
    let mut x: S = x0;
    run.t.push(t);
    run.x.push(x);
    let mut i: usize = 0;
    while i < n_steps
        invariant
            i <= n_steps,
            forall|t: Scalar, x: S| call_requires(*control, (t, x)),
            forall|t: Scalar, x: S, o: Order| call_requires(*integrate, (t, x, o)),
            forall|t: Scalar| call_requires(*advance, (t,)),
            run_so_far(run, x0, *control, *integrate, *advance),
            run.steps() == i,
            t == run.t@.last(),
            x == run.x@.last(),
        decreases n_steps - i,
    {
        let order: Order = match control(t, x) {
            Some(o) => o,
            None => {
                return Ok(run);
            },
        };
        let next: S = match integrate(t, x, order) {
            Ok(y) => y,
            Err(e) => {
                let failure: Result<SimResult<S>, String> = Err(e);
                assert(broke_off(run, x0, *control, *integrate, *advance, order, failure->Err_0));
                return failure;
            },
        };
        let ghost before = run;
        let later: Scalar = advance(t);
        run.rudder.push(order.rudder);
        run.sail.push(order.sail);
        run.ref_heading.push(order.ref_heading);
        run.t.push(later);
        run.x.push(next);
        proof {
            assert forall|k: int| 0 <= k < run.steps() implies #[trigger] step_ran(
                run,
                *control,
                *integrate,
                *advance,
                k,
            ) by {
                if k < before.steps() {
                    assert(step_ran(before, *control, *integrate, *advance, k));
                    assert(run.order(k) == before.order(k));
                    assert(run.t@[k] == before.t@[k] && run.t@[k + 1] == before.t@[k + 1]);
                    assert(run.x@[k] == before.x@[k] && run.x@[k + 1] == before.x@[k + 1]);
                } else {
                    assert(run.order(k) == order);
                    assert(run.t@[k] == t && run.x@[k] == x);
                    assert(run.t@[k + 1] == later && run.x@[k + 1] == next);
                }
            }
        }
        t = later;
        x = next;
        i = i + 1;
    }
    Ok(run)
}

/// The actuator angles that act on the boat: where the actuators have their own
/// dynamics those in the state, else those asked for.
pub fn applied_angles(
    actor_dynamics: bool,
    state: (Scalar, Scalar),
    asked: (Scalar, Scalar),
) -> (r: (Scalar, Scalar))
    ensures
        r == (if actor_dynamics {
            state
        } else {
            asked
        }),
{
    if actor_dynamics {
        state
    } else {
        asked
    }
}

/// How fast the actuators move, rudder and sail: at the rate wanted, within
/// what they can do, and not at all where they have no dynamics of their own.
pub fn actuator_rates(actor_dynamics: bool, rudder: Scalar, sail: Scalar) -> (r: (Scalar, Scalar))
    ensures
        !actor_dynamics ==> r == (Scalar { bits: 0 }, Scalar { bits: 0 }),
        actor_dynamics ==> r.0 == rudder.limited(
            (Scalar { bits: MAX_RUDDER_SPEED }).flipped(),
            Scalar { bits: MAX_RUDDER_SPEED },
        ),
        actor_dynamics ==> r.1 == sail.limited(
            (Scalar { bits: MAX_SAIL_SPEED }).flipped(),
            Scalar { bits: MAX_SAIL_SPEED },
        ),
{
    if actor_dynamics {
        let fast: Scalar = Scalar { bits: MAX_RUDDER_SPEED };
        let slow: Scalar = Scalar { bits: MAX_SAIL_SPEED };
        (rudder.clamp(fast.neg(), fast), sail.clamp(slow.neg(), slow))
    } else {
        (Scalar::zero(), Scalar::zero())
    }
}

/// How far an actuator moves in one step: as far as wanted, within its reach.
pub fn slew(wanted: Scalar, reach: Scalar) -> (r: Scalar)
    requires
        (Scalar { bits: 0 }).at_most(reach),
    ensures
        r == wanted.limited(reach.flipped(), reach),
{
    wanted.clamp(reach.neg(), reach)
}

/// An actuator never moves further in one step than its reach.
pub proof fn law_slew_stays_in_reach(wanted: Scalar, reach: Scalar)
    requires
        !wanted.nan(),
        (Scalar { bits: 0 }).at_most(reach),
    ensures
        wanted.limited(reach.flipped(), reach).unsigned().at_most(reach.unsigned()),
{
}

/// An angle of attack folded to the front half turn. `turned` is the angle
/// turned by half a turn toward zero.
pub fn effective_angle(aoa: Scalar, turned: Scalar) -> (r: Scalar)
    ensures
        r == (if (Scalar { bits: QUARTER_TURN }).below(aoa.unsigned()) {
            turned
        } else {
            aoa
        }),
{
    if aoa.abs().gt(Scalar { bits: QUARTER_TURN }) {
        turned
    } else {
        aoa
    }
}

/// The angle of attack of the sail: none where it would lie on the other side
/// of the sail, which then flaps. `product` is the product of both angles.
pub fn sail_attack(aoa: Scalar, product: Scalar) -> (r: Scalar)
    ensures
        r == (if product.below(Scalar { bits: 0 }) {
            Scalar { bits: 0 }
        } else {
            aoa
        }),
{
    if product.lt(Scalar::zero()) {
        Scalar::zero()
    } else {
        aoa
    }
}

/// Each step of a run is driven by the control and the dynamics: the control gave
/// the recorded order in the recorded state, the dynamics led from there to the
/// next recorded state, and the clock moved on. The run starts at zero in the state
/// given, and there is one state more than orders.
pub proof fn law_run_is_driven_step_by_step<
    S,
    C: Fn(Scalar, S) -> Option<Order>,
    I: Fn(Scalar, S, Order) -> Result<S, String>,
    A: Fn(Scalar) -> Scalar,
>(r: SimResult<S>, x0: S, control: C, integrate: I, advance: A, k: int)
    requires
        run_so_far(r, x0, control, integrate, advance),
        0 <= k < r.rudder@.len(),
    ensures
        r.t@.len() == r.rudder@.len() + 1,
        r.x@.len() == r.rudder@.len() + 1,
        r.sail@.len() == r.rudder@.len(),
        r.ref_heading@.len() == r.rudder@.len(),
        r.t@[0] == (Scalar { bits: 0 }),
        r.x@[0] == x0,
        ({
            let o = Order {
                rudder: r.rudder@[k],
                sail: r.sail@[k],
                ref_heading: r.ref_heading@[k],
            };
            &&& call_ensures(control, (r.t@[k], r.x@[k]), Some(o))
            &&& call_ensures(integrate, (r.t@[k], r.x@[k], o), Ok(r.x@[k + 1]))
            &&& call_ensures(advance, (r.t@[k],), r.t@[k + 1])
        }),
{
    assert(step_ran(r, control, integrate, advance, k));
}

/// An actuator moves as far as is wanted within its reach, and by its reach toward
/// the side that is wanted beyond it.
pub proof fn law_slew_follows_what_is_wanted(wanted: Scalar, reach: Scalar)
    requires
        !wanted.nan(),
        (Scalar { bits: 0 }).at_most(reach),
    ensures
        ({
            let r = wanted.limited(reach.flipped(), reach);
            &&& wanted.unsigned().at_most(reach.unsigned()) ==> r == wanted
            &&& reach.below(wanted) ==> r == reach
            &&& wanted.below(reach.flipped()) ==> r == reach.flipped()
        }),
{
}

/// The rudder turns by 6 degrees a second at most, and the sail by 18.
pub proof fn law_actuators_are_as_fast_as_built()
    ensures
        MAX_RUDDER_SPEED == 0x3fba_cee9_f37b_ebd5,
        MAX_SAIL_SPEED == 0x3fd4_1b2f_769c_f0e0,
{
}

} // verus!
