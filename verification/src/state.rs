//! Layout of the boat's state vector.

use vstd::prelude::*;

verus! {

pub const POS_X: usize = 0;

pub const POS_Y: usize = 1;

pub const POS_Z: usize = 2;

pub const ROLL: usize = 3;

pub const PITCH: usize = 4;

pub const YAW: usize = 5;

pub const VEL_X: usize = 6;

pub const VEL_Y: usize = 7;

pub const VEL_Z: usize = 8;

pub const ROLL_RATE: usize = 9;

pub const PITCH_RATE: usize = 10;

pub const YAW_RATE: usize = 11;

pub const RUDDER_STATE: usize = 12;

pub const SAIL_STATE: usize = 13;

/// Number of entries that describe the hull alone.
pub const N_STATES: usize = 12;

/// Number of entries with the actuators.
pub const N_STATES_ACTUATED: usize = 14;

/// A state holds the place, the attitude, the velocity and the turning, three of each
/// in this order, and behind them the two actuators where they are part of it.
pub proof fn law_state_is_laid_out_in_order()
    ensures
        POS_X == 0,
        POS_Y == 1,
        POS_Z == 2,
        ROLL == 3,
        PITCH == 4,
        YAW == 5,
        VEL_X == 6,
        VEL_Y == 7,
        VEL_Z == 8,
        ROLL_RATE == 9,
        PITCH_RATE == 10,
        YAW_RATE == 11,
        RUDDER_STATE == 12,
        SAIL_STATE == 13,
        N_STATES == 12,
        N_STATES_ACTUATED == 14,
{
}

} // verus!
