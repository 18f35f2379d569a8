//! Subway Surfer: the lane the runner is in and what each spawn puts on the
//! track. Positions and speeds are fractional and stay with the front end;
//! the decisions made on whole numbers are here.
use vstd::prelude::*;
use crate::input::Key;
use crate::rng::lcg_step;
use crate::rng::lcg_value;

verus! {

/// Number of lanes on the track.
pub const LANE_COUNT: usize = 3;

/// Number of colours an obstacle can be drawn in.
pub const OBSTACLE_COLOR_COUNT: usize = 5;

/// Points for a collected coin.
pub const COIN_SCORE: u32 = 10;

/// What one spawn places on the track, and the generator state after it.
#[derive(Clone, Copy, PartialEq, Eq, Debug, Structural)]
pub struct SpawnPlan {
    pub counter: u32,
    pub obstacle_lane: usize,
    pub color_index: usize,
    pub coin_lane: Option<usize>,
}

/// The spawn drawn from generator state `counter`: an obstacle lane, an
/// obstacle colour, and on one draw in three a coin, moved to the next lane
/// when it would share the obstacle's.
pub open spec fn planned_spawn(counter: u32) -> SpawnPlan {
    let s1 = crate::rng::lcg_next_state(counter);
    let s2 = crate::rng::lcg_next_state(s1);
    let s3 = crate::rng::lcg_next_state(s2);
    let lane = (crate::rng::lcg_output(s1) % 3) as usize;
    let color = (crate::rng::lcg_output(s2) % 5) as usize;
    if crate::rng::lcg_output(s3) % 3 == 0 {
        let s4 = crate::rng::lcg_next_state(s3);
        let raw = (crate::rng::lcg_output(s4) % 3) as usize;
        let coin = if raw == lane {
            ((raw + 1) % 3) as usize
        } else {
            raw
        };
        SpawnPlan { counter: s4, obstacle_lane: lane, color_index: color, coin_lane: Some(coin) }
    } else {
        SpawnPlan { counter: s3, obstacle_lane: lane, color_index: color, coin_lane: None }
    }
}

/// Draws the next spawn from the generator state `counter`.
pub fn spawn_plan(counter: u32) -> (p: SpawnPlan)
    ensures
        p == planned_spawn(counter),
        p.obstacle_lane < LANE_COUNT,
        p.color_index < OBSTACLE_COLOR_COUNT,
        p.coin_lane matches Some(c) ==> c < LANE_COUNT && c != p.obstacle_lane,
{
    let s1 = lcg_step(counter);
    let lane = (lcg_value(s1) % 3) as usize;
    let s2 = lcg_step(s1);
    let color = (lcg_value(s2) % 5) as usize;
    let s3 = lcg_step(s2);
    if lcg_value(s3) % 3 == 0 {
        let s4 = lcg_step(s3);
        let mut coin = (lcg_value(s4) % 3) as usize;
        if coin == lane {
            coin = (coin + 1) % LANE_COUNT;
        }
        SpawnPlan { counter: s4, obstacle_lane: lane, color_index: color, coin_lane: Some(coin) }
    } else {
        SpawnPlan { counter: s3, obstacle_lane: lane, color_index: color, coin_lane: None }
    }
}

/// The lane after a steering key: Left and Right move one lane and stop at
/// the edges of the track; any other key does not steer (`None`).
pub open spec fn steered(lane: usize, key: Key) -> Option<usize> {
    match key {
        Key::Left => Some(if lane > 0 { (lane - 1) as usize } else { lane }),
        Key::Right => Some(if lane + 1 < LANE_COUNT { (lane + 1) as usize } else { lane }),
        _ => None,
    }
}

/// Applies a steering key to the runner's lane.
pub fn steer(lane: usize, key: Key) -> (r: Option<usize>)
    requires
        lane < LANE_COUNT,
    ensures
        r == steered(lane, key),
        r matches Some(l) ==> l < LANE_COUNT,
{
    match key {
        Key::Left => {
            if lane > 0 {
                Some(lane - 1)
            } else {
                Some(lane)
            }
        },
        Key::Right => {
            if lane < LANE_COUNT - 1 {
                Some(lane + 1)
            } else {
                Some(lane)
            }
        },
        _ => None,
    }
}

/// Left and Right move the runner exactly one lane that way, except at the
/// edge of the track, where it stays; so Right undoes Left away from the
/// left edge and Left undoes Right away from the right edge, and no other
/// key steers.
pub proof fn lemma_steering_moves_one_lane(lane: usize, key: Key)
    requires
        lane < LANE_COUNT,
    ensures
        lane > 0 ==> steered(lane, Key::Left) == Some((lane - 1) as usize),
        lane == 0 ==> steered(lane, Key::Left) == Some(0usize),
        lane + 1 < LANE_COUNT ==> steered(lane, Key::Right) == Some((lane + 1) as usize),
        lane + 1 == LANE_COUNT ==> steered(lane, Key::Right) == Some(lane),
        lane > 0 ==> steered(steered(lane, Key::Left)->0, Key::Right) == Some(lane),
        lane + 1 < LANE_COUNT ==> steered(steered(lane, Key::Right)->0, Key::Left) == Some(lane),
        key != Key::Left && key != Key::Right ==> steered(lane, key) is None,
{
}

} // verus!
