//! Flappy Bird: what a key does in each phase of a round. The flight itself
//! (gravity, pipe positions) is fractional and stays with the front end.
use vstd::prelude::*;
use crate::input::Key;
use crate::input::KeyInput;
use crate::input::KeyKind;

verus! {

/// The phase of a round.
#[derive(Clone, Copy, PartialEq, Eq, Debug, Structural)]
pub enum FlapState {
    Idle,
    Playing,
    Dead,
}

/// What the front end does with a key.
#[derive(Clone, Copy, PartialEq, Eq, Debug, Structural)]
pub enum FlapAction {
    /// The key is not consumed.
    Ignore,
    /// Start a new round.
    Restart,
    /// Leave the start screen and give the first flap.
    Start,
    /// Flap.
    Flap,
}

/// Up, Space and Enter flap.
pub open spec fn is_flap_key(k: Key) -> bool {
    k == Key::Up || k == Key::Char(' ') || k == Key::Enter
}

/// The action a key event calls for in phase `state`.
pub open spec fn flap_action(state: FlapState, key: KeyInput) -> FlapAction {
    if key.kind != KeyKind::Press {
        FlapAction::Ignore
    } else {
        match state {
            FlapState::Dead => if crate::input::is_restart_key(key.key) {
                FlapAction::Restart
            } else {
                FlapAction::Ignore
            },
            FlapState::Idle => if is_flap_key(key.key) {
                FlapAction::Start
            } else {
                FlapAction::Ignore
            },
            FlapState::Playing => if is_flap_key(key.key) {
                FlapAction::Flap
            } else {
                FlapAction::Ignore
            },
        }
    }
}

/// Decides what a key event does in phase `state`.
pub fn key_action(state: FlapState, key: KeyInput) -> (a: FlapAction)
    ensures
        a == flap_action(state, key),
{
    if key.kind != KeyKind::Press {
        return FlapAction::Ignore;
    }
    let flap_key = match key.key {
        Key::Up | Key::Enter => true,
        Key::Char(c) => c == ' ',
        _ => false,
    };
    match state {
        FlapState::Dead => {
            if crate::input::restart_key(key.key) {
                FlapAction::Restart
            } else {
                FlapAction::Ignore
            }
        },
        FlapState::Idle => {
            if flap_key {
                FlapAction::Start
            } else {
                FlapAction::Ignore
            }
        },
        FlapState::Playing => {
            if flap_key {
                FlapAction::Flap
            } else {
                FlapAction::Ignore
            }
        },
    }
}

/// Up, Space and Enter all flap: pressing any of them starts a round from
/// the start screen and flaps in flight, and a key flaps in flight exactly
/// when it starts a round; once the bird is down, Space and Enter start over
/// while Up does not; held or released keys do nothing in any phase.
pub proof fn lemma_flap_keys(key: KeyInput, state: FlapState)
    ensures
        key.kind == KeyKind::Press && (key.key == Key::Up || key.key == Key::Char(' ') || key.key
            == Key::Enter) ==> flap_action(FlapState::Idle, key) == FlapAction::Start
            && flap_action(FlapState::Playing, key) == FlapAction::Flap,
        (flap_action(FlapState::Idle, key) == FlapAction::Start) <==> (flap_action(
            FlapState::Playing,
            key,
        ) == FlapAction::Flap),
        key.kind == KeyKind::Press && (key.key == Key::Char(' ') || key.key == Key::Enter)
            ==> flap_action(FlapState::Dead, key) == FlapAction::Restart,
        key.kind == KeyKind::Press && key.key == Key::Up ==> flap_action(FlapState::Dead, key)
            == FlapAction::Ignore,
        key.kind != KeyKind::Press ==> flap_action(state, key) == FlapAction::Ignore,
        flap_action(FlapState::Idle, key) != FlapAction::Flap && flap_action(FlapState::Idle, key)
            != FlapAction::Restart,
        flap_action(FlapState::Playing, key) != FlapAction::Start && flap_action(
            FlapState::Playing,
            key,
        ) != FlapAction::Restart,
        flap_action(FlapState::Dead, key) != FlapAction::Start && flap_action(FlapState::Dead, key)
            != FlapAction::Flap,
{
}

} // verus!
