use tui_games::flappy::key_action;
use tui_games::flappy::FlapAction;
use tui_games::flappy::FlapState;
use tui_games::input::restart_key;
use tui_games::input::Key;
use tui_games::input::KeyInput;
use tui_games::input::KeyKind;
use tui_games::rng::lcg_step;
use tui_games::rng::lcg_value;
use tui_games::rng::xorshift32;
use tui_games::subway::spawn_plan;
use tui_games::subway::steer;
use tui_games::subway::SpawnPlan;
use tui_games::subway::LANE_COUNT;
use tui_games::subway::OBSTACLE_COLOR_COUNT;

#[test]
fn linear_congruential_generator_values() {
    assert_eq!(lcg_step(0), 12345);
    assert_eq!(lcg_value(12345), 0);
    assert_eq!(lcg_step(1), 1103527590);
    assert_eq!(lcg_value(1103527590), 16838);
    assert_eq!(lcg_step(u32::MAX), 0u32.wrapping_sub(1103515245).wrapping_add(12345));
}

#[test]
fn xorshift_generator_values() {
    assert_eq!(xorshift32(1), 270369);
    assert_eq!(xorshift32(0xDEAD_BEEF), 1199382711);
    assert_eq!(xorshift32(0), 0);
}

#[test]
fn restart_keys_are_enter_and_space() {
    assert!(restart_key(Key::Enter));
    assert!(restart_key(Key::Char(' ')));
    assert!(!restart_key(Key::Char('r')));
    assert!(!restart_key(Key::Up));
}

#[test]
fn spawns_follow_the_generator() {
    assert_eq!(
        spawn_plan(0),
        SpawnPlan { counter: 2802067423, obstacle_lane: 0, color_index: 3, coin_lane: None }
    );
    assert_eq!(
        spawn_plan(1),
        SpawnPlan { counter: 3295386429, obstacle_lane: 2, color_index: 3, coin_lane: Some(1) }
    );
    assert_eq!(spawn_plan(2).coin_lane, Some(0));
}

#[test]
fn coins_never_share_the_obstacle_lane() {
    let mut counter = 0u32;
    for _ in 0..500 {
        let plan = spawn_plan(counter);
        assert!(plan.obstacle_lane < LANE_COUNT);
        assert!(plan.color_index < OBSTACLE_COLOR_COUNT);
        if let Some(c) = plan.coin_lane {
            assert!(c < LANE_COUNT);
            assert_ne!(c, plan.obstacle_lane);
        }
        counter = plan.counter;
    }
}

#[test]
fn steering_stops_at_the_edges() {
    assert_eq!(steer(1, Key::Left), Some(0));
    assert_eq!(steer(0, Key::Left), Some(0));
    assert_eq!(steer(1, Key::Right), Some(2));
    assert_eq!(steer(2, Key::Right), Some(2));
    assert_eq!(steer(1, Key::Up), None);
}

#[test]
fn flap_keys_in_each_phase() {
    let space = KeyInput::press(Key::Char(' '));
    let up = KeyInput::press(Key::Up);
    let enter = KeyInput::press(Key::Enter);
    let other = KeyInput::press(Key::Char('x'));
    assert_eq!(key_action(FlapState::Idle, space), FlapAction::Start);
    assert_eq!(key_action(FlapState::Idle, up), FlapAction::Start);
    assert_eq!(key_action(FlapState::Idle, other), FlapAction::Ignore);
    assert_eq!(key_action(FlapState::Playing, enter), FlapAction::Flap);
    assert_eq!(key_action(FlapState::Playing, KeyInput::press(Key::Down)), FlapAction::Ignore);
    assert_eq!(key_action(FlapState::Dead, enter), FlapAction::Restart);
    assert_eq!(key_action(FlapState::Dead, up), FlapAction::Ignore);
    let held = KeyInput { key: Key::Up, kind: KeyKind::Repeat };
    assert_eq!(key_action(FlapState::Playing, held), FlapAction::Ignore);
}
