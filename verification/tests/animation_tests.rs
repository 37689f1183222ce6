use my_library::game_menus::{menu_action, menu_graphic, MenuAction, MenuKeys, MenuScreen};
use my_library::{
    cycle_animation, AnimationCycle, AnimationFrame, AnimationOption, CycleOutcome, PerFrameAnimation,
};

fn straight_and_level() -> PerFrameAnimation {
    PerFrameAnimation::new(vec![
        AnimationFrame::new(2, 500, vec![AnimationOption::NextFrame]),
        AnimationFrame::new(3, 500, vec![AnimationOption::GoToFrame(0)]),
    ])
}

fn flapping() -> PerFrameAnimation {
    PerFrameAnimation::new(vec![
        AnimationFrame::new(
            0,
            66,
            vec![AnimationOption::NextFrame, AnimationOption::PlaySound("flap".to_string())],
        ),
        AnimationFrame::new(1, 66, vec![AnimationOption::NextFrame]),
        AnimationFrame::new(2, 66, vec![AnimationOption::NextFrame]),
        AnimationFrame::new(3, 66, vec![AnimationOption::NextFrame]),
        AnimationFrame::new(2, 66, vec![AnimationOption::NextFrame]),
        AnimationFrame::new(
            1,
            66,
            vec![AnimationOption::SwitchToAnimation("Straight and Level".to_string())],
        ),
    ])
}

fn cycle(tag: &str, frame: usize, timer: u128) -> AnimationCycle {
    AnimationCycle { animation_tag: tag.to_string(), current_frame: frame, timer }
}

fn played(sprite_index: Option<usize>, sounds: &[&str]) -> CycleOutcome {
    CycleOutcome::Played { sprite_index, sounds: sounds.iter().map(|s| s.to_string()).collect() }
}

#[test]
fn new_cycle_starts_at_the_first_frame() {
    assert_eq!(AnimationCycle::new("Flapping"), cycle("Flapping", 0, 0));
}

#[test]
fn switch_restarts_only_for_another_animation() {
    let mut animation = cycle("Flapping", 3, 40);
    animation.switch("Flapping");
    assert_eq!(animation, cycle("Flapping", 3, 40));
    animation.switch("Straight and Level");
    assert_eq!(animation, cycle("Straight and Level", 0, 0));
}

#[test]
fn frame_waits_until_its_delay_has_passed() {
    let animation_data = straight_and_level();
    let mut animation = AnimationCycle::new("Straight and Level");
    assert_eq!(cycle_animation(&mut animation, Some(&animation_data), 300), CycleOutcome::Waiting);
    assert_eq!(animation, cycle("Straight and Level", 0, 300));
    assert_eq!(cycle_animation(&mut animation, Some(&animation_data), 200), CycleOutcome::Waiting);
    assert_eq!(animation, cycle("Straight and Level", 0, 500));
    assert_eq!(cycle_animation(&mut animation, Some(&animation_data), 1), played(Some(3), &[]));
    assert_eq!(animation, cycle("Straight and Level", 1, 0));
}

#[test]
fn go_to_frame_jumps() {
    let animation_data = straight_and_level();
    let mut animation = cycle("Straight and Level", 1, 0);
    assert_eq!(cycle_animation(&mut animation, Some(&animation_data), 501), played(Some(2), &[]));
    assert_eq!(animation, cycle("Straight and Level", 0, 0));
}

#[test]
fn actions_run_in_order_and_sounds_are_collected() {
    let animation_data = flapping();
    let mut animation = AnimationCycle::new("Flapping");
    assert_eq!(cycle_animation(&mut animation, Some(&animation_data), 67), played(Some(1), &["flap"]));
    assert_eq!(animation, cycle("Flapping", 1, 0));
}

#[test]
fn switching_animation_restarts_at_frame_zero() {
    let animation_data = flapping();
    let mut animation = cycle("Flapping", 5, 60);
    assert_eq!(cycle_animation(&mut animation, Some(&animation_data), 7), played(Some(0), &[]));
    assert_eq!(animation, cycle("Straight and Level", 0, 0));
}

#[test]
fn frame_without_actions_only_restarts_the_timer() {
    let animation_data = PerFrameAnimation::new(vec![AnimationFrame::new(9, 10, vec![])]);
    let mut animation = cycle("still", 0, 5);
    assert_eq!(cycle_animation(&mut animation, Some(&animation_data), 6), played(None, &[]));
    assert_eq!(animation, cycle("still", 0, 0));
    let idle = PerFrameAnimation::new(vec![AnimationFrame::new(9, 10, vec![AnimationOption::Nothing])]);
    let mut animation = cycle("idle", 0, 5);
    assert_eq!(cycle_animation(&mut animation, Some(&idle), 6), played(Some(9), &[]));
}

#[test]
fn missing_animation_only_advances_the_timer() {
    let mut animation = cycle("unknown", 2, 5);
    assert_eq!(cycle_animation(&mut animation, None, 6), CycleOutcome::Missing);
    assert_eq!(animation, cycle("unknown", 2, 11));
}

#[test]
fn running_off_the_end_is_reported() {
    let animation_data = PerFrameAnimation::new(vec![
        AnimationFrame::new(0, 10, vec![AnimationOption::NextFrame]),
        AnimationFrame::new(
            1,
            10,
            vec![AnimationOption::PlaySound("x".to_string()), AnimationOption::NextFrame],
        ),
    ]);
    let mut animation = cycle("short", 1, 0);
    assert_eq!(cycle_animation(&mut animation, Some(&animation_data), 11), CycleOutcome::OutOfFrames);
    assert_eq!(animation, cycle("short", 1, 11));
    let mut beyond = cycle("short", 2, 0);
    assert_eq!(cycle_animation(&mut beyond, Some(&animation_data), 1), CycleOutcome::OutOfFrames);
    assert_eq!(beyond, cycle("short", 2, 1));
    let jump = PerFrameAnimation::new(vec![AnimationFrame::new(0, 0, vec![AnimationOption::GoToFrame(1)])]);
    let mut animation = cycle("jump", 0, 0);
    assert_eq!(cycle_animation(&mut animation, Some(&jump), 1), CycleOutcome::OutOfFrames);
}

#[test]
fn timer_saturates() {
    let animation_data = PerFrameAnimation::new(vec![AnimationFrame::new(0, u128::MAX, vec![])]);
    let mut animation = cycle("long", 0, u128::MAX - 1);
    assert_eq!(cycle_animation(&mut animation, Some(&animation_data), 5), CycleOutcome::Waiting);
    assert_eq!(animation, cycle("long", 0, u128::MAX));
}

#[test]
fn main_menu_starts_the_game_or_quits() {
    let keys = |play, menu, quit| MenuKeys { play, menu, quit };
    assert_eq!(menu_action(MenuScreen::MainMenu, keys(true, false, false)), MenuAction::StartGame);
    assert_eq!(menu_action(MenuScreen::MainMenu, keys(true, true, true)), MenuAction::StartGame);
    assert_eq!(menu_action(MenuScreen::MainMenu, keys(false, true, true)), MenuAction::Exit);
    assert_eq!(menu_action(MenuScreen::MainMenu, keys(false, true, false)), MenuAction::Stay);
    assert_eq!(menu_action(MenuScreen::GameOver, keys(true, true, true)), MenuAction::ShowMainMenu);
    assert_eq!(menu_action(MenuScreen::GameOver, keys(true, false, true)), MenuAction::Exit);
    assert_eq!(menu_action(MenuScreen::GameOver, keys(true, false, false)), MenuAction::Stay);
    assert_eq!(menu_action(MenuScreen::Elsewhere, keys(true, true, true)), MenuAction::Stay);
    assert_eq!(menu_graphic(MenuScreen::MainMenu), Some("main_menu"));
    assert_eq!(menu_graphic(MenuScreen::GameOver), Some("game_over"));
    assert_eq!(menu_graphic(MenuScreen::Elsewhere), None);
}
