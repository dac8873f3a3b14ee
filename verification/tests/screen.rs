use dinochrome::health::Health;
use dinochrome::screen::{
    AppState, JustPressed, transition, leave_game_over, leave_level_complete, level_cleared, quit_to_menu,
    start_game, toggle_pause,
};

fn keys(enter: bool, space: bool, escape: bool, quit: bool) -> JustPressed {
    JustPressed {
        enter,
        space,
        escape,
        quit,
    }
}

#[test]
fn the_menu_starts_on_enter_or_space_and_nothing_else() {
    assert_eq!(start_game(keys(true, false, false, false)), Some(AppState::Playing));
    assert_eq!(start_game(keys(false, true, false, false)), Some(AppState::Playing));
    assert_eq!(start_game(keys(false, false, true, true)), None);
    assert_eq!(AppState::default(), AppState::MainMenu);
}

#[test]
fn escape_pauses_and_resumes_and_is_ignored_elsewhere() {
    let escape = keys(false, false, true, false);
    assert_eq!(toggle_pause(escape, AppState::Playing), Some(AppState::Paused));
    assert_eq!(toggle_pause(escape, AppState::Paused), Some(AppState::Playing));
    for other in [AppState::MainMenu, AppState::LevelComplete, AppState::GameOver] {
        assert_eq!(toggle_pause(escape, other), None);
    }
    assert_eq!(toggle_pause(keys(true, true, false, true), AppState::Playing), None);
}

#[test]
fn quitting_and_leaving_the_end_screens_return_to_the_menu() {
    assert_eq!(quit_to_menu(keys(false, false, false, true)), Some(AppState::MainMenu));
    assert_eq!(quit_to_menu(keys(true, true, true, false)), None);
    assert_eq!(leave_level_complete(keys(false, true, false, false)), Some(AppState::MainMenu));
    assert_eq!(leave_level_complete(keys(false, false, true, true)), None);
    assert_eq!(leave_game_over(keys(true, false, false, false)), Some(AppState::MainMenu));
    assert_eq!(leave_game_over(keys(false, false, false, true)), None);
}

#[test]
fn the_last_factory_down_clears_the_level() {
    let mut factories = vec![Health::new(100), Health::new(100)];
    assert!(!level_cleared(&factories));
    factories[0].damage(100);
    assert!(!level_cleared(&factories), "one is still standing");
    factories[1].damage(120);
    assert!(level_cleared(&factories));
    assert!(!level_cleared(&Vec::new()), "a level with no factory is not cleared");
}

#[test]
fn each_screen_listens_only_for_its_own_keys() {
    let none = JustPressed::default();
    let enter = JustPressed { enter: true, ..none };
    let escape = JustPressed { escape: true, ..none };
    let quit = JustPressed { quit: true, ..none };
    assert_eq!(transition(AppState::MainMenu, enter), Some(AppState::Playing));
    assert_eq!(transition(AppState::MainMenu, escape), None);
    assert_eq!(transition(AppState::Playing, escape), Some(AppState::Paused));
    assert_eq!(transition(AppState::Playing, quit), None);
    assert_eq!(transition(AppState::Playing, enter), None);
    assert_eq!(transition(AppState::Paused, escape), Some(AppState::Playing));
    assert_eq!(transition(AppState::Paused, quit), Some(AppState::MainMenu));
    assert_eq!(transition(AppState::Paused, JustPressed { quit: true, escape: true, ..none }), Some(AppState::MainMenu));
    assert_eq!(transition(AppState::LevelComplete, enter), Some(AppState::MainMenu));
    assert_eq!(transition(AppState::GameOver, quit), None);
    assert_eq!(transition(AppState::GameOver, JustPressed { space: true, ..none }), Some(AppState::MainMenu));
    assert_eq!(transition(AppState::Paused, none), None);
}
