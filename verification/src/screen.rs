//! The top-level screen state machine, and the decisions that end a level.
//!
//! Each transition is a function from the keys pressed this frame (and, where
//! it matters, the current screen) to the screen to move to, or `None` to
//! stay put. Reading the keyboard and applying the result is the front end's
//! job.

use vstd::prelude::*;

use crate::health::Health;

verus! {

/// The screens the game can be in.
#[derive(Clone, Copy, Debug, Default, PartialEq, Eq, Hash, Structural)]
pub enum AppState {
    /// The title screen. Where the game starts.
    #[default]
    MainMenu,
    /// A level in progress.
    Playing,
    /// A level on hold.
    Paused,
    /// Every factory in the level is destroyed.
    LevelComplete,
    /// The tank is destroyed.
    GameOver,
}

/// The keys that were pressed down this frame, among those the screens
/// respond to.
#[derive(Clone, Copy, Debug, Default, PartialEq, Eq, Structural)]
pub struct JustPressed {
    /// Enter.
    pub enter: bool,
    /// The space bar.
    pub space: bool,
    /// Escape.
    pub escape: bool,
    /// The `Q` key.
    pub quit: bool,
}

/// Leaves the menu once the player asks to start (Enter or Space).
pub fn start_game(keys: JustPressed) -> (r: Option<AppState>)
    ensures
        r == if keys.enter || keys.space {
            Some(AppState::Playing)
        } else {
            None
        },
{
    if keys.enter || keys.space {
        Some(AppState::Playing)
    } else {
        None
    }
}

/// The screen Escape toggles to: playing and paused swap, and every other
/// screen ignores it.
pub open spec fn spec_toggle(state: AppState) -> Option<AppState> {
    match state {
        AppState::Playing => Some(AppState::Paused),
        AppState::Paused => Some(AppState::Playing),
        _ => None,
    }
}

/// Toggles between playing and paused on Escape.
pub fn toggle_pause(keys: JustPressed, state: AppState) -> (r: Option<AppState>)
    ensures
        r == if keys.escape {
            spec_toggle(state)
        } else {
            None
        },
{
    if !keys.escape {
        return None;
    }
    match state {
        AppState::Playing => Some(AppState::Paused),
        AppState::Paused => Some(AppState::Playing),
        AppState::MainMenu | AppState::LevelComplete | AppState::GameOver => None,
    }
}

/// Abandons the current run and returns to the menu on `Q`.
pub fn quit_to_menu(keys: JustPressed) -> (r: Option<AppState>)
    ensures
        r == if keys.quit {
            Some(AppState::MainMenu)
        } else {
            None
        },
{
    if keys.quit {
        Some(AppState::MainMenu)
    } else {
        None
    }
}

/// Leaves the level-cleared screen for the menu on Enter or Space.
pub fn leave_level_complete(keys: JustPressed) -> (r: Option<AppState>)
    ensures
        r == if keys.enter || keys.space {
            Some(AppState::MainMenu)
        } else {
            None
        },
{
    if keys.enter || keys.space {
        Some(AppState::MainMenu)
    } else {
        None
    }
}

/// Leaves the game-over screen for the menu on Enter or Space.
pub fn leave_game_over(keys: JustPressed) -> (r: Option<AppState>)
    ensures
        r == if keys.enter || keys.space {
            Some(AppState::MainMenu)
        } else {
            None
        },
{
    if keys.enter || keys.space {
        Some(AppState::MainMenu)
    } else {
        None
    }
}

/// Pausing and resuming is a round trip: Escape twice from either screen
/// lands back where it started, and Escape never leaves the pair.
pub proof fn lemma_pause_round_trip(state: AppState)
    requires
        state == AppState::Playing || state == AppState::Paused,
    ensures
        spec_toggle(state) is Some,
        spec_toggle(spec_toggle(state)->0) == Some(state),
{
}

/// True if this tick's losses clear the level: at least one factory was
/// destroyed and none is left standing.
///
/// Only the shot that takes out the *last* factory clears the level. A level
/// that never had a factory in it is not cleared by having none.
pub fn level_cleared(healths: &Vec<Health>) -> (r: bool)
    ensures
        r == (healths@.len() > 0 && forall|i: int|
            0 <= i < healths@.len() ==> (#[trigger] healths@[i]).spec_current() <= 0),
{
    let mut standing: usize = 0;
    let mut destroyed: usize = 0;
    let mut i: usize = 0;
    while i < healths.len()
        invariant
            i <= healths@.len(),
            standing + destroyed == i,
            standing == 0 <==> forall|j: int| 0 <= j < i ==> (#[trigger] healths@[j]).spec_current() <= 0,
        decreases healths@.len() - i,
    {
        if healths[i].is_dead() {
            destroyed = destroyed + 1;
        } else {
            standing = standing + 1;
        }
        i = i + 1;
    }
    destroyed > 0 && standing == 0
}

/// The screen this frame's keys move to from `state`, or `None` to stay:
/// each screen listens only for its own keys. The menu starts a game on
/// Enter or Space; Escape pauses and resumes play; `Q` abandons the run, but
/// only from the pause screen, and wins over an Escape pressed in the same
/// frame; the level-cleared and game-over screens return to the menu on
/// Enter or Space.
pub fn transition(state: AppState, keys: JustPressed) -> (r: Option<AppState>)
    ensures
        r == (match state {
            AppState::MainMenu => if keys.enter || keys.space {
                Some(AppState::Playing)
            } else {
                None
            },
            AppState::Playing => if keys.escape {
                Some(AppState::Paused)
            } else {
                None
            },
            AppState::Paused => if keys.quit {
                Some(AppState::MainMenu)
            } else if keys.escape {
                Some(AppState::Playing)
            } else {
                None
            },
            AppState::LevelComplete | AppState::GameOver => if keys.enter || keys.space {
                Some(AppState::MainMenu)
            } else {
                None
            },
        }),
{
    match state {
        AppState::MainMenu => start_game(keys),
        AppState::Playing => toggle_pause(keys, state),
        AppState::Paused => match quit_to_menu(keys) {
            Some(next) => Some(next),
            None => toggle_pause(keys, state),
        },
        AppState::LevelComplete => leave_level_complete(keys),
        AppState::GameOver => leave_game_over(keys),
    }
}

} // verus!
