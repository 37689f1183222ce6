//! The rules of the two menu screens: the main menu and the game-over
//! screen.
use vstd::prelude::*;

verus! {

/// Which screen the game shows.
#[derive(Clone, Copy, Debug, PartialEq, Eq, Structural)]
pub enum MenuScreen {
    MainMenu,
    GameOver,
    /// Neither of the two menus.
    Elsewhere,
}

/// The keys of the menus that have just been pressed.
#[derive(Clone, Copy, Debug, PartialEq, Eq, Structural)]
pub struct MenuKeys {
    /// `P`: play.
    pub play: bool,
    /// `M`: back to the main menu.
    pub menu: bool,
    /// `Q`: quit.
    pub quit: bool,
}

/// What a menu does in answer to the keys.
#[derive(Clone, Copy, Debug, PartialEq, Eq, Structural)]
pub enum MenuAction {
    /// Nothing changes.
    Stay,
    /// The game starts.
    StartGame,
    /// The main menu is shown.
    ShowMainMenu,
    /// The application ends.
    Exit,
}

/// The answer of a menu to the keys. In the main menu `P` starts the game
/// and, failing that, `Q` ends the application. On the game-over screen `M`
/// leads back to the main menu and, failing that, `Q` ends the
/// application. Elsewhere the keys mean nothing.
pub open spec fn answer(screen: MenuScreen, keys: MenuKeys) -> MenuAction {
    match screen {
        MenuScreen::MainMenu => if keys.play {
            MenuAction::StartGame
        } else if keys.quit {
            MenuAction::Exit
        } else {
            MenuAction::Stay
        },
        MenuScreen::GameOver => if keys.menu {
            MenuAction::ShowMainMenu
        } else if keys.quit {
            MenuAction::Exit
        } else {
            MenuAction::Stay
        },
        MenuScreen::Elsewhere => MenuAction::Stay,
    }
}

/// What the menu on `screen` does when `keys` have just been pressed.
pub fn menu_action(screen: MenuScreen, keys: MenuKeys) -> (action: MenuAction)
    ensures
        action == answer(screen, keys),
{
    match screen {
        MenuScreen::MainMenu => {
            if keys.play {
                MenuAction::StartGame
            } else if keys.quit {
                MenuAction::Exit
            } else {
                MenuAction::Stay
            }
        },
        MenuScreen::GameOver => {
            if keys.menu {
                MenuAction::ShowMainMenu
            } else if keys.quit {
                MenuAction::Exit
            } else {
                MenuAction::Stay
            }
        },
        MenuScreen::Elsewhere => MenuAction::Stay,
    }
}

/// The name of the picture that the menu on `screen` shows, if `screen` is
/// a menu.
pub fn menu_graphic(screen: MenuScreen) -> (tag: Option<&'static str>)
    ensures
        screen == MenuScreen::MainMenu ==> (tag matches Some(name) && name@ == "main_menu"@),
        screen == MenuScreen::GameOver ==> (tag matches Some(name) && name@ == "game_over"@),
        screen == MenuScreen::Elsewhere ==> tag is None,
{
    match screen {
        MenuScreen::MainMenu => Some("main_menu"),
        MenuScreen::GameOver => Some("game_over"),
        MenuScreen::Elsewhere => None,
    }
}

} // verus!
