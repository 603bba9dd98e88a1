use crate::map::Position;
use vstd::prelude::*;

verus! {

/// What came of showing a menu of items.
#[derive(PartialEq, Eq, Structural, Copy, Clone, Debug)]
pub enum ItemMenuResult {
    Cancel,
    NoResponse,
    Selected,
}

#[derive(PartialEq, Eq, Structural, Copy, Clone, Debug)]
pub enum GameOverResult {
    NoSelection,
    QuitToMenu,
}

#[derive(PartialEq, Eq, Structural, Copy, Clone, Debug)]
pub enum MainMenuSelection {
    NewGame,
    LoadGame,
    Quit,
}

/// The line of the main menu that is marked, and whether the player has
/// chosen it.
#[derive(PartialEq, Eq, Structural, Copy, Clone, Debug)]
pub enum MainMenuResult {
    NoSelection { selected: MainMenuSelection },
    Selected { selected: MainMenuSelection },
}

/// The keys that the menus tell apart.
#[derive(PartialEq, Eq, Structural, Copy, Clone, Debug)]
pub enum MenuKey {
    Escape,
    Up,
    Down,
    Return,
    Other,
}

/// The line above `selection`, the last line above the first. The line for
/// loading is passed over when there is nothing to load.
pub open spec fn line_above(selection: MainMenuSelection, save_exists: bool) -> MainMenuSelection {
    match selection {
        MainMenuSelection::NewGame => MainMenuSelection::Quit,
        MainMenuSelection::LoadGame => MainMenuSelection::NewGame,
        MainMenuSelection::Quit => if save_exists {
            MainMenuSelection::LoadGame
        } else {
            MainMenuSelection::NewGame
        },
    }
}

/// The line below `selection`, the first line below the last. The line for
/// loading is passed over when there is nothing to load.
pub open spec fn line_below(selection: MainMenuSelection, save_exists: bool) -> MainMenuSelection {
    match selection {
        MainMenuSelection::NewGame => if save_exists {
            MainMenuSelection::LoadGame
        } else {
            MainMenuSelection::Quit
        },
        MainMenuSelection::LoadGame => MainMenuSelection::Quit,
        MainMenuSelection::Quit => MainMenuSelection::NewGame,
    }
}

/// What a key does to the main menu: escape marks the line for quitting,
/// up and down move the mark, return chooses the marked line, and
/// everything else leaves the menu as it is.
pub open spec fn main_menu_after(
    selection: MainMenuSelection,
    key: Option<MenuKey>,
    save_exists: bool,
) -> MainMenuResult {
    match key {
        None => MainMenuResult::NoSelection { selected: selection },
        Some(MenuKey::Escape) => MainMenuResult::NoSelection { selected: MainMenuSelection::Quit },
        Some(MenuKey::Up) => MainMenuResult::NoSelection {
            selected: line_above(selection, save_exists),
        },
        Some(MenuKey::Down) => MainMenuResult::NoSelection {
            selected: line_below(selection, save_exists),
        },
        Some(MenuKey::Return) => MainMenuResult::Selected { selected: selection },
        Some(MenuKey::Other) => MainMenuResult::NoSelection { selected: selection },
    }
}

/// What a key does to the main menu.
pub fn main_menu(selection: MainMenuSelection, key: Option<MenuKey>, save_exists: bool) -> (result:
    MainMenuResult)
    ensures
        result == main_menu_after(selection, key, save_exists),
{
    match key {
        None => MainMenuResult::NoSelection { selected: selection },
        Some(key) => {
            match key {
                MenuKey::Escape => MainMenuResult::NoSelection {
                    selected: MainMenuSelection::Quit,
                },
                MenuKey::Up => {
                    let mut newselection: MainMenuSelection = match selection {
                        MainMenuSelection::NewGame => MainMenuSelection::Quit,
                        MainMenuSelection::LoadGame => MainMenuSelection::NewGame,
                        MainMenuSelection::Quit => MainMenuSelection::LoadGame,
                    };
                    if newselection == MainMenuSelection::LoadGame && !save_exists {
                        newselection = MainMenuSelection::NewGame;
                    }
                    MainMenuResult::NoSelection { selected: newselection }
                },
                MenuKey::Down => {
                    let mut newselection: MainMenuSelection = match selection {
                        MainMenuSelection::NewGame => MainMenuSelection::LoadGame,
                        MainMenuSelection::LoadGame => MainMenuSelection::Quit,
                        MainMenuSelection::Quit => MainMenuSelection::NewGame,
                    };
                    if newselection == MainMenuSelection::LoadGame && !save_exists {
                        newselection = MainMenuSelection::Quit;
                    }
                    MainMenuResult::NoSelection { selected: newselection }
                },
                MenuKey::Return => MainMenuResult::Selected { selected: selection },
                MenuKey::Other => MainMenuResult::NoSelection { selected: selection },
            }
        },
    }
}

/// The screen after the player's death waits for any key.
pub fn game_over(key_pressed: bool) -> (result: GameOverResult)
    ensures
        result == if key_pressed {
            GameOverResult::QuitToMenu
        } else {
            GameOverResult::NoSelection
        },
{
    if key_pressed {
        GameOverResult::QuitToMenu
    } else {
        GameOverResult::NoSelection
    }
}

/// What a key does to a menu of `count` items, each with a letter: escape
/// closes the menu, the letter of an item chooses it, and everything else
/// leaves the menu open. `option` is the place of the key's letter in the
/// alphabet, counted from zero, or a negative number for a key that is no
/// letter.
pub open spec fn item_chosen(escape: bool, option: int, count: int) -> (ItemMenuResult, Option<
    usize,
>) {
    if escape {
        (ItemMenuResult::Cancel, None)
    } else if 0 <= option < count {
        (ItemMenuResult::Selected, Some(option as usize))
    } else {
        (ItemMenuResult::NoResponse, None)
    }
}

/// What a key does to a menu of `count` items; no key leaves it open.
pub fn item_menu(key: Option<(bool, i32)>, count: usize) -> (result: (
    ItemMenuResult,
    Option<usize>,
))
    ensures
        result == match key {
            None => (ItemMenuResult::NoResponse, None),
            Some((escape, option)) => item_chosen(escape, option as int, count as int),
        },
{
    match key {
        None => (ItemMenuResult::NoResponse, None),
        Some((escape, option)) => {
            if escape {
                (ItemMenuResult::Cancel, None)
            } else if option > -1 && (option as u64) < count as u64 {
                (ItemMenuResult::Selected, Some(option as usize))
            } else {
                (ItemMenuResult::NoResponse, None)
            }
        },
    }
}

/// The row on which a menu of `count` items begins, so that it stands in
/// the middle of the screen.
pub fn inventory_top(count: usize) -> (y: i32)
    requires
        count <= 51,
    ensures
        y == 25 - count as int / 2,
{
    (25 - (count / 2)) as i32
}

/// `cell` is one of `cells`.
pub open spec fn has_cell(cells: Seq<Position>, cell: Position) -> bool {
    exists|i: int| 0 <= i < cells.len() && #[trigger] cells[i] == cell
}

/// What the mouse does while the player picks a target. Without a list of
/// cells in view there is nothing to pick and the choice is off. A click on
/// one of the cells picks it; a click elsewhere calls the choice off; no
/// click leaves it open.
pub open spec fn target_chosen(cells: Option<Seq<Position>>, mouse: Position, left_click: bool) -> (
    ItemMenuResult,
    Option<Position>,
) {
    match cells {
        None => (ItemMenuResult::Cancel, None),
        Some(cells) => if !left_click {
            (ItemMenuResult::NoResponse, None)
        } else if has_cell(cells, mouse) {
            (ItemMenuResult::Selected, Some(mouse))
        } else {
            (ItemMenuResult::Cancel, None)
        },
    }
}

/// Whether `cell` is one of `cells`.
pub fn is_available(cells: &Vec<Position>, cell: Position) -> (found: bool)
    ensures
        found == has_cell(cells@, cell),
{
    let mut found: bool = false;
    let mut i: usize = 0;
    while i < cells.len()
        invariant
            i <= cells@.len(),
            found == has_cell(cells@.take(i as int), cell),
        decreases cells@.len() - i,
    {
        let ghost before = cells@.take(i as int);
        if cells[i] == cell {
            found = true;
        }
        i += 1;
        proof {
            let now = cells@.take(i as int);
            if has_cell(before, cell) {
                let k = choose|k: int| 0 <= k < before.len() && #[trigger] before[k] == cell;
                assert(now[k] == cell);
            }
            if cells@[i - 1] == cell {
                assert(now[i - 1] == cell);
            }
            if has_cell(now, cell) {
                let k = choose|k: int| 0 <= k < now.len() && #[trigger] now[k] == cell;
                if k < i - 1 {
                    assert(before[k] == cell);
                }
            }
        }
    }
    assert(cells@.take(cells@.len() as int) =~= cells@);
    found
}

/// What the mouse does while the player picks a target among the cells
/// in view and in range.
pub fn ranged_target(cells: Option<&Vec<Position>>, mouse: Position, left_click: bool) -> (result:
    (ItemMenuResult, Option<Position>))
    ensures
        result == target_chosen(
            match cells {
                Some(list) => Some(list@),
                None => None,
            },
            mouse,
            left_click,
        ),
{
    match cells {
        None => (ItemMenuResult::Cancel, None),
        Some(list) => {
            let valid_target: bool = is_available(list, mouse);
            if valid_target {
                if left_click {
                    return (ItemMenuResult::Selected, Some(mouse));
                }
            } else {
                if left_click {
                    return (ItemMenuResult::Cancel, None);
                }
            }
            (ItemMenuResult::NoResponse, None)
        },
    }
}

} // verus!
