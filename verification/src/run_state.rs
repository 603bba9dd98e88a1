use crate::gui::ItemMenuResult;
use crate::map::Position;
use vstd::prelude::*;

verus! {

/// Where the game stands within a turn.
#[derive(PartialEq, Copy, Clone)]
pub enum RunState {
    AwaitingInput,
    PreRun,
    PlayerTurn,
    MonsterTurn,
    ShowInventory,
    ShowDropItem,
    ShowTargeting { range: i32, item: specs::Entity },
}

/// What the player has decided to do with an item.
#[derive(PartialEq, Copy, Clone)]
pub enum ItemIntent {
    Nothing,
    Use { item: specs::Entity, target: Option<Position> },
    Drop { item: specs::Entity },
}

impl RunState {
    /// In these states the systems of the game run once per tick.
    pub open spec fn systems_run(self) -> bool {
        self is PreRun || self is PlayerTurn || self is MonsterTurn
    }

    /// The state that follows once the systems have run: the player's turn
    /// is followed by the monsters', everything else by waiting for input.
    pub open spec fn after_systems(self) -> RunState {
        match self {
            RunState::PreRun => RunState::AwaitingInput,
            RunState::PlayerTurn => RunState::MonsterTurn,
            RunState::MonsterTurn => RunState::AwaitingInput,
            other => other,
        }
    }

    /// Whether the systems of the game run in this state.
    pub fn runs_systems(&self) -> (runs: bool)
        ensures
            runs == self.systems_run(),
    {
        match self {
            RunState::PreRun => true,
            RunState::PlayerTurn => true,
            RunState::MonsterTurn => true,
            _ => false,
        }
    }

    /// The state that follows once the systems have run.
    pub fn next_after_systems(&self) -> (next: RunState)
        ensures
            next == self.after_systems(),
    {
        match self {
            RunState::PreRun => RunState::AwaitingInput,
            RunState::PlayerTurn => RunState::MonsterTurn,
            RunState::MonsterTurn => RunState::AwaitingInput,
            other => *other,
        }
    }
}

/// What follows when the menu of things to use was shown: a menu called
/// off gives the turn back to the player's keys, an open menu stays, and a
/// chosen item is either used at once, which takes the player's turn, or,
/// if it works at a range, asks for a target first.
pub open spec fn inventory_outcome(
    result: ItemMenuResult,
    item: specs::Entity,
    range: Option<i32>,
) -> (RunState, ItemIntent) {
    match result {
        ItemMenuResult::Cancel => (RunState::AwaitingInput, ItemIntent::Nothing),
        ItemMenuResult::NoResponse => (RunState::ShowInventory, ItemIntent::Nothing),
        ItemMenuResult::Selected => match range {
            Some(range) => (RunState::ShowTargeting { range, item }, ItemIntent::Nothing),
            None => (RunState::PlayerTurn, ItemIntent::Use { item, target: None }),
        },
    }
}

/// What follows when the menu of things to use was shown.
pub fn after_inventory(result: ItemMenuResult, item: specs::Entity, range: Option<i32>) -> (next: (
    RunState,
    ItemIntent,
))
    ensures
        next == inventory_outcome(result, item, range),
{
    match result {
        ItemMenuResult::Cancel => (RunState::AwaitingInput, ItemIntent::Nothing),
        ItemMenuResult::NoResponse => (RunState::ShowInventory, ItemIntent::Nothing),
        ItemMenuResult::Selected => match range {
            Some(range) => (RunState::ShowTargeting { range, item }, ItemIntent::Nothing),
            None => (RunState::PlayerTurn, ItemIntent::Use { item, target: None }),
        },
    }
}

/// What follows when the menu of things to drop was shown: a chosen item
/// is dropped, which takes the player's turn.
pub fn after_drop_menu(result: ItemMenuResult, item: specs::Entity) -> (next: (
    RunState,
    ItemIntent,
))
    ensures
        next == match result {
            ItemMenuResult::Cancel => (RunState::AwaitingInput, ItemIntent::Nothing),
            ItemMenuResult::NoResponse => (RunState::ShowDropItem, ItemIntent::Nothing),
            ItemMenuResult::Selected => (RunState::PlayerTurn, (ItemIntent::Drop { item })),
        },
{
    match result {
        ItemMenuResult::Cancel => (RunState::AwaitingInput, ItemIntent::Nothing),
        ItemMenuResult::NoResponse => (RunState::ShowDropItem, ItemIntent::Nothing),
        ItemMenuResult::Selected => (RunState::PlayerTurn, ItemIntent::Drop { item }),
    }
}

/// What follows when the player was asked for a target: a chosen target
/// has the item used on it, which takes the player's turn.
pub fn after_targeting(
    result: ItemMenuResult,
    target: Option<Position>,
    range: i32,
    item: specs::Entity,
) -> (next: (RunState, ItemIntent))
    ensures
        next == match result {
            ItemMenuResult::Cancel => (RunState::AwaitingInput, ItemIntent::Nothing),
            ItemMenuResult::NoResponse => (
                (RunState::ShowTargeting { range, item }),
                ItemIntent::Nothing,
            ),
            ItemMenuResult::Selected => (RunState::PlayerTurn, (ItemIntent::Use { item, target })),
        },
{
    match result {
        ItemMenuResult::Cancel => (RunState::AwaitingInput, ItemIntent::Nothing),
        ItemMenuResult::NoResponse => (RunState::ShowTargeting { range, item }, ItemIntent::Nothing),
        ItemMenuResult::Selected => (RunState::PlayerTurn, ItemIntent::Use { item, target }),
    }
}

} // verus!
