pub mod dice;
pub mod flood;
pub mod gui;
pub mod map;
pub mod map_builders;
pub mod random_table;
pub mod reach;
pub mod rect;
pub mod run_state;
pub mod spawner;
