//! Rules of a hexagonal-board strategy game: the board, countries, armies,
//! markets, wars and the computer-controlled players.

pub mod army;
pub mod buildings;
pub mod countries;
pub mod errors;
pub mod hex;
pub mod map;
pub mod table;
pub mod movement;
pub mod political;
pub mod util;
pub mod war;
pub mod recruitment;
pub mod random;
pub mod pathfinding;
pub mod march;
pub mod bots;
pub mod round;
pub mod setup;
pub mod saves;
pub mod ui;
