//! Two-player endgame solver for crossword-tile placement games.
//!
//! The bag is empty and both racks are known, so the game is one of perfect
//! information. The solver interns positions as canonical placement chains,
//! orders candidate plays with a cheap blocking heuristic and searches with
//! iterative-deepening negamax over a transposition table. Move generation is
//! left to the caller: the search is a resumable machine that asks for the
//! plays of a position and is handed them back.

pub mod blocking;
pub mod children;
pub mod expand;
pub mod game_config;
pub mod json;
pub mod move_cache;
pub mod ordering;
pub mod placement;
pub mod play;
pub mod position;
pub mod report;
pub mod search;
pub mod solver;
pub mod state_table;
pub mod transposition;
