//! Verified cores of a set of small puzzle programs: a combination search
//! over an expense report, password-policy validation, a toboggan ride over
//! a tree grid, and a turn-based recitation game.

pub mod memory_game;
pub mod toboggan;
pub mod expense_report;
pub mod password_rules;
