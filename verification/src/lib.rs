//! Rebase stacked worktree branches in dependency order.

pub mod assembly;
pub mod branch_map;
pub mod checks;
pub mod command;
pub mod conduct;
pub mod course;
pub mod failure;
pub mod families;
pub mod fork_points;
pub mod generations;
pub mod ground;
pub mod history;
pub mod inquiry;
pub mod layout;
pub mod ledger;
pub mod likeness;
pub mod moves;
pub mod nearness;
pub mod notice;
pub mod options;
pub mod order;
pub mod plan;
pub mod preview;
pub mod progress;
pub mod pushes;
pub mod reading;
pub mod repository;
pub mod round_trip;
pub mod sequel;
pub mod session;
pub mod stack_file;
pub mod state;
pub mod style;
pub mod survey;
pub mod telling;
pub mod text;
pub mod tree;
pub mod turns;
pub mod wiring;
pub mod wording;
