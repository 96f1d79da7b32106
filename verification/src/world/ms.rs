pub mod constraint;
pub mod constraint_collection;
pub mod ms_grid;
pub mod pattern;
pub mod pattern_collection;
pub mod state_choice;
