pub mod board;
pub mod gamestate;
pub mod rules_spec;
pub mod rules;
pub mod history;
pub mod observation;
pub mod decimal;
pub mod dto;
pub mod setup;
pub mod store;
pub mod invariants;
pub mod text;
pub mod geometry;
