//! Verified game rules and data formats of the Orbit Wars agent and trainer.
//!
//! The floating-point geometry and neural inference stay outside this crate;
//! everything here works on integers and bytes.
pub mod combat;
pub mod text;
pub mod artifact;
pub mod shapes;
pub mod checkpoint;
pub mod schedule;
pub mod reproduction;
pub mod json;
pub mod types;
pub mod events;
pub mod stats;
pub mod map_rng;
pub mod model_file;
pub mod cli;
pub mod decimal;
pub mod paths;
pub mod live_replay;
pub mod telemetry;
pub mod game_state;
pub mod model_list;
pub mod process_output;
pub mod training;
pub mod archive;
pub mod reproduction_slots;
pub mod replay_history;
pub mod replay_chunks;
pub mod keyed_items;
pub mod replay_frame;
pub mod rewards;
pub mod generation_log;
pub mod gameplay;
pub mod evaluation;
pub mod elites;
pub mod replay_games;
pub mod live_compaction;
pub mod top_models;
pub mod fleet_traces;
pub mod crossover;
