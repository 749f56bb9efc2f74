//! Composition analysis for Teamfight Tactics match data: which players take
//! up successful compositions before they become widely played.
pub mod analysis;
pub mod api;
pub mod audit;
pub mod dataset;
pub mod demo;
pub mod emerging;
pub mod evaluation;
pub mod families;
pub mod forecast;
pub mod fraction;
pub mod ingestion;
pub mod model;
pub mod scouting;
pub mod sorting;
pub mod storage;
pub mod text;
