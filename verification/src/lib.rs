//! Core of an interactive coding-assistant CLI: a persisted, multi-turn
//! conversation with workspace context tracking, and an incremental
//! segmenter that decodes a streamed model response into typed segments.
pub mod command;
pub mod markers;
pub mod model;
pub mod query;
pub mod segmenter;
