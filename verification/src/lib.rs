//! Splits a query plan into stages that separate processors host, and the wire
//! formats and decisions that go with hosting them.

pub mod codec;
pub mod context;
pub mod dataframe;
pub mod execution;
pub mod flight;
pub mod hosting;
pub mod isolator;
pub mod laws;
pub mod linking;
pub mod max_rows;
pub mod physical;
pub mod plan;
pub mod pre_fetch;
pub mod processor_service;
pub mod pyerr;
pub mod restoring;
pub mod sending;
pub mod sharing;
pub mod stage;
pub mod stage_reader;
pub mod text;
pub mod ticket;
pub mod unmarked;
pub mod wire;
