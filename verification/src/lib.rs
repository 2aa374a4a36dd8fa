//! Scheduling and bookkeeping core of a personal project manager: a
//! hierarchy of projects with events, deadlines and dependencies, and a
//! day-by-day allocation of a fixed daily budget of work.

pub mod algo;
pub mod data;
pub mod idset;
pub mod index;
pub mod names;
pub mod store;
pub mod util;
pub mod viewer;
