//! A verified core for a seat-allocation simulation: independently arriving
//! parties contend for a fixed pool of seats and consumable accessories
//! (infant seating attachments, accessibility spots).  The library holds the
//! allocation policy, the monitor state with its transition operations, the
//! event log with its total order, and the frame replay generator; a thin
//! unverified shell runs the threads and the I/O around it.

pub mod errors;
pub mod events;
pub mod frames;
pub mod models;
pub mod monitor;
pub mod parser;
pub mod policy;
pub mod text;
