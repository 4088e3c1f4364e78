//! Error taxonomy.  Per-party failures are recorded in-band as events and
//! never surface here; these variants cover configuration-level failures,
//! which are fatal to a run and raised before any actor starts.

use vstd::prelude::*;

use crate::text::s_append;

verus! {

/// A configuration-level failure: malformed party records, a malformed
/// layout document, an invalid simulation configuration, or an input/output
/// failure reported by the surrounding shell.
#[derive(Debug)]
pub enum AppError {
    CsvParseError(String),
    JsonParseError(String),
    SimulationError(String),
    IoError(String),
}

impl AppError {
    /// Human-readable description, in place of a `Display` implementation.
    pub fn message(&self) -> (r: String)
        ensures
            match self {
                AppError::CsvParseError(m) => r@ == "CSV Parsing Error: "@ + m@,
                AppError::JsonParseError(m) => r@ == "JSON Parsing Error: "@ + m@,
                AppError::SimulationError(m) => r@ == "Simulation Error: "@ + m@,
                AppError::IoError(m) => r@ == "IO Error: "@ + m@,
            },
    {
        match self {
            AppError::CsvParseError(m) => {
                let mut s = String::from_str("CSV Parsing Error: ");
                s_append(&mut s, m);
                s
            },
            AppError::JsonParseError(m) => {
                let mut s = String::from_str("JSON Parsing Error: ");
                s_append(&mut s, m);
                s
            },
            AppError::SimulationError(m) => {
                let mut s = String::from_str("Simulation Error: ");
                s_append(&mut s, m);
                s
            },
            AppError::IoError(m) => {
                let mut s = String::from_str("IO Error: ");
                s_append(&mut s, m);
                s
            },
        }
    }
}

} // verus!
