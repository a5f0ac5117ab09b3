//! Statistics pipeline for a game-server console log.
//!
//! The library tails an append-only log file, extracts player-kill events
//! and player-connection sequences from its lines, and folds them into
//! denormalized per-player, per-weapon and per-pair aggregates.  All logic
//! lives here, verified; file access, the clock, and the mirroring of the
//! aggregates into a relational store belong to the surrounding binary.

use vstd::prelude::*;

pub mod correlator;
pub mod decimal;
pub mod kill_parser;
pub mod stats;
pub mod tailer;
pub mod text;

pub use correlator::Correlator;
pub use correlator::PlayerConnection;
pub use kill_parser::collect_kill_events;
pub use kill_parser::normalize_faction;
pub use kill_parser::parse_kill_line;
pub use kill_parser::KillEvent;
pub use stats::kd_ratio_hundredths;
pub use stats::RecordError;
pub use stats::StatsRepository;
pub use tailer::Tailer;

verus! {

/// Relies on `std::path::Path::exists`: whether the path points at an
/// existing entity on disk.  The answer depends on the file system, so
/// nothing is assumed of it.
#[verifier::external_body]
fn path_exists(path: &str) -> bool {
    std::path::Path::new(path).exists()
}

/// Relies on `format!` to render the missing-path message around the path.
#[verifier::external_body]
fn missing_path_message(path: &str) -> String {
    format!("The path {} does not exist.", path)
}

/// Checks that the watched log file exists before any loop starts: the one
/// condition this pipeline treats as fatal.
pub fn check_env(path: &str) -> Result<(), String> {
    if path_exists(path) {
        Ok(())
    } else {
        Err(missing_path_message(path))
    }
}

} // verus!
