//! Deduplication of a shell's extended history file.
//!
//! The file is a sequence of entries. Each opens with a header line
//! `: <timestamp>:<flag>;` followed by the first line of a command; the lines
//! that follow without a header of their own continue that command. The
//! library rebuilds the entries, keeps the first occurrence of each distinct
//! command, and writes them back with fresh consecutive timestamps.
use vstd::prelude::*;

pub mod dedup;
pub mod entries;
pub mod header;
pub mod laws;
pub mod output;
pub mod readback;

pub use dedup::{insert_if_unique, unique_commands};
pub use entries::{parse_command, reconstruct_entries, split_lines};
pub use header::HeaderMatcher;
pub use output::{assign_timestamps, format_history, OutputEntry};

use dedup::{dedup, history_commands};
use output::{history_text, stamped};

verus! {

/// Why a run failed.
#[derive(Clone, Copy, Debug, PartialEq, Eq, Structural)]
pub enum HistoryError {
    /// The history file could not be read, or is not valid text.
    SourceUnreadable,
    /// An entry holds no `:<digit>;` separator after its timestamp.
    MalformedEntry,
    /// The clock could not be read, or gives a base from which the
    /// timestamps would not fit in 64 bits.
    ClockUnavailable,
    /// The history file could not be written.
    DestinationUnwritable,
    /// The header rule could not be compiled.
    InvalidPattern,
}

/// The new content of a history file whose content is `text`: its distinct
/// commands, each where it first occurs, stamped `base`, `base + 1`, and so
/// on. Fails where an entry is malformed, or where the last timestamp would
/// not fit in 64 bits.
pub fn deduplicate(m: &HeaderMatcher, text: &[u8], base: u64) -> (r: Result<Vec<u8>, HistoryError>)
    ensures
        match history_commands(text@, m.is_header()) {
            None => r is Err && r->Err_0 == HistoryError::MalformedEntry,
            Some(cs) => if base + dedup(cs).len() <= u64::MAX as int + 1 {
                r is Ok && r->Ok_0@ == history_text(stamped(dedup(cs), base as nat))
            } else {
                r is Err && r->Err_0 == HistoryError::ClockUnavailable
            },
        },
{
    let commands = unique_commands(m, text)?;
    let n = commands.len();
    if n > 0 && (n - 1) as u64 > u64::MAX - base {
        return Err(HistoryError::ClockUnavailable);
    }
    let entries = assign_timestamps(&commands, base);
    Ok(format_history(&entries))
}

} // verus!
