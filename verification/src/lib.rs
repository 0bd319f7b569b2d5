//! A daily rolling log-file appender core.
//!
//! The library contains the logic of a log sink that appends bytes to a
//! dated file, switches to a new file when the calendar day changes, and
//! deletes the oldest matching files once more than a configured number of
//! them accumulate in the directory.
//!
//! Everything here is pure with respect to the file system: the rotation
//! decision, the file-name grammar and the retention plan are functions from
//! plain values to plain values, each with a proved contract.  The thin
//! layer that owns the open file handle, reads the directory and deletes
//! files lives outside the library and only executes the plans computed
//! here.

pub mod appender;
pub mod clock;
pub mod date;
pub mod filename;
pub mod retention;
