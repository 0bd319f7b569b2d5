//! The rotation state machine of the daily rolling appender.
//!
//! An [`Appender`] value holds everything the rotation decision depends
//! on; the open file handle itself stays with the caller, which performs
//! the file operations the state machine prescribes: on every write it
//! asks [`Appender::should_rollover`], and exactly the caller that wins
//! the race to open the new file calls [`Appender::advance_period`],
//! after which every later check on the same day finds nothing to do
//! (see [`lemma_single_rotation_per_boundary`]).

use vstd::prelude::*;

use crate::date::Date;
use crate::filename::create_daily_log_filename;
use crate::filename::lemma_log_name_round_trip;
use crate::filename::spec_log_filename;

verus! {

/// The rotation state of a daily rolling appender.
#[derive(Debug)]
pub struct Appender {
    /// The rotation period (calendar day) the active file was opened
    /// for.  Updated only by a completed rotation.
    pub current_date: Date,
    /// The retention budget: how many matching log files may remain in
    /// the directory after a retention pass, the active file included.
    pub max_count: usize,
    /// The directory the log files live in.
    pub directory: String,
    /// The literal prefix of every log-file name of this appender.
    pub filename_prefix: String,
}

impl Appender {
    /// A well-formed appender: a real current date and a positive
    /// retention budget.
    pub open spec fn wf(self) -> bool {
        &&& self.current_date.wf()
        &&& self.max_count >= 1
    }

    /// Whether a write arriving on `today` must rotate first.  Only a
    /// strictly later day than the active file's is stale: a clock that
    /// jumps backward never triggers a rotation.
    pub open spec fn needs_rotation(self, today: Date) -> bool {
        self.current_date.code() < today.code()
    }

    /// The state after a completed rotation to `new_date`; nothing but
    /// the current period changes.
    pub open spec fn spec_rotated(self, new_date: Date) -> Appender {
        Appender { current_date: new_date, ..self }
    }

    /// Creates the rotation state for an appender whose first file is
    /// opened for the day `today`.  The caller supplies the current
    /// period (the system clock provides one via [`crate::clock::today`]),
    /// which keeps boundary crossings reproducible.
    pub fn new(max_count: usize, directory: String, filename_prefix: String, today: Date) -> (r:
        Appender)
        requires
            max_count >= 1,
            today.wf(),
        ensures
            r.current_date == today,
            r.max_count == max_count,
            r.directory == directory,
            r.filename_prefix == filename_prefix,
            r.wf(),
    {
        Appender { current_date: today, max_count, directory, filename_prefix }
    }

    /// Decides whether the active file is stale for the day `today`:
    /// returns the new period exactly when the stored period is
    /// strictly older, and nothing otherwise.
    pub fn should_rollover(&self, today: &Date) -> (r: Option<Date>)
        requires
            self.wf(),
            today.wf(),
        ensures
            self.needs_rotation(*today) ==> r == Some(*today),
            !self.needs_rotation(*today) ==> r is None,
    {
        if self.current_date.is_before(today) {
            Some(*today)
        } else {
            None
        }
    }

    /// Installs the new rotation period after the new file was opened
    /// successfully.  On an open failure the caller leaves the state
    /// untouched, so the previous file simply stays active.
    pub fn advance_period(&mut self, new_date: &Date)
        requires
            old(self).wf(),
            new_date.wf(),
            old(self).needs_rotation(*new_date),
        ensures
            *final(self) == old(self).spec_rotated(*new_date),
            final(self).wf(),
    {
        self.current_date = *new_date;
    }

    /// The name of the file the appender writes to in its current
    /// period.
    pub fn current_filename(&self) -> (r: String)
        requires
            self.wf(),
        ensures
            r@ == spec_log_filename(self.filename_prefix@, self.current_date),
    {
        create_daily_log_filename(self.filename_prefix.as_str(), &self.current_date)
    }
}

/// Writing on the same period as construction never rotates: two writes
/// on the day the appender was created for both go to the file it
/// opened first, and no second file is ever asked for.
pub proof fn lemma_no_premature_rotation(a: Appender, today: Date)
    requires
        a.wf(),
        a.current_date == today,
    ensures
        !a.needs_rotation(today),
{
}

/// A clock moving backward never rotates: rotation asks for a strictly
/// newer day, not merely a different one.
pub proof fn lemma_backward_clock_never_rotates(a: Appender, today: Date)
    requires
        a.wf(),
        today.wf(),
        today.code() <= a.current_date.code(),
    ensures
        !a.needs_rotation(today),
{
}

/// Crossing a boundary rotates exactly once.  A day later than the
/// active file's triggers a rotation whose file is the new day's — a
/// different name than the old day's file — and once the winner has
/// advanced the period, every later check on the same day finds nothing
/// to do, so only one file is opened and one retention pass runs per
/// boundary.
pub proof fn lemma_single_rotation_per_boundary(a: Appender, d: Date)
    requires
        a.wf(),
        d.wf(),
        a.needs_rotation(d),
    ensures
        a.spec_rotated(d).wf(),
        a.spec_rotated(d).current_date == d,
        !a.spec_rotated(d).needs_rotation(d),
        spec_log_filename(a.filename_prefix@, d) != spec_log_filename(
            a.filename_prefix@,
            a.current_date,
        ),
{
    lemma_log_name_round_trip(a.filename_prefix@, d.code());
    lemma_log_name_round_trip(a.filename_prefix@, a.current_date.code());
}

} // verus!
