//! The synchronization controller: the state machine that decides, from the
//! counters the fetches return, whether another incremental fetch is owed or
//! the run is finished.
//!
//! A run is one full-snapshot fetch, then incremental fetches parameterized
//! by the last observed sequence counter, repeated until a fetch reports no
//! forward progress — the same counter again, or the reserved undefined
//! sentinel — at which point the run is done.  Any fetch failure ends the
//! run in its failed state.

use vstd::prelude::*;

verus! {

/// Where a synchronization run stands.
#[derive(Clone, Copy, Debug, PartialEq, Eq, Structural)]
pub enum SyncState {
    /// Nothing issued yet.
    Initial,
    /// The full-snapshot fetch is owed or in flight.
    FullSync,
    /// Incremental catch-up: the next fetch asks for changes since
    /// `last_sequence`.
    IncrementalSync { last_sequence: u64 },
    /// Terminal: the run observed no forward progress and is complete.
    Done,
    /// Terminal: a protocol-integrity or transport failure ended the run.
    Failed,
}

/// The network operation the run needs next.
#[derive(Clone, Copy, Debug, PartialEq, Eq, Structural)]
pub enum FetchRequest {
    /// Fetch the full snapshot.
    Full,
    /// Fetch the changes since sequence `from`.
    Incremental { from: u64 },
}

/// How the controller moves on a successfully decoded counter: the full
/// snapshot's counter starts the incremental phase unconditionally; an
/// incremental counter equal to the last observed one, or equal to the
/// reserved undefined sentinel, finishes the run; any other counter becomes
/// the new high-water mark to fetch from.
pub open spec fn sync_step(s: SyncState, counter: u64) -> SyncState {
    match s {
        SyncState::FullSync => (SyncState::IncrementalSync { last_sequence: counter }),
        SyncState::IncrementalSync { last_sequence } => {
            if counter == last_sequence || counter == u64::MAX {
                SyncState::Done
            } else {
                (SyncState::IncrementalSync { last_sequence: counter })
            }
        },
        _ => s,
    }
}

/// The fetch owed in state `s`, if any.
pub open spec fn sync_fetch(s: SyncState) -> Option<FetchRequest> {
    match s {
        SyncState::FullSync => Some(FetchRequest::Full),
        SyncState::IncrementalSync { last_sequence } => (Some(
            FetchRequest::Incremental { from: last_sequence },
        )),
        _ => None,
    }
}

/// The synchronization controller.  The driver asks `next_fetch` what to do,
/// performs the fetch, and reports the decoded counter (or the failure)
/// back; the controller's state decides when the run is over.
pub struct Controller {
    state: SyncState,
}

impl Controller {
    /// The controller's current state.
    pub closed spec fn state_spec(self) -> SyncState {
        self.state
    }

    /// A controller for a fresh run.
    pub fn new() -> (c: Controller)
        ensures
            c.state_spec() == SyncState::Initial,
    {
        Controller { state: SyncState::Initial }
    }

    /// The current state, for observation.
    pub fn state(&self) -> (s: SyncState)
        ensures
            s == self.state_spec(),
    {
        self.state
    }

    /// Starts the run: the full-snapshot fetch is now owed.
    pub fn begin(&mut self)
        requires
            old(self).state_spec() == SyncState::Initial,
        ensures
            final(self).state_spec() == SyncState::FullSync,
    {
        self.state = SyncState::FullSync;
    }

    /// The fetch owed in the current state: the full snapshot first, then an
    /// incremental fetch from the last observed sequence; nothing once the
    /// run is done or failed.
    pub fn next_fetch(&self) -> (r: Option<FetchRequest>)
        ensures
            r == sync_fetch(self.state_spec()),
    {
        match self.state {
            SyncState::FullSync => Some(FetchRequest::Full),
            SyncState::IncrementalSync { last_sequence } => Some(
                FetchRequest::Incremental { from: last_sequence },
            ),
            _ => None,
        }
    }

    /// Reports the sequence counter a completed fetch decoded.  After the
    /// full snapshot the run always moves to incremental catch-up; an
    /// incremental fetch that shows no forward progress — the same counter
    /// as last time, or the reserved undefined sentinel, whatever the last
    /// counter was — completes the run.
    pub fn on_fetch_success(&mut self, counter: u64)
        requires
            old(self).state_spec() is FullSync || old(self).state_spec() is IncrementalSync,
        ensures
            final(self).state_spec() == sync_step(old(self).state_spec(), counter),
    {
        match self.state {
            SyncState::FullSync => {
                self.state = SyncState::IncrementalSync { last_sequence: counter };
            },
            SyncState::IncrementalSync { last_sequence } => {
                if counter == last_sequence || counter == u64::MAX {
                    self.state = SyncState::Done;
                } else {
                    self.state = SyncState::IncrementalSync { last_sequence: counter };
                }
            },
            _ => {},
        }
    }

    /// Reports that the current fetch failed — a wrong magic sentinel or a
    /// transport failure: the run is over, unsuccessfully.
    pub fn on_fetch_failure(&mut self)
        ensures
            final(self).state_spec() == SyncState::Failed,
    {
        self.state = SyncState::Failed;
    }
}

/// Counter progression and termination: in incremental catch-up, observing a
/// fresh counter `n`, then `n + 1`, then `n + 1` again, issues exactly three
/// incremental fetches — from the old mark, from `n`, and from `n + 1` — and
/// the third observation, the first repeat, completes the run.
pub proof fn lemma_counter_progression(last: u64, n: u64)
    requires
        n != last,
        n < u64::MAX - 1,
    ensures
        ({
            let s0 = SyncState::IncrementalSync { last_sequence: last };
            let s1 = sync_step(s0, n);
            let s2 = sync_step(s1, (n + 1) as u64);
            let s3 = sync_step(s2, (n + 1) as u64);
            &&& sync_fetch(s0) == Some(FetchRequest::Incremental { from: last })
            &&& s1 == (SyncState::IncrementalSync { last_sequence: n })
            &&& sync_fetch(s1) == Some(FetchRequest::Incremental { from: n })
            &&& s2 == (SyncState::IncrementalSync { last_sequence: (n + 1) as u64 })
            &&& sync_fetch(s2) == Some(FetchRequest::Incremental { from: (n + 1) as u64 })
            &&& s3 == SyncState::Done
            &&& sync_fetch(s3) is None
        }),
{
}

/// Undefined-sentinel termination: an incremental fetch that returns the
/// reserved all-ones counter completes the run, whatever the last observed
/// sequence was.
pub proof fn lemma_undefined_sentinel_terminates(last: u64)
    ensures
        sync_step(SyncState::IncrementalSync { last_sequence: last }, u64::MAX)
            == SyncState::Done,
{
}

} // verus!
