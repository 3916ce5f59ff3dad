//! The submission log: per-transaction outcomes of handing payloads to the
//! node.  A rejection is an expected, non-fatal event — its message is
//! recorded, in arrival order, and the stream goes on.

use vstd::prelude::*;

verus! {

/// What the node said to one submitted transaction.
pub enum SubmitOutcome {
    /// The node accepted the transaction.
    Accepted,
    /// The node declined it; `message` is the node's rejection text.
    Rejected { message: String },
}

/// The record of one synchronization run's submissions: how many were
/// attempted, and every rejection message, in arrival order.  Append-only;
/// a rejection never stops the run.
pub struct SubmissionLog {
    errors: Vec<String>,
    attempted: u64,
}

impl SubmissionLog {
    /// Every recorded rejection message, in arrival order.
    pub closed spec fn errors_spec(self) -> Seq<Seq<char>> {
        self.errors@.map_values(|s: String| s@)
    }

    /// How many submissions have been recorded, accepted or not.
    pub closed spec fn attempted_spec(self) -> u64 {
        self.attempted
    }

    /// An empty log for a fresh run.
    pub fn new() -> (log: SubmissionLog)
        ensures
            log.errors_spec() == Seq::<Seq<char>>::empty(),
            log.attempted_spec() == 0,
    {
        let log = SubmissionLog { errors: Vec::new(), attempted: 0 };
        proof {
            assert(log.errors_spec() =~= Seq::<Seq<char>>::empty());
        }
        log
    }

    /// Records one submission's outcome: the attempt is counted, and a
    /// rejection appends exactly its message while an acceptance appends
    /// nothing.  Recording never fails: a rejection is data, not an error.
    pub fn record(&mut self, outcome: SubmitOutcome)
        requires
            old(self).attempted_spec() < u64::MAX,
        ensures
            final(self).attempted_spec() == old(self).attempted_spec() + 1,
            match outcome {
                SubmitOutcome::Accepted =>
                    final(self).errors_spec() == old(self).errors_spec(),
                SubmitOutcome::Rejected { message } =>
                    final(self).errors_spec() == old(self).errors_spec().push(message@),
            },
    {
        match outcome {
            SubmitOutcome::Accepted => {},
            SubmitOutcome::Rejected { message } => {
                let ghost mv = message@;
                self.errors.push(message);
                proof {
                    assert(self.errors_spec()
                        =~= old(self).errors_spec().push(mv));
                }
            },
        }
        self.attempted = self.attempted + 1;
    }

    /// How many rejections have been recorded.
    pub fn error_count(&self) -> (n: usize)
        ensures
            n == self.errors_spec().len(),
    {
        self.errors.len()
    }

    /// How many submissions have been recorded.
    pub fn attempted(&self) -> (n: u64)
        ensures
            n == self.attempted_spec(),
    {
        self.attempted
    }

    /// The recorded rejection messages, in arrival order.
    pub fn errors(&self) -> (r: &Vec<String>)
        ensures
            r@.map_values(|s: String| s@) == self.errors_spec(),
    {
        &self.errors
    }
}

} // verus!
