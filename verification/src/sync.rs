//! Messages between the client and its sync worker, and the worker's
//! bookkeeping for one round of sending the outbox.

use vstd::prelude::*;
use crate::model::SyncResponse;
use crate::store::Op;

verus! {

/// To the worker: send these queued operations, then fetch what changed
/// since `since` (everything when `None`).
#[derive(Debug)]
pub enum ToWorker {
    Sync { since: Option<i64>, ops: Vec<(i64, Op)> },
}

/// From the worker and the event listener.
#[derive(Debug)]
pub enum FromSync {
    Done {
        /// Outbox entries the server took.
        acked: Vec<i64>,
        /// Outbox entries the server refused (sending again will not help).
        rejected: Vec<i64>,
        pulled: Option<SyncResponse>,
        error: Option<String>,
    },
    /// The server's revision moved on.
    Remote(i64),
    /// The event stream broke off (it reconnects).
    Disconnected,
}

/// How sending one operation went.
#[derive(Debug, PartialEq, Eq)]
pub enum SendOutcome {
    Sent,
    /// The server refused it (a 4xx answer).
    Refused,
    /// It could not be sent (unreachable server, server error, ...).
    Failed(String),
}

/// What to fetch changes since, from the revision last synced: everything
/// (`None`) when it is 0, that is, never synced.
pub fn since(synced: i64) -> (r: Option<i64>)
    ensures
        r == (if synced == 0 { None } else { Some(synced) }),
{
    if synced == 0 {
        None
    } else {
        Some(synced)
    }
}

/// One round of sending the outbox in order.
#[derive(Debug)]
pub struct SyncRound {
    pub acked: Vec<i64>,
    pub rejected: Vec<i64>,
    pub error: Option<String>,
}

impl SyncRound {
    /// A round with nothing sent yet.
    pub fn new() -> (r: Self)
        ensures
            r.acked@ == Seq::<i64>::empty(),
            r.rejected@ == Seq::<i64>::empty(),
            r.error is None,
    {
        SyncRound { acked: Vec::new(), rejected: Vec::new(), error: None }
    }

    /// Records how sending entry `seq` went; `false` means stop here and
    /// send the rest next time, so that the order is kept.
    pub fn record(&mut self, seq: i64, outcome: SendOutcome) -> (go_on: bool)
        ensures
            go_on == !(outcome is Failed),
            outcome is Sent ==> final(self).acked@ == old(self).acked@.push(seq) && final(self).rejected@ == old(self).rejected@,
            outcome is Refused ==> final(self).rejected@ == old(self).rejected@.push(seq) && final(self).acked@ == old(self).acked@,
            outcome matches SendOutcome::Failed(e) ==> final(self).error == Some(e) && final(self).acked@ == old(self).acked@ && final(self).rejected@ == old(self).rejected@,
            !(outcome is Failed) ==> final(self).error == old(self).error,
    {
        match outcome {
            SendOutcome::Sent => {
                self.acked.push(seq);
                true
            },
            SendOutcome::Refused => {
                self.rejected.push(seq);
                true
            },
            SendOutcome::Failed(e) => {
                self.error = Some(e);
                false
            },
        }
    }

    /// Whether the round should go on to fetch changes: only when every
    /// send went through or was refused.
    pub fn should_pull(&self) -> (r: bool)
        ensures
            r == (self.error is None),
    {
        self.error.is_none()
    }

    /// The report for the client. `pulled` is the fetch, if one was made.
    pub fn finish(self, pulled: Option<Result<SyncResponse, String>>) -> (r: FromSync)
        ensures
            r matches FromSync::Done { acked, rejected, pulled: p, error } && {
                &&& acked@ == self.acked@
                &&& rejected@ == self.rejected@
                &&& match pulled {
                    Some(Ok(resp)) => p == Some(resp) && error == self.error,
                    Some(Err(e)) => p is None && error == Some(e),
                    None => p is None && error == self.error,
                }
            },
    {
        let SyncRound { acked, rejected, error } = self;
        match pulled {
            Some(Ok(resp)) => FromSync::Done { acked, rejected, pulled: Some(resp), error },
            Some(Err(e)) => FromSync::Done { acked, rejected, pulled: None, error: Some(e) },
            None => FromSync::Done { acked, rejected, pulled: None, error },
        }
    }
}

} // verus!
