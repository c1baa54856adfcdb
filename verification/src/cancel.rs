use vstd::prelude::*;
use tokio_util::sync::CancellationToken;

use crate::error::Error;

verus! {

/// The cancellation signal shared by a caller and the work done for it.
#[verifier::external_type_specification]
#[verifier::external_body]
pub struct ExCancellationToken(CancellationToken);

/// `tokio_util::sync::CancellationToken::is_cancelled` reports whether some
/// holder has cancelled the token by now. Another task may do so at any time,
/// so nothing is claimed of the answer.
pub assume_specification[ CancellationToken::is_cancelled ](token: &CancellationToken) -> (cancelled:
    bool)
;

/// Something that tells, whenever it is looked at, whether work is to stop.
pub trait Cancellation {
    /// Whether a look can give this answer.
    spec fn may_answer(&self, cancelled: bool) -> bool;

    /// Look once.
    fn look(&self) -> (cancelled: bool)
        ensures
            self.may_answer(cancelled),
    ;
}

/// A token gives whatever answer it gives.
impl Cancellation for CancellationToken {
    open spec fn may_answer(&self, cancelled: bool) -> bool {
        call_ensures(CancellationToken::is_cancelled, (self,), cancelled)
    }

    fn look(&self) -> (cancelled: bool) {
        self.is_cancelled()
    }
}

/// An answer that was given already and stays.
#[derive(Debug, Clone, Copy, PartialEq, Eq, Structural)]
pub struct Settled {
    pub cancelled: bool,
}

impl Cancellation for Settled {
    open spec fn may_answer(&self, cancelled: bool) -> bool {
        cancelled == self.cancelled
    }

    fn look(&self) -> (cancelled: bool) {
        self.cancelled
    }
}

/// How many elements a computation handles between two looks.
pub const CPU_CANCELLATION_INTERVAL: usize = 4096;

/// Stop with [`Error::Cancelled`] exactly when cancellation was observed.
pub fn cancellation_outcome(cancelled: bool) -> (result: Result<(), Error>)
    ensures
        result == (if cancelled {
            Err::<(), Error>(Error::Cancelled)
        } else {
            Ok(())
        }),
{
    if cancelled {
        Err(Error::Cancelled)
    } else {
        Ok(())
    }
}

/// Whether an error reports that a look found the work cancelled.
pub open spec fn stopped_by<W: Cancellation>(cancellation: &W, error: Error) -> bool {
    error == Error::Cancelled && cancellation.may_answer(true)
}

/// Whether a look found that the work may go on.
pub open spec fn passed_by<W: Cancellation>(cancellation: &W) -> bool {
    cancellation.may_answer(false)
}

/// Work is stopped only as cancelled and only by a look that found it so; an answer that
/// stays either always stops it or never.
pub proof fn what_stops_work<W: Cancellation>(cancellation: &W, settled: Settled, error: Error)
    ensures
        stopped_by(cancellation, error) <==> error == Error::Cancelled
            && cancellation.may_answer(true),
        passed_by(cancellation) <==> cancellation.may_answer(false),
        stopped_by(&settled, Error::Cancelled) <==> settled.cancelled,
        passed_by(&settled) <==> !settled.cancelled,
{
}

/// Look once and stop if the work is cancelled.
pub fn check_cancelled<W: Cancellation>(cancellation: &W) -> (result: Result<(), Error>)
    ensures
        match result {
            Ok(()) => passed_by(cancellation),
            Err(error) => stopped_by(cancellation, error),
        },
{
    cancellation_outcome(cancellation.look())
}

/// Look once from inside a computation and stop if the work is cancelled.
pub fn check_cpu_cancellation<W: Cancellation>(cancellation: &W) -> (result: Result<(), Error>)
    ensures
        match result {
            Ok(()) => passed_by(cancellation),
            Err(error) => stopped_by(cancellation, error),
        },
{
    cancellation_outcome(cancellation.look())
}

} // verus!
