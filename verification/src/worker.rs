//! The task that runs a long operation, as far as the datastore needs it:
//! it can be asked whether the work should stop.

use vstd::prelude::*;
use crate::error::Error;

verus! {

/// The context of a worker task. Its answers may change from one call to
/// the next, unless the task says that they are fixed.
pub trait WorkerTaskContext {
    /// The answer of the task to the question whether it was asked to
    /// abort, where that answer is fixed; `None` where it may change from
    /// one call to the next, as it may unless the task says otherwise.
    open spec fn abort_answer(&self) -> Option<bool> {
        None
    }

    /// The answer of the task to the question whether the server is
    /// shutting down, where that answer is fixed; `None` where it may
    /// change from one call to the next.
    open spec fn shutdown_answer(&self) -> Option<bool> {
        None
    }

    /// Whether the task was asked to abort.
    fn abort_requested(&self) -> (r: bool)
        ensures
            self.abort_answer() matches Some(fixed) ==> r == fixed,
    ;

    /// Whether the server is shutting down.
    fn shutdown_requested(&self) -> (r: bool)
        ensures
            self.shutdown_answer() matches Some(fixed) ==> r == fixed,
    ;
}

/// Whether a task runs to its end whatever happens: its answers are fixed,
/// and it is neither asked to abort nor does it see the server shut down.
pub open spec fn never_stops<W: WorkerTaskContext>(worker: &W) -> bool {
    worker.abort_answer() == Some(false) && worker.shutdown_answer() == Some(false)
}

/// Whether `e` is a failure that a polling point of the task can have: the
/// request to abort, unless the task is known not to be asked to, or the
/// shutdown, unless the task is known not to see one.
pub open spec fn stops_with<W: WorkerTaskContext>(worker: &W, e: Error) -> bool {
    (e == Error::AbortRequested && worker.abort_answer() != Some(false)) || (e
        == Error::ShuttingDown && worker.shutdown_answer() != Some(false))
}

/// What the answer to the question whether the task was asked to abort
/// comes to: a failure with `AbortRequested` where it was.
pub open spec fn abort_result_spec(requested: bool) -> Result<(), Error> {
    if requested {
        Err(Error::AbortRequested)
    } else {
        Ok(())
    }
}

/// What the answer to the question whether the server is shutting down
/// comes to: a failure with `ShuttingDown` where it is.
pub open spec fn shutdown_result_spec(requested: bool) -> Result<(), Error> {
    if requested {
        Err(Error::ShuttingDown)
    } else {
        Ok(())
    }
}

/// What a polling point comes to for given answers: the request to abort
/// is asked for first, and the shutdown only where there is none.
pub open spec fn poll_result_spec(abort: bool, shutdown: bool) -> Result<(), Error> {
    if abort {
        Err(Error::AbortRequested)
    } else {
        shutdown_result_spec(shutdown)
    }
}

/// What a polling point of a task comes to, as far as the answers of the
/// task are fixed: the shutdown is not asked for where the task is known
/// to be asked to abort.
pub open spec fn fixed_poll_result(abort: Option<bool>, shutdown: Option<bool>) -> Option<
    Result<(), Error>,
> {
    match abort {
        Some(true) => Some(poll_result_spec(true, false)),
        Some(false) => match shutdown {
            Some(s) => Some(poll_result_spec(false, s)),
            None => None,
        },
        None => None,
    }
}

/// What a task's answer to the question whether it was asked to abort
/// comes to.
pub fn abort_result(requested: bool) -> (r: Result<(), Error>)
    ensures
        r == abort_result_spec(requested),
{
    if requested {
        Err(Error::AbortRequested)
    } else {
        Ok(())
    }
}

/// What a task's answer to the question whether the server is shutting
/// down comes to.
pub fn shutdown_result(requested: bool) -> (r: Result<(), Error>)
    ensures
        r == shutdown_result_spec(requested),
{
    if requested {
        Err(Error::ShuttingDown)
    } else {
        Ok(())
    }
}

/// Asks the task whether it was asked to abort, and fails with
/// `AbortRequested` if it says so. Where the answer of the task is fixed,
/// so is the result.
pub fn check_abort<W: WorkerTaskContext>(worker: &W) -> (r: Result<(), Error>)
    ensures
        r matches Err(e) ==> e == Error::AbortRequested,
        worker.abort_answer() matches Some(fixed) ==> r == abort_result_spec(fixed),
{
    abort_result(worker.abort_requested())
}

/// Asks the task whether the server is shutting down, and fails with
/// `ShuttingDown` if it says so. Where the answer of the task is fixed, so
/// is the result.
pub fn fail_on_shutdown<W: WorkerTaskContext>(worker: &W) -> (r: Result<(), Error>)
    ensures
        r matches Err(e) ==> e == Error::ShuttingDown,
        worker.shutdown_answer() matches Some(fixed) ==> r == shutdown_result_spec(fixed),
{
    shutdown_result(worker.shutdown_requested())
}

/// One polling point: first the abort request, then the shutdown. Where
/// the answers of the task are fixed, so is the result; a task that never
/// stops passes.
pub fn poll<W: WorkerTaskContext>(worker: &W) -> (r: Result<(), Error>)
    ensures
        r matches Err(e) ==> stops_with(worker, e),
        never_stops(worker) ==> r is Ok,
        fixed_poll_result(worker.abort_answer(), worker.shutdown_answer()) matches Some(fixed)
            ==> r == fixed,
{
    match check_abort(worker) {
        Err(e) => Err(e),
        Ok(()) => fail_on_shutdown(worker),
    }
}

/// A task whose requests are fixed when it is made.
#[derive(Clone, Copy, Debug, PartialEq, Eq, Structural)]
pub struct TaskState {
    pub abort: bool,
    pub shutdown: bool,
}

impl TaskState {
    /// A task that nobody asks to stop.
    pub fn running() -> (t: TaskState)
        ensures
            !t.abort && !t.shutdown,
    {
        TaskState { abort: false, shutdown: false }
    }
}

impl WorkerTaskContext for TaskState {
    open spec fn abort_answer(&self) -> Option<bool> {
        Some(self.abort)
    }

    open spec fn shutdown_answer(&self) -> Option<bool> {
        Some(self.shutdown)
    }

    fn abort_requested(&self) -> (r: bool)
        ensures
            r == self.abort,
    {
        self.abort
    }

    fn shutdown_requested(&self) -> (r: bool)
        ensures
            r == self.shutdown,
    {
        self.shutdown
    }
}

} // verus!
