//! A single world: one unit of work and its lifecycle.

use vstd::prelude::*;
use crate::error::WorldError;
use crate::status::WorldStatus;

verus! {

/// What a world is, as a value: its status, the callable it still holds and
/// the value it has produced and not yet handed out.
pub ghost struct WorldView<R, F> {
    /// The lifecycle status.
    pub status: WorldStatus,
    /// The callable, until a start takes it.
    pub process: Option<F>,
    /// The value the callable returned, until a wait takes it.
    pub result: Option<R>,
}

impl<R, F> WorldView<R, F> {
    /// A callable is held only before the first start, and a value only
    /// after the callable finished.
    pub open spec fn wf(self) -> bool {
        &&& self.process is Some ==> self.status is Ready
        &&& self.result is Some ==> self.status is Finished
    }

    /// Why a start is refused, or `None` where it goes ahead.
    pub open spec fn start_error(self) -> Option<WorldError> {
        match self.status {
            WorldStatus::Running => Some(WorldError::AlreadyRunning),
            WorldStatus::Finished => Some(WorldError::AlreadyCompleted),
            WorldStatus::Failed(_) => Some(WorldError::AlreadyCompleted),
            _ => if self.process is None {
                Some(WorldError::NoCallable)
            } else {
                None
            },
        }
    }

    /// The world after a start: running and without its callable where the
    /// start goes ahead, unchanged where it is refused.
    pub open spec fn started(self) -> Self {
        if self.start_error() is None {
            WorldView { status: WorldStatus::Running, process: None, result: self.result }
        } else {
            self
        }
    }

    /// The world after a stop: stopped if it was running, else unchanged.
    pub open spec fn stopped(self) -> Self {
        if self.status is Running {
            WorldView { status: WorldStatus::Stopped, process: self.process, result: self.result }
        } else {
            self
        }
    }

    /// The world after its callable returned `value`: finished and holding
    /// the value if it was still running, else unchanged.
    pub open spec fn finished(self, value: R) -> Self {
        if self.status is Running {
            WorldView { status: WorldStatus::Finished, process: self.process, result: Some(value) }
        } else {
            self
        }
    }

    /// The world after its callable broke off for `reason`: failed if it was
    /// still running, else unchanged.
    pub open spec fn failed(self, reason: String) -> Self {
        if self.status is Running {
            WorldView {
                status: WorldStatus::Failed(reason),
                process: self.process,
                result: self.result,
            }
        } else {
            self
        }
    }

    /// What a wait yields: `None` while the world is running, else the value
    /// or the reason why there is none.
    pub open spec fn waited(self) -> Option<Result<R, WorldError>> {
        match self.status {
            WorldStatus::Ready => Some(Err(WorldError::NotRunning)),
            WorldStatus::Running => None,
            WorldStatus::Finished => match self.result {
                Some(value) => Some(Ok(value)),
                None => Some(Err(WorldError::ResultAlreadyRetrieved)),
            },
            WorldStatus::Failed(reason) => Some(Err(WorldError::Failed(reason))),
            WorldStatus::Stopped => Some(Err(WorldError::Stopped)),
        }
    }

    /// The world after a wait: without its value, otherwise unchanged.
    pub open spec fn collected(self) -> Self {
        WorldView { status: self.status, process: self.process, result: None }
    }
}

/// Whatever is done to a well-formed world leaves it well formed and moves
/// its status along the lifecycle's edges only: no step is skipped and none
/// is taken back.
pub proof fn lemma_status_moves_forward<R, F>(w: WorldView<R, F>, value: R, reason: String)
    requires
        w.wf(),
    ensures
        w.started().wf() && w.status.leads_to(w.started().status),
        w.stopped().wf() && w.status.leads_to(w.stopped().status),
        w.finished(value).wf() && w.status.leads_to(w.finished(value).status),
        w.failed(reason).wf() && w.status.leads_to(w.failed(reason).status),
        w.collected().wf() && w.collected().status == w.status,
{
}

/// The callable leaves the world at most once: after a start, successful or
/// not, every further start is refused and changes nothing. Directly after a
/// successful start the refusal is `AlreadyRunning`.
pub proof fn lemma_callable_consumed_once<R, F>(w: WorldView<R, F>)
    requires
        w.wf(),
    ensures
        w.started().process is None,
        w.started().start_error() is Some,
        w.started().started() == w.started(),
        w.start_error() is None ==> w.started().start_error() == Some(WorldError::AlreadyRunning),
{
}

/// A finished or failed world is never started again: the start is refused
/// with `AlreadyCompleted` and the world stays as it is.
pub proof fn lemma_completed_never_restarts<R, F>(w: WorldView<R, F>)
    requires
        w.status.is_completed(),
    ensures
        w.start_error() == Some(WorldError::AlreadyCompleted),
        w.started() == w,
{
}

/// A wait is owed an answer exactly when the world is not running, and it
/// brings a value only where the callable delivered one: the world is
/// finished and the value is the one it holds.
pub proof fn lemma_wait_fabricates_nothing<R, F>(w: WorldView<R, F>)
    requires
        w.wf(),
    ensures
        w.waited() is None <==> w.status is Running,
        w.waited() matches Some(Ok(value)) ==> w.status is Finished && w.result == Some(value),
{
}

/// The result is handed out at most once: after a wait no further wait
/// brings a value, and on a finished world it fails with
/// `ResultAlreadyRetrieved`. A further wait on a world that has ended is
/// answered at once.
pub proof fn lemma_result_delivered_once<R, F>(w: WorldView<R, F>)
    requires
        w.wf(),
    ensures
        !(w.collected().waited() matches Some(Ok(_))),
        !(w.status is Running) ==> w.collected().waited() is Some,
        w.status is Finished ==> w.collected().waited() == Some(
            Err::<R, WorldError>(WorldError::ResultAlreadyRetrieved),
        ),
        w.collected().collected() == w.collected(),
{
}

/// A world that is started and whose callable returns `value` is finished,
/// and the first wait brings exactly that value.
pub proof fn lemma_finished_value_is_delivered<R, F>(w: WorldView<R, F>, value: R)
    requires
        w.wf(),
        w.start_error() is None,
    ensures
        w.started().finished(value).status is Finished,
        w.started().finished(value).waited() == Some(Ok::<R, WorldError>(value)),
        w.started().finished(value).collected().status is Finished,
{
}

/// A world that is started and whose callable breaks off for `reason` is
/// failed with that reason, and every wait reports it.
pub proof fn lemma_failure_is_reported<R, F>(w: WorldView<R, F>, reason: String)
    requires
        w.wf(),
        w.start_error() is None,
    ensures
        w.started().failed(reason).status == WorldStatus::Failed(reason),
        w.started().failed(reason).waited() == Some(
            Err::<R, WorldError>(WorldError::Failed(reason)),
        ),
        w.started().failed(reason).collected() == w.started().failed(reason),
{
}

/// A stop takes precedence over whatever the callable reports afterwards:
/// the world is stopped at once, stays stopped, and a wait on it fails with
/// `Stopped` without ever being kept waiting.
pub proof fn lemma_stop_takes_precedence<R, F>(w: WorldView<R, F>, value: R, reason: String)
    requires
        w.wf(),
        w.status is Running,
    ensures
        w.stopped().status is Stopped,
        w.stopped().finished(value) == w.stopped(),
        w.stopped().failed(reason) == w.stopped(),
        w.stopped().waited() == Some(Err::<R, WorldError>(WorldError::Stopped)),
        w.stopped().start_error() == Some(WorldError::NoCallable),
{
}

/// What a typed wait makes of an attempt to recover the type asked for: the
/// value where it was recovered, `TypeMismatch` where it was not.
pub open spec fn typed<T>(recovered: Option<T>) -> Result<T, WorldError> {
    match recovered {
        Some(value) => Ok(value),
        None => Err(WorldError::TypeMismatch),
    }
}

/// Turns an attempt to recover a type into the result of a typed wait.
pub fn recover<T>(recovered: Option<T>) -> (out: Result<T, WorldError>)
    ensures
        out == typed(recovered),
{
    match recovered {
        Some(value) => Ok(value),
        None => Err(WorldError::TypeMismatch),
    }
}

/// A unit of work with its lifecycle.
///
/// `R` is the type of the value the work produces and `F` the type of the
/// callable that produces it. The world never calls the callable itself: a
/// successful [`start`](World::start) moves it out to the caller, who runs it
/// and reports back with [`finish`](World::finish) or [`fail`](World::fail).
/// So `F` is not tied to `R` here: it is whatever the caller knows how to
/// run, on a thread of its own or in place.
pub struct World<R, F> {
    process: Option<F>,
    status: WorldStatus,
    result: Option<R>,
}

impl<R, F> View for World<R, F> {
    type V = WorldView<R, F>;

    closed spec fn view(&self) -> WorldView<R, F> {
        WorldView { status: self.status, process: self.process, result: self.result }
    }
}

impl<R, F> World<R, F> {
    /// Holds of every world: its value is well formed.
    #[verifier::type_invariant]
    pub open spec fn inv(&self) -> bool {
        self@.wf()
    }

    /// A ready world without a callable. Starting it fails with
    /// `NoCallable`.
    pub fn new() -> (world: Self)
        ensures
            world@ == (WorldView::<R, F> { status: WorldStatus::Ready, process: None, result: None }),
    {
        World { process: None, status: WorldStatus::Ready, result: None }
    }

    /// A ready world that holds `f`. Nothing is run.
    pub fn from(f: F) -> (world: Self)
        ensures
            world@ == (WorldView::<R, F> {
                status: WorldStatus::Ready,
                process: Some(f),
                result: None,
            }),
    {
        World { process: Some(f), status: WorldStatus::Ready, result: None }
    }

    /// The current status.
    pub fn progress(&self) -> (status: WorldStatus)
        ensures
            status == self@.status,
    {
        self.status.clone()
    }

    /// Starts the world and hands out its callable for the caller to run.
    ///
    /// Fails with `AlreadyRunning` on a running world, with
    /// `AlreadyCompleted` on a finished or failed one and with `NoCallable`
    /// where no callable is held; a refused start changes nothing. A
    /// stopped world has given its callable away, so it is not started
    /// again either.
    pub fn start(&mut self) -> (started: Result<F, WorldError>)
        ensures
            final(self)@ == old(self)@.started(),
            match started {
                Ok(f) => old(self)@.start_error() is None && old(self)@.process == Some(f),
                Err(e) => old(self)@.start_error() == Some(e),
            },
    {
        proof {
            use_type_invariant(&*self);
        }
        match self.status {
            WorldStatus::Running => Err(WorldError::AlreadyRunning),
            WorldStatus::Finished => Err(WorldError::AlreadyCompleted),
            WorldStatus::Failed(_) => Err(WorldError::AlreadyCompleted),
            _ => {
                let mut slot: Option<F> = None;
                core::mem::swap(&mut self.process, &mut slot);
                match slot {
                    Some(f) => {
                        self.status = WorldStatus::Running;
                        Ok(f)
                    },
                    None => Err(WorldError::NoCallable),
                }
            },
        }
    }

    /// Stops a running world; fails with `NotRunning` on any other, which it
    /// leaves unchanged.
    ///
    /// Stopping is bookkeeping only: the callable, already handed out, is
    /// not reached by it. What it reports later is dropped, so a stopped
    /// world stays stopped.
    pub fn stop(&mut self) -> (stopped: Result<(), WorldError>)
        ensures
            final(self)@ == old(self)@.stopped(),
            stopped is Ok <==> old(self)@.status is Running,
            stopped is Err ==> stopped == Err::<(), WorldError>(WorldError::NotRunning),
    {
        proof {
            use_type_invariant(&*self);
        }
        match self.status {
            WorldStatus::Running => {
                self.status = WorldStatus::Stopped;
                Ok(())
            },
            _ => Err(WorldError::NotRunning),
        }
    }

    /// Records that the callable returned `value`. A running world becomes
    /// finished and keeps the value for the next wait; on any other world
    /// the report is dropped.
    pub fn finish(&mut self, value: R)
        ensures
            final(self)@ == old(self)@.finished(value),
    {
        proof {
            use_type_invariant(&*self);
        }
        match self.status {
            WorldStatus::Running => {
                self.status = WorldStatus::Finished;
                self.result = Some(value);
            },
            _ => {},
        }
    }

    /// Records that the callable broke off for `reason`. A running world
    /// becomes failed; on any other world the report is dropped.
    pub fn fail(&mut self, reason: String)
        ensures
            final(self)@ == old(self)@.failed(reason),
    {
        proof {
            use_type_invariant(&*self);
        }
        match self.status {
            WorldStatus::Running => {
                self.status = WorldStatus::Failed(reason);
            },
            _ => {},
        }
    }

    /// Waits for the result.
    ///
    /// Answers `None` while the world is running: the caller blocks until
    /// the callable has reported, then asks again. On a finished world the
    /// first wait hands out the value and every later one fails with
    /// `ResultAlreadyRetrieved`. A failed world gives `Failed` with its
    /// reason, a stopped one `Stopped`, and one that was never started
    /// `NotRunning`.
    pub fn status(&mut self) -> (waited: Option<Result<R, WorldError>>)
        ensures
            waited == old(self)@.waited(),
            final(self)@ == old(self)@.collected(),
    {
        proof {
            use_type_invariant(&*self);
        }
        match &self.status {
            WorldStatus::Ready => Some(Err(WorldError::NotRunning)),
            WorldStatus::Running => None,
            WorldStatus::Finished => {
                let mut slot: Option<R> = None;
                core::mem::swap(&mut self.result, &mut slot);
                match slot {
                    Some(value) => Some(Ok(value)),
                    None => Some(Err(WorldError::ResultAlreadyRetrieved)),
                }
            },
            WorldStatus::Failed(reason) => Some(Err(WorldError::Failed(reason.clone()))),
            WorldStatus::Stopped => Some(Err(WorldError::Stopped)),
        }
    }

    /// Starts the world, has `exec` run the callable to its end, and waits
    /// for the result: a start followed at once by a wait.
    ///
    /// `exec` runs the callable and answers with the value it returned, or
    /// with the reason why it broke off. A refused start is reported as
    /// [`start`](World::start) reports it and `exec` is not called.
    pub fn run<E: FnOnce(F) -> Result<R, String>>(&mut self, exec: E) -> (ran: Result<R, WorldError>)
        requires
            old(self)@.process matches Some(f) ==> call_requires(exec, (f,)),
        ensures
            match old(self)@.start_error() {
                Some(e) => ran == Err::<R, WorldError>(e) && final(self)@ == old(self)@,
                None => exists|outcome: Result<R, String>| #[trigger]
                    call_ensures(exec, (old(self)@.process->0,), outcome) && match outcome {
                        Ok(value) => ran == Ok::<R, WorldError>(value) && final(self)@ == old(
                            self,
                        )@.started().finished(value).collected(),
                        Err(reason) => ran == Err::<R, WorldError>(WorldError::Failed(reason))
                            && final(self)@ == old(self)@.started().failed(reason),
                    },
            },
    {
        proof {
            use_type_invariant(&*self);
        }
        match self.start() {
            Err(e) => Err(e),
            Ok(f) => {
                let outcome = exec(f);
                assert(call_ensures(exec, (old(self)@.process->0,), outcome));
                match outcome {
                    Ok(value) => {
                        self.finish(value);
                    },
                    Err(reason) => {
                        self.fail(reason);
                    },
                }
                match self.status() {
                    Some(waited) => waited,
                    None => Err(WorldError::NotRunning),
                }
            },
        }
    }

    /// Waits for the result and recovers its type.
    ///
    /// This is for a world whose `R` leaves the type of the value open, so
    /// that worlds with different results fit one registry. `cast` tries to
    /// recover a `T` from the value; where it answers `None` the wait fails
    /// with `TypeMismatch`, and the value is gone as after any other wait.
    /// Everything else is as in [`status`](World::status), and `cast` is
    /// called only on a value.
    pub fn status_as<T, C: FnOnce(R) -> Option<T>>(&mut self, cast: C) -> (waited: Option<
        Result<T, WorldError>,
    >)
        requires
            old(self)@.result matches Some(value) ==> call_requires(cast, (value,)),
        ensures
            final(self)@ == old(self)@.collected(),
            match old(self)@.waited() {
                None => waited is None,
                Some(Err(e)) => waited == Some(Err::<T, WorldError>(e)),
                Some(Ok(value)) => exists|recovered: Option<T>| #[trigger]
                    call_ensures(cast, (value,), recovered) && waited == Some(typed(recovered)),
            },
    {
        proof {
            use_type_invariant(&*self);
        }
        match self.status() {
            None => None,
            Some(Err(e)) => Some(Err(e)),
            Some(Ok(value)) => {
                let recovered = cast(value);
                assert(call_ensures(cast, (value,), recovered));
                Some(recover(recovered))
            },
        }
    }
}

impl<R, F> Default for World<R, F> {
    /// The same as [`World::new`].
    fn default() -> (world: Self)
        ensures
            world@ == (WorldView::<R, F> { status: WorldStatus::Ready, process: None, result: None }),
    {
        World::new()
    }
}

/// The part of a world that does not depend on what its result is: status,
/// start, stop, and a wait whose value is of a type left open.
///
/// Code that is written against this trait handles worlds with different
/// results alike. The type of a value is recovered where the caller knows
/// what to expect: see [`World::status_as`].
pub trait AnyWorld {
    /// What a start hands out to be run.
    type Process;

    /// The result, its type left open.
    type Opaque;

    /// The world as a value.
    spec fn erased(&self) -> WorldView<Self::Opaque, Self::Process>;

    /// The current status.
    fn any_progress(&self) -> (status: WorldStatus)
        ensures
            status == self.erased().status,
    ;

    /// Starts the world, as [`World::start`] does.
    fn any_start(&mut self) -> (started: Result<Self::Process, WorldError>)
        ensures
            final(self).erased() == old(self).erased().started(),
            match started {
                Ok(f) => old(self).erased().start_error() is None && old(self).erased().process
                    == Some(f),
                Err(e) => old(self).erased().start_error() == Some(e),
            },
    ;

    /// Stops the world, as [`World::stop`] does.
    fn any_stop(&mut self) -> (stopped: Result<(), WorldError>)
        ensures
            final(self).erased() == old(self).erased().stopped(),
            stopped is Ok <==> old(self).erased().status is Running,
            stopped is Err ==> stopped == Err::<(), WorldError>(WorldError::NotRunning),
    ;

    /// Waits for the result, as [`World::status`] does.
    fn any_status(&mut self) -> (waited: Option<Result<Self::Opaque, WorldError>>)
        ensures
            waited == old(self).erased().waited(),
            final(self).erased() == old(self).erased().collected(),
    ;
}

impl<R, F> AnyWorld for World<R, F> {
    type Process = F;

    type Opaque = R;

    open spec fn erased(&self) -> WorldView<R, F> {
        self@
    }

    fn any_progress(&self) -> (status: WorldStatus) {
        self.progress()
    }

    fn any_start(&mut self) -> (started: Result<F, WorldError>) {
        self.start()
    }

    fn any_stop(&mut self) -> (stopped: Result<(), WorldError>) {
        self.stop()
    }

    fn any_status(&mut self) -> (waited: Option<Result<R, WorldError>>) {
        self.status()
    }
}

} // verus!
