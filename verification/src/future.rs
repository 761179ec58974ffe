//! Lazy futures.
//!
//! A future holds a closure that does not run until someone awaits the future or registers a
//! callback. Then a worker thread runs it once and the future is resolved.

use crate::concurrency::Threads;
use vstd::prelude::*;

verus! {

/// How far a future has come.
#[derive(Clone, Copy, PartialEq, Eq, Structural, Debug)]
pub enum FutureState {
    Pending,
    Running,
    Resolved,
}

/// A future: its closure, its value once it is resolved, and the callback that is called then.
pub struct Future {
    pub state: FutureState,
    pub fn_ptr: usize,
    pub env_ptr: usize,
    pub value: i64,
    pub then_fn: usize,
    pub then_env: usize,
}

/// A call of a callback.
#[derive(Clone, Copy, PartialEq, Eq, Structural, Debug)]
pub struct Callback {
    pub function: usize,
    pub env: usize,
    pub value: i64,
}

/// What a thread that awaits a future does next.
#[derive(Clone, Copy, PartialEq, Eq, Structural, Debug)]
pub enum AwaitStep {
    /// There is no future: the result is null.
    Null,
    /// Start a worker thread on the closure, then wait.
    Spawn { fn_ptr: usize, env_ptr: usize },
    /// Wait until the future is resolved.
    Wait,
    /// The value.
    Ready(i64),
}

/// What is to be done when a callback was registered.
#[derive(Clone, Copy, PartialEq, Eq, Structural, Debug)]
pub enum ThenStep {
    /// Nothing: the worker calls the callback, or there is none.
    Nothing,
    /// Start a worker thread on the closure.
    Spawn { fn_ptr: usize, env_ptr: usize },
    /// Call the callback now.
    Call(Callback),
}

/// Order of the states.
pub open spec fn stage(s: FutureState) -> int {
    match s {
        FutureState::Pending => 0,
        FutureState::Running => 1,
        FutureState::Resolved => 2,
    }
}

/// A future after it was awaited: its closure has been started.
pub open spec fn demanded(f: Future) -> Future {
    Future {
        state: if f.state is Pending {
            FutureState::Running
        } else {
            f.state
        },
        ..f
    }
}

/// A future with a callback.
pub open spec fn with_callback(f: Future, cb_fn: usize, cb_env: usize) -> Future {
    Future { then_fn: cb_fn, then_env: cb_env, ..f }
}

/// A future whose closure has not run; none for a null closure.
pub fn rayzor_future_create(fn_ptr: usize, env_ptr: usize) -> (f: Option<Future>)
    ensures
        fn_ptr == 0 ==> f is None,
        fn_ptr != 0 ==> f == Some(
            (Future {
                state: FutureState::Pending,
                fn_ptr,
                env_ptr,
                value: 0,
                then_fn: 0,
                then_env: 0,
            }),
        ),
{
    if fn_ptr == 0 {
        return None;
    }
    Some(
        Future {
            state: FutureState::Pending,
            fn_ptr,
            env_ptr,
            value: 0,
            then_fn: 0,
            then_env: 0,
        },
    )
}

/// One step of awaiting a future.
pub fn rayzor_future_await(handle: Option<&mut Future>, threads: &mut Threads) -> (step: AwaitStep)
    requires
        old(threads).active < u64::MAX,
    ensures
        match handle {
            None => step is Null && final(threads).active == old(threads).active,
            Some(f) => {
                let was = *f;
                let now = *final(f);
                &&& now == demanded(was)
                &&& match was.state {
                    FutureState::Pending => {
                        &&& step == (AwaitStep::Spawn { fn_ptr: was.fn_ptr, env_ptr: was.env_ptr })
                        &&& final(threads).active == old(threads).active + 1
                    },
                    FutureState::Running => {
                        &&& step is Wait
                        &&& final(threads).active == old(threads).active
                    },
                    FutureState::Resolved => {
                        &&& step == AwaitStep::Ready(was.value)
                        &&& final(threads).active == old(threads).active
                    },
                }
            },
        },
{
    match handle {
        None => AwaitStep::Null,
        Some(f) => match f.state {
            FutureState::Pending => {
                f.state = FutureState::Running;
                threads.active = threads.active + 1;
                AwaitStep::Spawn { fn_ptr: f.fn_ptr, env_ptr: f.env_ptr }
            },
            FutureState::Running => AwaitStep::Wait,
            FutureState::Resolved => AwaitStep::Ready(f.value),
        },
    }
}

/// A future whose closure returned `value`.
pub open spec fn resolved_with(f: Future, value: i64) -> Future {
    Future { state: FutureState::Resolved, value, ..f }
}

/// The call of the registered callback with the value, if a callback was registered.
pub open spec fn callback_of(f: Future) -> Option<Callback> {
    if f.then_fn == 0 {
        None
    } else {
        Some(Callback { function: f.then_fn, env: f.then_env, value: f.value })
    }
}

/// Takes note of what the closure returned; the callback to call, if one was registered.
pub fn resolve_future(future: &mut Future, result: i32) -> (callback: Option<Callback>)
    requires
        old(future).state is Running,
    ensures
        *final(future) == resolved_with(*old(future), result as i64),
        callback == callback_of(*final(future)),
{
    future.value = result as i64;
    future.state = FutureState::Resolved;
    if future.then_fn == 0 {
        None
    } else {
        Some(
            Callback { function: future.then_fn, env: future.then_env, value: result as i64 },
        )
    }
}

/// A worker thread is done.
pub fn finish_worker(threads: &mut Threads)
    requires
        old(threads).active > 0,
    ensures
        final(threads).active == old(threads).active - 1,
{
    threads.active = threads.active - 1;
}

/// Registers a callback. A null future or callback changes nothing.
pub fn rayzor_future_then(
    handle: Option<&mut Future>,
    cb_fn: usize,
    cb_env: usize,
    threads: &mut Threads,
) -> (step: ThenStep)
    requires
        old(threads).active < u64::MAX,
    ensures
        match handle {
            None => step is Nothing && final(threads).active == old(threads).active,
            Some(f) => {
                let was = *f;
                let now = *final(f);
                if cb_fn == 0 {
                    step is Nothing && now == was && final(threads).active == old(threads).active
                } else {
                    &&& now == demanded(with_callback(was, cb_fn, cb_env))
                    &&& match was.state {
                        FutureState::Pending => {
                            &&& step == (ThenStep::Spawn {
                                fn_ptr: was.fn_ptr,
                                env_ptr: was.env_ptr,
                            })
                            &&& final(threads).active == old(threads).active + 1
                        },
                        FutureState::Running => {
                            &&& step is Nothing
                            &&& final(threads).active == old(threads).active
                        },
                        FutureState::Resolved => {
                            &&& step == ThenStep::Call(callback_of(now)->Some_0)
                            &&& final(threads).active == old(threads).active
                        },
                    }
                }
            },
        },
{
    match handle {
        None => ThenStep::Nothing,
        Some(f) => {
            if cb_fn == 0 {
                return ThenStep::Nothing;
            }
            f.then_fn = cb_fn;
            f.then_env = cb_env;
            match f.state {
                FutureState::Pending => {
                    f.state = FutureState::Running;
                    threads.active = threads.active + 1;
                    ThenStep::Spawn { fn_ptr: f.fn_ptr, env_ptr: f.env_ptr }
                },
                FutureState::Running => ThenStep::Nothing,
                FutureState::Resolved => ThenStep::Call(
                    Callback { function: cb_fn, env: cb_env, value: f.value },
                ),
            }
        },
    }
}

/// The value of a future that is resolved.
pub fn rayzor_future_poll(handle: Option<&Future>) -> (value: Option<i64>)
    ensures
        value == (match handle {
            Some(f) => if f.state is Resolved {
                Some(f.value)
            } else {
                None
            },
            None => None,
        }),
{
    match handle {
        None => None,
        Some(f) => match f.state {
            FutureState::Resolved => Some(f.value),
            _ => None,
        },
    }
}

/// Whether a future is resolved; a null future is not.
pub fn rayzor_future_is_ready(handle: Option<&Future>) -> (r: bool)
    ensures
        r == (handle matches Some(f) && f.state is Resolved),
{
    match handle {
        None => false,
        Some(f) => match f.state {
            FutureState::Resolved => true,
            _ => false,
        },
    }
}

/// A worker is started at most once: demanding a future moves it on from where a worker would be
/// started, and nothing moves it back.
pub proof fn law_runs_once(f: Future, cb_fn: usize, cb_env: usize, value: i64)
    ensures
        !(demanded(f).state is Pending),
        demanded(demanded(f)) == demanded(f),
        stage(f.state) <= stage(demanded(f).state),
        with_callback(f, cb_fn, cb_env).state == f.state,
        stage(f.state) <= stage(resolved_with(f, value).state),
{
}

/// A callback is called with what the closure returned, whether it was registered before the
/// future was resolved or after.
pub proof fn law_callback_gets_the_value(f: Future, cb_fn: usize, cb_env: usize, value: i64)
    requires
        cb_fn != 0,
    ensures
        callback_of(resolved_with(demanded(with_callback(f, cb_fn, cb_env)), value)) == Some(
            (Callback { function: cb_fn, env: cb_env, value }),
        ),
        callback_of(demanded(with_callback(resolved_with(f, value), cb_fn, cb_env))) == Some(
            (Callback { function: cb_fn, env: cb_env, value }),
        ),
{
}

/// Once resolved, a future stays so and keeps its value, however often it is demanded.
pub proof fn law_value_stays(f: Future, cb_fn: usize, cb_env: usize, value: i64)
    ensures
        demanded(resolved_with(f, value)) == resolved_with(f, value),
        demanded(with_callback(resolved_with(f, value), cb_fn, cb_env)).value == value,
        demanded(with_callback(resolved_with(f, value), cb_fn, cb_env)).state is Resolved,
{
}

} // verus!
