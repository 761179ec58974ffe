use rayzor_runtime::concurrency::{
    rayzor_channel_capacity, rayzor_channel_close, rayzor_channel_init, rayzor_channel_is_closed,
    rayzor_channel_is_empty, rayzor_channel_is_full, rayzor_channel_len, rayzor_channel_receive,
    rayzor_channel_send, rayzor_channel_try_receive, rayzor_channel_try_send,
    rayzor_mutex_guard_get, rayzor_mutex_init, rayzor_mutex_is_locked, rayzor_mutex_lock,
    rayzor_mutex_try_lock, rayzor_mutex_unlock, rayzor_semaphore_acquire, rayzor_semaphore_count,
    rayzor_semaphore_init, rayzor_semaphore_release, rayzor_semaphore_try_acquire,
    rayzor_thread_sleep, sys_condition_acquire, sys_condition_alloc, sys_condition_release,
    sys_condition_try_acquire, sys_condition_wait, sys_deque_add, sys_deque_alloc, sys_deque_pop,
    sys_deque_push, sys_mutex_acquire, sys_mutex_new, sys_mutex_release, sys_mutex_try_acquire,
    ArcTable, HandleError, LockStep, Patience, PopStep, ReceiveStep, SendStep, ThreadHandle,
    Threads, WaitStep, MAGIC_THREAD,
};
use rayzor_runtime::future::{
    rayzor_future_await, rayzor_future_create, rayzor_future_is_ready, rayzor_future_poll,
    rayzor_future_then, resolve_future, AwaitStep, Callback, Future, ThenStep,
};
use rayzor_runtime::generic_vec::{
    rayzor_vec_bool_free, rayzor_vec_bool_get, rayzor_vec_bool_len, rayzor_vec_bool_new,
    rayzor_vec_bool_push, rayzor_vec_f64_free, rayzor_vec_f64_get, rayzor_vec_f64_len,
    rayzor_vec_f64_new, rayzor_vec_f64_push, rayzor_vec_f64_sort, rayzor_vec_i32_capacity,
    rayzor_vec_i32_first, rayzor_vec_i32_free, rayzor_vec_i32_get, rayzor_vec_i32_is_empty,
    rayzor_vec_i32_last, rayzor_vec_i32_len, rayzor_vec_i32_new, rayzor_vec_i32_pop,
    rayzor_vec_i32_push, rayzor_vec_i32_set, rayzor_vec_i32_sort, rayzor_vec_i32_sort_by,
    rayzor_vec_ptr_free, rayzor_vec_ptr_get, rayzor_vec_ptr_len, rayzor_vec_ptr_new,
    rayzor_vec_ptr_push,
};

// --- threads -------------------------------------------------------------

#[test]
fn test_thread_spawn_join() {
    let mut threads = Threads::new();
    assert!(threads.rayzor_thread_spawn(0x4000));
    assert_eq!(threads.rayzor_thread_join(0x8000, Some(42)), 42);
}

#[test]
fn test_arc_basic() {
    let mut arcs = ArcTable::new();
    let arc1 = arcs.rayzor_arc_init(0x1000);
    assert!(arc1 != 0);
    assert_eq!(arcs.rayzor_arc_strong_count(arc1), 1);
    let arc2 = arcs.rayzor_arc_clone(arc1);
    assert!(arc2 != 0);
    assert_eq!(arcs.rayzor_arc_strong_count(arc1), 2);
}

#[test]
fn test_channel_send_receive() {
    let mut channel = rayzor_channel_init(0);
    rayzor_channel_send(Some(&mut channel), 42);
    assert_eq!(rayzor_channel_receive(Some(&mut channel)), ReceiveStep::Received(42));
    rayzor_channel_close(&mut channel);
}

#[test]
fn thread_counts_and_sleep() {
    let mut threads = Threads::new();
    assert!(!threads.rayzor_thread_spawn(0));
    assert_eq!(threads.rayzor_active_thread_count(), 0);
    assert_eq!(threads.rayzor_wait_all_threads(), WaitStep::Done);
    assert!(threads.rayzor_thread_spawn(8));
    assert_ne!(threads.rayzor_wait_all_threads(), WaitStep::Done);
    threads.rayzor_thread_join(1, Some(0));
    assert_eq!(threads.rayzor_active_thread_count(), 0);
    assert_eq!(rayzor_thread_sleep(0), None);
    assert_eq!(rayzor_thread_sleep(-5), None);
    assert_eq!(rayzor_thread_sleep(7), Some(7));
}

#[test]
fn thread_handles_are_checked() {
    let good = ThreadHandle { magic: MAGIC_THREAD, thread_id: 1, joined: false };
    assert_eq!(good.validate(), Ok(()));
    let bad = ThreadHandle { magic: 7, thread_id: 1, joined: false };
    assert_eq!(bad.validate(), Err(HandleError::MagicMismatch));
    let gone = ThreadHandle { magic: MAGIC_THREAD, thread_id: 1, joined: true };
    assert_eq!(gone.validate(), Err(HandleError::AlreadyJoined));
}

#[test]
fn arcs_unwrap_only_when_unique() {
    let mut arcs = ArcTable::new();
    assert_eq!(arcs.rayzor_arc_init(0), 0);
    let a = arcs.rayzor_arc_init(99);
    assert_eq!(arcs.rayzor_arc_get(a), 99);
    arcs.rayzor_arc_clone(a);
    assert_eq!(arcs.rayzor_arc_try_unwrap(a), 0);
    let b = arcs.rayzor_arc_init(5);
    assert_eq!(arcs.rayzor_arc_try_unwrap(b), 5);
}

#[test]
fn mutexes_exclude() {
    let mut m = rayzor_mutex_init(17);
    assert!(!rayzor_mutex_is_locked(Some(&m)));
    assert_eq!(rayzor_mutex_lock(Some(&mut m)), LockStep::Acquired);
    assert_eq!(rayzor_mutex_lock(Some(&mut m)), LockStep::Wait);
    assert!(!rayzor_mutex_try_lock(Some(&mut m)));
    assert_eq!(rayzor_mutex_guard_get(Some(&m)), 17);
    rayzor_mutex_unlock(&mut m);
    assert!(rayzor_mutex_try_lock(Some(&mut m)));
    assert_eq!(rayzor_mutex_lock(None), LockStep::Null);

    let mut s = sys_mutex_new();
    assert_eq!(sys_mutex_acquire(Some(&mut s)), LockStep::Acquired);
    assert!(!sys_mutex_try_acquire(Some(&mut s)));
    sys_mutex_release(&mut s);
    assert!(sys_mutex_try_acquire(Some(&mut s)));
    assert!(!sys_mutex_try_acquire(None));
}

#[test]
fn channels_keep_order_and_bounds() {
    let mut c = rayzor_channel_init(2);
    assert!(rayzor_channel_is_empty(Some(&c)));
    assert!(rayzor_channel_try_send(Some(&mut c), 1));
    assert!(rayzor_channel_try_send(Some(&mut c), 2));
    assert!(!rayzor_channel_try_send(Some(&mut c), 3));
    assert!(rayzor_channel_is_full(Some(&c)));
    assert_eq!(rayzor_channel_len(Some(&c)), 2);
    assert_eq!(rayzor_channel_capacity(Some(&c)), 2);
    assert_eq!(rayzor_channel_send(Some(&mut c), 3), SendStep::Wait);
    assert_eq!(rayzor_channel_try_receive(Some(&mut c)), 1);
    assert_eq!(rayzor_channel_receive(Some(&mut c)), ReceiveStep::Received(2));
    assert_eq!(rayzor_channel_receive(Some(&mut c)), ReceiveStep::Wait);
    rayzor_channel_close(&mut c);
    assert!(rayzor_channel_is_closed(Some(&c)));
    assert_eq!(rayzor_channel_receive(Some(&mut c)), ReceiveStep::Closed);
    assert_eq!(rayzor_channel_send(Some(&mut c), 4), SendStep::Closed);
    assert!(!rayzor_channel_try_send(None, 4));
}

#[test]
fn semaphores_count() {
    let mut s = rayzor_semaphore_init(1);
    assert_eq!(rayzor_semaphore_acquire(Some(&mut s)), LockStep::Acquired);
    assert_eq!(rayzor_semaphore_acquire(Some(&mut s)), LockStep::Wait);
    assert_eq!(rayzor_semaphore_try_acquire(Some(&mut s), Patience::Never), Some(false));
    assert_eq!(rayzor_semaphore_try_acquire(Some(&mut s), Patience::Left), None);
    assert_eq!(rayzor_semaphore_try_acquire(Some(&mut s), Patience::Expired), Some(false));
    rayzor_semaphore_release(&mut s);
    assert_eq!(rayzor_semaphore_count(Some(&s)), 1);
    assert_eq!(rayzor_semaphore_try_acquire(Some(&mut s), Patience::Never), Some(true));
    assert_eq!(rayzor_semaphore_count(Some(&s)), 0);
}

#[test]
fn deques_have_two_ends() {
    let mut d = sys_deque_alloc();
    assert_eq!(sys_deque_pop(Some(&mut d), false), PopStep::Item(0));
    assert_eq!(sys_deque_pop(Some(&mut d), true), PopStep::Wait);
    sys_deque_add(&mut d, 2);
    sys_deque_add(&mut d, 3);
    sys_deque_push(&mut d, 1);
    assert_eq!(sys_deque_pop(Some(&mut d), false), PopStep::Item(1));
    assert_eq!(sys_deque_pop(Some(&mut d), true), PopStep::Item(2));
    assert_eq!(sys_deque_pop(Some(&mut d), true), PopStep::Item(3));
}

#[test]
fn conditions_hold_a_lock() {
    let mut c = sys_condition_alloc();
    assert_eq!(sys_condition_acquire(Some(&mut c)), LockStep::Acquired);
    assert!(!sys_condition_try_acquire(Some(&mut c)));
    assert!(sys_condition_wait(Some(&mut c)));
    assert!(!sys_condition_wait(None));
    let mut d = sys_condition_alloc();
    assert!(sys_condition_try_acquire(Some(&mut d)));
    sys_condition_release(&mut d);
    assert!(sys_condition_try_acquire(Some(&mut d)));
}

// --- futures -------------------------------------------------------------

/// Runs the worker that awaiting a future asks for, with `work` as the closure.
fn await_with(future: &mut Future, threads: &mut Threads, work: fn(usize) -> i32) -> i64 {
    match rayzor_future_await(Some(&mut *future), threads) {
        AwaitStep::Spawn { env_ptr, .. } => {
            let result = work(env_ptr);
            resolve_future(future, result);
        }
        AwaitStep::Ready(v) => return v,
        other => panic!("unexpected step {:?}", other),
    }
    match rayzor_future_await(Some(future), threads) {
        AwaitStep::Ready(v) => v,
        other => panic!("unexpected step {:?}", other),
    }
}

fn simple_return_42(_env: usize) -> i32 {
    42
}

fn add_env_values(env: usize) -> i32 {
    ((env >> 8) + (env & 0xff)) as i32
}

#[test]
fn test_create_and_await() {
    let mut threads = Threads::new();
    let mut handle = rayzor_future_create(0x1000, 0).unwrap();
    assert_eq!(await_with(&mut handle, &mut threads, simple_return_42), 42);
}

#[test]
fn test_lazy_not_started() {
    let mut threads = Threads::new();
    let mut handle = rayzor_future_create(0x1000, 0).unwrap();
    assert!(!rayzor_future_is_ready(Some(&handle)));
    assert_eq!(await_with(&mut handle, &mut threads, simple_return_42), 42);
    assert!(rayzor_future_is_ready(Some(&handle)));
}

#[test]
fn test_with_environment() {
    let mut threads = Threads::new();
    let mut handle = rayzor_future_create(0x1000, (10 << 8) | 20).unwrap();
    assert_eq!(await_with(&mut handle, &mut threads, add_env_values), 30);
}

#[test]
fn test_multiple_futures() {
    let mut threads = Threads::new();
    let mut h1 = rayzor_future_create(0x1000, 0).unwrap();
    let mut h2 = rayzor_future_create(0x1000, 0).unwrap();
    let r1 = await_with(&mut h1, &mut threads, simple_return_42);
    let r2 = await_with(&mut h2, &mut threads, simple_return_42);
    assert_eq!(r1 + r2, 84);
}

#[test]
fn test_null_handle() {
    let mut threads = Threads::new();
    assert_eq!(rayzor_future_await(None, &mut threads), AwaitStep::Null);
    assert_eq!(rayzor_future_poll(None), None);
    assert!(!rayzor_future_is_ready(None));
}

#[test]
fn futures_run_once_and_call_back() {
    let mut threads = Threads::new();
    assert!(rayzor_future_create(0, 0).is_none());
    let mut f = rayzor_future_create(0x1000, 7).unwrap();
    assert_eq!(rayzor_future_poll(Some(&f)), None);
    assert_eq!(
        rayzor_future_then(Some(&mut f), 0x2000, 9, &mut threads),
        ThenStep::Spawn { fn_ptr: 0x1000, env_ptr: 7 }
    );
    assert_eq!(rayzor_future_await(Some(&mut f), &mut threads), AwaitStep::Wait);
    assert_eq!(
        resolve_future(&mut f, -3),
        Some(Callback { function: 0x2000, env: 9, value: -3 })
    );
    assert_eq!(rayzor_future_poll(Some(&f)), Some(-3));
    assert_eq!(
        rayzor_future_then(Some(&mut f), 0x3000, 1, &mut threads),
        ThenStep::Call(Callback { function: 0x3000, env: 1, value: -3 })
    );
}

// --- typed vectors -------------------------------------------------------

#[test]
fn test_vec_i32_basic() {
    let mut vec = rayzor_vec_i32_new();
    assert!(rayzor_vec_i32_is_empty(Some(&vec)));

    rayzor_vec_i32_push(&mut vec, 10);
    rayzor_vec_i32_push(&mut vec, 20);
    rayzor_vec_i32_push(&mut vec, 30);

    assert_eq!(rayzor_vec_i32_len(Some(&vec)), 3);
    assert_eq!(rayzor_vec_i32_get(Some(&vec), 0), 10);
    assert_eq!(rayzor_vec_i32_get(Some(&vec), 1), 20);
    assert_eq!(rayzor_vec_i32_get(Some(&vec), 2), 30);
    assert_eq!(rayzor_vec_i32_first(Some(&vec)), 10);
    assert_eq!(rayzor_vec_i32_last(Some(&vec)), 30);

    rayzor_vec_i32_set(&mut vec, 1, 42);
    assert_eq!(rayzor_vec_i32_get(Some(&vec), 1), 42);

    let popped = rayzor_vec_i32_pop(Some(&mut vec));
    assert_eq!(popped, 30);
    assert_eq!(rayzor_vec_i32_len(Some(&vec)), 2);

    rayzor_vec_i32_free(Some(vec));
}

#[test]
fn test_vec_i32_growth() {
    let mut vec = rayzor_vec_i32_new();
    for i in 0..100 {
        rayzor_vec_i32_push(&mut vec, i);
    }
    assert_eq!(rayzor_vec_i32_len(Some(&vec)), 100);
    assert!(rayzor_vec_i32_capacity(Some(&vec)) >= 100);
    for i in 0..100 {
        assert_eq!(rayzor_vec_i32_get(Some(&vec), i as usize), i);
    }
    rayzor_vec_i32_free(Some(vec));
}

#[test]
fn test_vec_f64_basic() {
    let mut vec = rayzor_vec_f64_new();
    rayzor_vec_f64_push(&mut vec, 1.5f64.to_bits());
    rayzor_vec_f64_push(&mut vec, 2.5f64.to_bits());
    rayzor_vec_f64_push(&mut vec, 3.5f64.to_bits());

    assert_eq!(rayzor_vec_f64_len(Some(&vec)), 3);
    assert!((f64::from_bits(rayzor_vec_f64_get(Some(&vec), 0)) - 1.5).abs() < 0.001);
    assert!((f64::from_bits(rayzor_vec_f64_get(Some(&vec), 1)) - 2.5).abs() < 0.001);
    assert!((f64::from_bits(rayzor_vec_f64_get(Some(&vec), 2)) - 3.5).abs() < 0.001);

    rayzor_vec_f64_free(Some(vec));
}

#[test]
fn test_vec_ptr_basic() {
    let mut vec = rayzor_vec_ptr_new();
    let a: i32 = 10;
    let b: i32 = 20;
    let objects = [&a, &b];
    rayzor_vec_ptr_push(&mut vec, 0);
    rayzor_vec_ptr_push(&mut vec, 1);

    assert_eq!(rayzor_vec_ptr_len(Some(&vec)), 2);
    assert_eq!(*objects[rayzor_vec_ptr_get(Some(&vec), 0)], 10);
    assert_eq!(*objects[rayzor_vec_ptr_get(Some(&vec), 1)], 20);

    rayzor_vec_ptr_free(Some(vec));
}

#[test]
fn test_vec_bool_basic() {
    let mut vec = rayzor_vec_bool_new();
    rayzor_vec_bool_push(&mut vec, true);
    rayzor_vec_bool_push(&mut vec, false);
    rayzor_vec_bool_push(&mut vec, true);

    assert_eq!(rayzor_vec_bool_len(Some(&vec)), 3);
    assert!(rayzor_vec_bool_get(Some(&vec), 0));
    assert!(!rayzor_vec_bool_get(Some(&vec), 1));
    assert!(rayzor_vec_bool_get(Some(&vec), 2));

    rayzor_vec_bool_free(Some(vec));
}

#[test]
fn vectors_sort() {
    let mut v = rayzor_vec_i32_new();
    for x in [3, -1, 2, -1] {
        rayzor_vec_i32_push(&mut v, x);
    }
    rayzor_vec_i32_sort(&mut v);
    assert_eq!(v.store.items, vec![-1, -1, 2, 3]);
    rayzor_vec_i32_sort_by(&mut v, Some(|a: i32, b: i32| b - a));
    assert_eq!(v.store.items, vec![3, 2, -1, -1]);
    assert_eq!(rayzor_vec_i32_pop(None), 0);
    assert_eq!(rayzor_vec_i32_get(Some(&v), 9), 0);

    let mut f = rayzor_vec_f64_new();
    for x in [2.5f64, -0.5, 1.0e300, -7.25] {
        rayzor_vec_f64_push(&mut f, x.to_bits());
    }
    rayzor_vec_f64_sort(&mut f);
    let sorted: Vec<f64> = f.store.items.iter().map(|b| f64::from_bits(*b)).collect();
    assert_eq!(sorted, vec![-7.25, -0.5, 2.5, 1.0e300]);
}
