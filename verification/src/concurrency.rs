//! Rules of the concurrency primitives: threads, shared references, mutexes, channels,
//! semaphores, deques and conditions.
//!
//! A primitive's state is changed by one thread at a time. An operation that may block is a step:
//! it either completes, or leaves the state as it is and says that its thread has to wait and try
//! again. Values that travel through the primitives are addresses; 0 is null.

use std::collections::VecDeque;
use vstd::prelude::*;

verus! {

/// Marks a thread handle.
pub const MAGIC_THREAD: u64 = 0xDEAD_BEEF_0000_0001;

/// Milliseconds between two looks at the number of active threads.
pub const WAIT_INTERVAL_MILLIS: u64 = 10;

// ---------------------------------------------------------------------------
// Threads
// ---------------------------------------------------------------------------

/// Number of threads that were spawned and not joined yet.
pub struct Threads {
    pub active: u64,
}

/// What a thread that waits for all others does next.
#[derive(Clone, Copy, PartialEq, Eq, Structural, Debug)]
pub enum WaitStep {
    Done,
    Sleep(u64),
}

impl Threads {
    /// No thread is active.
    pub fn new() -> (t: Threads)
        ensures
            t.active == 0,
    {
        Threads { active: 0 }
    }

    /// Whether a thread is to be started for a closure; a null closure starts none.
    pub fn rayzor_thread_spawn(&mut self, closure: usize) -> (start: bool)
        requires
            old(self).active < u64::MAX,
        ensures
            start == (closure != 0),
            final(self).active == old(self).active + if start {
                1int
            } else {
                0
            },
    {
        if closure == 0 {
            return false;
        }
        self.active = self.active + 1;
        true
    }

    /// Result of a joined thread as an address: what its closure returned, -1 where it did not
    /// return; 0 for a null handle.
    pub fn rayzor_thread_join(&mut self, handle: usize, outcome: Option<i32>) -> (result: usize)
        requires
            handle != 0 ==> old(self).active > 0,
        ensures
            handle == 0 ==> result == 0 && final(self).active == old(self).active,
            handle != 0 ==> {
                &&& result == (match outcome {
                    Some(r) => r,
                    None => -1i32,
                }) as usize
                &&& final(self).active == old(self).active - 1
            },
    {
        if handle == 0 {
            return 0;
        }
        self.active = self.active - 1;
        let result: i32 = match outcome {
            Some(r) => r,
            None => -1,
        };
        #[verifier::truncate]
        (result as usize)
    }

    /// Number of active threads.
    pub fn rayzor_active_thread_count(&self) -> (n: u64)
        ensures
            n == self.active,
    {
        self.active
    }

    /// Waits until no thread is active.
    pub fn rayzor_wait_all_threads(&self) -> (step: WaitStep)
        ensures
            step == (if self.active == 0 {
                WaitStep::Done
            } else {
                WaitStep::Sleep(WAIT_INTERVAL_MILLIS)
            }),
    {
        if self.active == 0 {
            WaitStep::Done
        } else {
            WaitStep::Sleep(WAIT_INTERVAL_MILLIS)
        }
    }

    /// Forgets all threads.
    pub fn rayzor_jit_cleanup(&mut self)
        ensures
            final(self).active == 0,
    {
        self.active = 0;
    }
}

/// Whether a thread is known to have finished: only the null handle's is.
pub fn rayzor_thread_is_finished(handle: usize) -> (r: bool)
    ensures
        r == (handle == 0),
{
    handle == 0
}

/// Whether a thread is known to have finished.
pub fn sys_thread_is_finished(handle: usize) -> (r: bool)
    ensures
        r == (handle == 0),
{
    rayzor_thread_is_finished(handle)
}

/// Milliseconds to sleep; none unless there are some.
pub fn rayzor_thread_sleep(millis: i32) -> (sleep: Option<u64>)
    ensures
        sleep == (if millis > 0 {
            Some(millis as u64)
        } else {
            None
        }),
{
    if millis > 0 {
        Some(millis as u64)
    } else {
        None
    }
}

/// Number of a thread, folded from the text of its identifier.
pub open spec fn id_fold(text: Seq<u8>) -> int
    decreases text.len(),
{
    if text.len() == 0 {
        0
    } else {
        (id_fold(text.drop_last()) * 31 + text.last()) % 0x1_0000_0000_0000_0000
    }
}

/// Number of the thread whose identifier prints as `text`.
pub fn rayzor_thread_current_id(text: &[u8]) -> (id: u64)
    ensures
        id == id_fold(text@),
{
    let mut acc: u64 = 0;
    let mut i: usize = 0;
    assert(text@.take(0) =~= Seq::empty());
    while i < text.len()
        invariant
            i <= text@.len(),
            acc == id_fold(text@.take(i as int)),
        decreases text@.len() - i,
    {
        let ghost was = acc as int;
        let b: u64 = text[i] as u64;
        acc = acc.wrapping_mul(31).wrapping_add(b);
        proof {
            assert(text@.take(i + 1).drop_last() =~= text@.take(i as int));
            let m = 0x1_0000_0000_0000_0000int;
            assert(acc == ((was * 31) % m + b) % m);
            vstd::arithmetic::div_mod::lemma_add_mod_noop(was * 31, b as int, m);
            vstd::arithmetic::div_mod::lemma_add_mod_noop((was * 31) % m, b as int, m);
            vstd::arithmetic::div_mod::lemma_mod_twice(was * 31, m);
        }
        i = i + 1;
    }
    assert(text@.take(i as int) =~= text@);
    acc
}

/// A thread handle with what it is validated by.
pub struct ThreadHandle {
    pub magic: u64,
    pub thread_id: u64,
    pub joined: bool,
}

/// Why a thread handle is refused.
#[derive(Clone, Copy, PartialEq, Eq, Structural, Debug)]
pub enum HandleError {
    /// It is no thread handle.
    MagicMismatch,
    /// It was joined before.
    AlreadyJoined,
}

impl ThreadHandle {
    /// Whether this is the handle of a thread that was not joined yet.
    pub fn validate(&self) -> (r: Result<(), HandleError>)
        ensures
            r == (if self.magic != MAGIC_THREAD {
                Err::<(), HandleError>(HandleError::MagicMismatch)
            } else if self.joined {
                Err::<(), HandleError>(HandleError::AlreadyJoined)
            } else {
                Ok::<(), HandleError>(())
            }),
    {
        if self.magic != MAGIC_THREAD {
            return Err(HandleError::MagicMismatch);
        }
        if self.joined {
            return Err(HandleError::AlreadyJoined);
        }
        Ok(())
    }
}

// ---------------------------------------------------------------------------
// Shared references
// ---------------------------------------------------------------------------

/// A shared value and the number of references to it.
#[derive(Clone, Copy)]
pub struct ArcCell {
    pub value: usize,
    pub count: u64,
}

/// Shared values, named by handles; 0 is the null handle.
pub struct ArcTable {
    pub cells: Vec<ArcCell>,
}

impl ArcTable {
    /// The handle is null, or names a value that is still referred to.
    pub open spec fn valid(&self, arc: usize) -> bool {
        arc == 0 || (arc <= self.cells@.len() && self.cells@[arc - 1].count > 0)
    }

    /// No shared values.
    pub fn new() -> (t: ArcTable)
        ensures
            t.cells@.len() == 0,
    {
        ArcTable { cells: Vec::new() }
    }

    /// Shares a value; null for a null value.
    pub fn rayzor_arc_init(&mut self, value: usize) -> (arc: usize)
        requires
            old(self).cells@.len() < usize::MAX,
        ensures
            if value == 0 {
                arc == 0 && final(self).cells@ == old(self).cells@
            } else {
                &&& arc == old(self).cells@.len() + 1
                &&& final(self).cells@ == old(self).cells@.push(ArcCell { value, count: 1 })
            },
    {
        if value == 0 {
            return 0;
        }
        self.cells.push(ArcCell { value, count: 1 });
        self.cells.len()
    }

    /// One more reference to the same value; null for a null reference.
    pub fn rayzor_arc_clone(&mut self, arc: usize) -> (r: usize)
        requires
            old(self).valid(arc),
            arc != 0 ==> old(self).cells@[arc - 1].count < u64::MAX,
        ensures
            r == arc,
            final(self).cells@ == (if arc == 0 {
                old(self).cells@
            } else {
                let c = old(self).cells@[arc - 1];
                old(self).cells@.update(
                    arc - 1,
                    ArcCell { value: c.value, count: (c.count + 1) as u64 },
                )
            }),
    {
        if arc == 0 {
            return 0;
        }
        let c: ArcCell = self.cells[arc - 1];
        self.cells.set(arc - 1, ArcCell { value: c.value, count: c.count + 1 });
        arc
    }

    /// The shared value; null for a null reference.
    pub fn rayzor_arc_get(&self, arc: usize) -> (value: usize)
        requires
            self.valid(arc),
        ensures
            value == (if arc == 0 {
                0
            } else {
                self.cells@[arc - 1].value
            }),
    {
        if arc == 0 {
            0
        } else {
            self.cells[arc - 1].value
        }
    }

    /// Number of references to the value; 0 for a null reference.
    pub fn rayzor_arc_strong_count(&self, arc: usize) -> (n: u64)
        requires
            self.valid(arc),
        ensures
            n == (if arc == 0 {
                0
            } else {
                self.cells@[arc - 1].count
            }),
    {
        if arc == 0 {
            0
        } else {
            self.cells[arc - 1].count
        }
    }

    /// Takes the value out where this is the only reference; null and no change where it is not.
    pub fn rayzor_arc_try_unwrap(&mut self, arc: usize) -> (value: usize)
        requires
            old(self).valid(arc),
        ensures
            if arc != 0 && old(self).cells@[arc - 1].count == 1 {
                &&& value == old(self).cells@[arc - 1].value
                &&& final(self).cells@ == old(self).cells@.update(
                    arc - 1,
                    ArcCell { value, count: 0 },
                )
            } else {
                value == 0 && final(self).cells@ == old(self).cells@
            },
    {
        if arc == 0 {
            return 0;
        }
        let c: ArcCell = self.cells[arc - 1];
        if c.count == 1 {
            self.cells.set(arc - 1, ArcCell { value: c.value, count: 0 });
            c.value
        } else {
            0
        }
    }

    /// Address of the shared cell; 0 for a null reference.
    pub fn rayzor_arc_as_ptr(&self, arc: usize) -> (addr: u64)
        requires
            self.valid(arc),
        ensures
            addr == arc,
    {
        arc as u64
    }
}

// ---------------------------------------------------------------------------
// Mutexes
// ---------------------------------------------------------------------------

/// A mutex and the value that it protects.
pub struct MutexState {
    pub locked: bool,
    pub value: usize,
}

/// Outcome of an attempt to take a lock.
#[derive(Clone, Copy, PartialEq, Eq, Structural, Debug)]
pub enum LockStep {
    /// There is no lock.
    Null,
    /// The lock is held now.
    Acquired,
    /// Another thread holds it.
    Wait,
}

/// An unlocked mutex.
pub fn rayzor_mutex_init(value: usize) -> (m: MutexState)
    ensures
        m == (MutexState { locked: false, value }),
{
    MutexState { locked: false, value }
}

/// An unlocked mutex without a value.
pub fn sys_mutex_alloc() -> (m: MutexState)
    ensures
        m == (MutexState { locked: false, value: 0 }),
{
    MutexState { locked: false, value: 0 }
}

/// Takes a mutex, or waits for it.
pub fn rayzor_mutex_lock(mutex: Option<&mut MutexState>) -> (step: LockStep)
    ensures
        match mutex {
            None => step is Null,
            Some(m) => {
                &&& (*final(m)).value == (*m).value
                &&& (*final(m)).locked
                &&& step == if (*m).locked {
                    LockStep::Wait
                } else {
                    LockStep::Acquired
                }
            },
        },
{
    match mutex {
        None => LockStep::Null,
        Some(m) => {
            if m.locked {
                LockStep::Wait
            } else {
                m.locked = true;
                LockStep::Acquired
            }
        },
    }
}

/// Takes a mutex if no one holds it.
pub fn rayzor_mutex_try_lock(mutex: Option<&mut MutexState>) -> (ok: bool)
    ensures
        match mutex {
            None => !ok,
            Some(m) => {
                &&& (*final(m)).value == (*m).value
                &&& (*final(m)).locked
                &&& ok == !(*m).locked
            },
        },
{
    match rayzor_mutex_lock(mutex) {
        LockStep::Acquired => true,
        _ => false,
    }
}

/// Whether a mutex is held; a null mutex is not.
pub fn rayzor_mutex_is_locked(mutex: Option<&MutexState>) -> (r: bool)
    ensures
        r == (mutex matches Some(m) && m.locked),
{
    match mutex {
        None => false,
        Some(m) => m.locked,
    }
}

/// The value that a held mutex protects; null for a null mutex.
pub fn rayzor_mutex_guard_get(guard: Option<&MutexState>) -> (value: usize)
    ensures
        value == (match guard {
            Some(m) => m.value,
            None => 0,
        }),
{
    match guard {
        None => 0,
        Some(m) => m.value,
    }
}

/// Gives a mutex back.
pub fn rayzor_mutex_unlock(guard: &mut MutexState)
    requires
        old(guard).locked,
    ensures
        !final(guard).locked,
        final(guard).value == old(guard).value,
{
    guard.locked = false;
}

/// An unlocked mutex without a value.
pub fn sys_mutex_new() -> (m: MutexState)
    ensures
        m == (MutexState { locked: false, value: 0 }),
{
    sys_mutex_alloc()
}

/// Takes a mutex, or waits for it.
pub fn sys_mutex_acquire(mutex: Option<&mut MutexState>) -> (step: LockStep)
    ensures
        match mutex {
            None => step is Null,
            Some(m) => {
                &&& (*final(m)).value == (*m).value
                &&& (*final(m)).locked
                &&& step == if (*m).locked {
                    LockStep::Wait
                } else {
                    LockStep::Acquired
                }
            },
        },
{
    rayzor_mutex_lock(mutex)
}

/// Takes a mutex if no one holds it.
pub fn sys_mutex_try_acquire(mutex: Option<&mut MutexState>) -> (ok: bool)
    ensures
        match mutex {
            None => !ok,
            Some(m) => {
                &&& (*final(m)).value == (*m).value
                &&& (*final(m)).locked
                &&& ok == !(*m).locked
            },
        },
{
    rayzor_mutex_try_lock(mutex)
}

/// Gives a mutex back.
pub fn sys_mutex_release(mutex: &mut MutexState)
    requires
        old(mutex).locked,
    ensures
        !final(mutex).locked,
        final(mutex).value == old(mutex).value,
{
    rayzor_mutex_unlock(mutex)
}

// ---------------------------------------------------------------------------
// Channels
// ---------------------------------------------------------------------------

/// A channel: values under way, the number of them that it has room for (0 for any number), and
/// whether it was closed.
pub struct Channel {
    pub buffer: VecDeque<usize>,
    pub capacity: usize,
    pub closed: bool,
}

/// Outcome of an attempt to send.
#[derive(Clone, Copy, PartialEq, Eq, Structural, Debug)]
pub enum SendStep {
    /// There is no channel.
    Null,
    /// The channel is full: wait until it is not, or until it is closed.
    Wait,
    /// The channel is closed; the value is dropped.
    Closed,
    /// The value is under way; one receiver is woken.
    Sent,
}

/// Outcome of an attempt to receive.
#[derive(Clone, Copy, PartialEq, Eq, Structural, Debug)]
pub enum ReceiveStep {
    /// Nothing is under way: wait until something is, or until the channel is closed.
    Wait,
    /// There is no channel, or it is closed and nothing is under way: the result is null.
    Closed,
    /// A value; one sender is woken.
    Received(usize),
}

impl Channel {
    /// A bounded channel never holds more than its capacity.
    pub open spec fn wf(&self) -> bool {
        self.capacity > 0 ==> self.buffer@.len() <= self.capacity
    }

    /// A bounded channel holds as much as it can.
    pub open spec fn full(&self) -> bool {
        self.capacity > 0 && self.buffer@.len() >= self.capacity
    }
}

/// An open channel without values. A capacity that is not positive stands for any number.
pub fn rayzor_channel_init(capacity: i32) -> (c: Channel)
    ensures
        c.wf(),
        c.buffer@ == Seq::<usize>::empty(),
        c.capacity == (if capacity <= 0 {
            0
        } else {
            capacity as int
        }),
        !c.closed,
{
    Channel {
        buffer: VecDeque::new(),
        capacity: if capacity <= 0 {
            0
        } else {
            capacity as usize
        },
        closed: false,
    }
}

/// Sends a value, or waits while the channel is full.
pub fn rayzor_channel_send(channel: Option<&mut Channel>, value: usize) -> (step: SendStep)
    requires
        channel matches Some(c) ==> (*c).wf(),
    ensures
        match channel {
            None => step is Null,
            Some(c) => {
                &&& (*final(c)).wf()
                &&& (*final(c)).capacity == (*c).capacity
                &&& (*final(c)).closed == (*c).closed
                &&& step == if (*c).closed {
                    SendStep::Closed
                } else if (*c).full() {
                    SendStep::Wait
                } else {
                    SendStep::Sent
                }
                &&& (*final(c)).buffer@ == if step is Sent {
                    (*c).buffer@.push(value)
                } else {
                    (*c).buffer@
                }
            },
        },
{
    match channel {
        None => SendStep::Null,
        Some(c) => {
            if c.closed {
                return SendStep::Closed;
            }
            if c.capacity > 0 && c.buffer.len() >= c.capacity {
                return SendStep::Wait;
            }
            c.buffer.push_back(value);
            SendStep::Sent
        },
    }
}

/// Sends a value unless the channel is closed or full.
pub fn rayzor_channel_try_send(channel: Option<&mut Channel>, value: usize) -> (ok: bool)
    requires
        channel matches Some(c) ==> (*c).wf(),
    ensures
        match channel {
            None => !ok,
            Some(c) => {
                &&& (*final(c)).wf()
                &&& (*final(c)).capacity == (*c).capacity
                &&& (*final(c)).closed == (*c).closed
                &&& ok == (!(*c).closed && !(*c).full())
                &&& (*final(c)).buffer@ == if ok {
                    (*c).buffer@.push(value)
                } else {
                    (*c).buffer@
                }
            },
        },
{
    match rayzor_channel_send(channel, value) {
        SendStep::Sent => true,
        _ => false,
    }
}

/// Receives the value that was sent first, or waits for one; nothing more comes from a closed
/// channel that is empty.
pub fn rayzor_channel_receive(channel: Option<&mut Channel>) -> (step: ReceiveStep)
    requires
        channel matches Some(c) ==> (*c).wf(),
    ensures
        match channel {
            None => step is Closed,
            Some(c) => {
                &&& (*final(c)).wf()
                &&& (*final(c)).capacity == (*c).capacity
                &&& (*final(c)).closed == (*c).closed
                &&& step == if (*c).buffer@.len() > 0 {
                    ReceiveStep::Received((*c).buffer@[0])
                } else if (*c).closed {
                    ReceiveStep::Closed
                } else {
                    ReceiveStep::Wait
                }
                &&& (*final(c)).buffer@ == if (*c).buffer@.len() > 0 {
                    (*c).buffer@.drop_first()
                } else {
                    (*c).buffer@
                }
            },
        },
{
    match channel {
        None => ReceiveStep::Closed,
        Some(c) => match c.buffer.pop_front() {
            Some(value) => ReceiveStep::Received(value),
            None => if c.closed {
                ReceiveStep::Closed
            } else {
                ReceiveStep::Wait
            },
        },
    }
}

/// Receives the value that was sent first; null where there is none.
pub fn rayzor_channel_try_receive(channel: Option<&mut Channel>) -> (value: usize)
    requires
        channel matches Some(c) ==> (*c).wf(),
    ensures
        match channel {
            None => value == 0,
            Some(c) => {
                &&& (*final(c)).wf()
                &&& (*final(c)).capacity == (*c).capacity
                &&& (*final(c)).closed == (*c).closed
                &&& if (*c).buffer@.len() > 0 {
                    value == (*c).buffer@[0] && (*final(c)).buffer@ == (*c).buffer@.drop_first()
                } else {
                    value == 0 && (*final(c)).buffer@ == (*c).buffer@
                }
            },
        },
{
    match rayzor_channel_receive(channel) {
        ReceiveStep::Received(value) => value,
        _ => 0,
    }
}

/// Closes a channel; what is under way stays.
pub fn rayzor_channel_close(channel: &mut Channel)
    requires
        old(channel).wf(),
    ensures
        final(channel).wf(),
        final(channel).closed,
        final(channel).buffer@ == old(channel).buffer@,
        final(channel).capacity == old(channel).capacity,
{
    channel.closed = true;
}

/// Whether a channel is closed; a null channel is.
pub fn rayzor_channel_is_closed(channel: Option<&Channel>) -> (r: bool)
    ensures
        r == (channel matches Some(c) ==> c.closed),
{
    match channel {
        None => true,
        Some(c) => c.closed,
    }
}

/// Number of values under way, as a 32-bit integer; 0 for a null channel.
pub fn rayzor_channel_len(channel: Option<&Channel>) -> (n: i32)
    ensures
        n == (match channel {
            Some(c) => c.buffer@.len() as i32,
            None => 0i32,
        }),
{
    match channel {
        None => 0,
        Some(c) => {
            let n: usize = c.buffer.len();
            #[verifier::truncate]
            (n as i32)
        },
    }
}

/// Capacity of a channel: -1 for any number, 0 for a null channel.
pub fn rayzor_channel_capacity(channel: Option<&Channel>) -> (n: i32)
    ensures
        n == (match channel {
            Some(c) => if c.capacity == 0 {
                -1i32
            } else {
                c.capacity as i32
            },
            None => 0i32,
        }),
{
    match channel {
        None => 0,
        Some(c) => if c.capacity == 0 {
            -1
        } else {
            #[verifier::truncate]
            (c.capacity as i32)
        },
    }
}

/// Whether nothing is under way; so it is in a null channel.
pub fn rayzor_channel_is_empty(channel: Option<&Channel>) -> (r: bool)
    ensures
        r == (channel matches Some(c) ==> c.buffer@.len() == 0),
{
    match channel {
        None => true,
        Some(c) => c.buffer.len() == 0,
    }
}

/// Whether a bounded channel holds as much as it can.
pub fn rayzor_channel_is_full(channel: Option<&Channel>) -> (r: bool)
    ensures
        r == (channel matches Some(c) && c.full()),
{
    match channel {
        None => false,
        Some(c) => c.capacity > 0 && c.buffer.len() >= c.capacity,
    }
}

/// Values are received in the order in which they were sent: what is sent behind others comes
/// out after all of them.
pub proof fn law_channel_is_fifo(buffer: Seq<usize>, value: usize, k: nat)
    requires
        k <= buffer.len(),
    ensures
        buffer.push(value).skip(k as int).len() > 0,
        k < buffer.len() ==> buffer.push(value).skip(k as int)[0] == buffer[k as int],
        k == buffer.len() ==> buffer.push(value).skip(k as int)[0] == value,
        buffer.push(value).skip(k as int).drop_first() == buffer.push(value).skip(k as int + 1),
{
    assert(buffer.push(value).skip(k as int).drop_first() =~= buffer.push(value).skip(
        k as int + 1,
    ));
}

// ---------------------------------------------------------------------------
// Semaphores
// ---------------------------------------------------------------------------

/// A counting semaphore.
pub struct Semaphore {
    pub count: i32,
}

/// What a thread knows of the time that it may wait.
#[derive(Clone, Copy, PartialEq, Eq, Structural, Debug)]
pub enum Patience {
    /// It does not wait.
    Never,
    /// There is time left.
    Left,
    /// The time is up.
    Expired,
}

impl Semaphore {
    /// The count is never negative.
    pub open spec fn wf(&self) -> bool {
        self.count >= 0
    }
}

/// A semaphore with a count; a negative one stands for 0.
pub fn rayzor_semaphore_init(initial_value: i32) -> (s: Semaphore)
    ensures
        s.wf(),
        s.count == (if initial_value > 0 {
            initial_value as int
        } else {
            0
        }),
{
    Semaphore {
        count: if initial_value > 0 {
            initial_value
        } else {
            0
        },
    }
}

/// Counts down, or waits while the count is 0.
pub fn rayzor_semaphore_acquire(semaphore: Option<&mut Semaphore>) -> (step: LockStep)
    requires
        semaphore matches Some(s) ==> (*s).wf(),
    ensures
        match semaphore {
            None => step is Null,
            Some(s) => {
                &&& (*final(s)).wf()
                &&& if (*s).count == 0 {
                    step is Wait && (*final(s)).count == 0
                } else {
                    step is Acquired && (*final(s)).count == (*s).count - 1
                }
            },
        },
{
    match semaphore {
        None => LockStep::Null,
        Some(s) => {
            if s.count == 0 {
                return LockStep::Wait;
            }
            s.count = s.count - 1;
            LockStep::Acquired
        },
    }
}

/// Counts down, or waits while the count is 0; the answer once there is one is true, and false for
/// null.
pub fn sys_lock_wait(semaphore: Option<&mut Semaphore>) -> (answer: Option<bool>)
    requires
        semaphore matches Some(s) ==> (*s).wf(),
    ensures
        match semaphore {
            None => answer == Some(false),
            Some(s) => {
                &&& (*final(s)).wf()
                &&& if (*s).count == 0 {
                    answer is None && (*final(s)).count == 0
                } else {
                    answer == Some(true) && (*final(s)).count == (*s).count - 1
                }
            },
        },
{
    match rayzor_semaphore_acquire(semaphore) {
        LockStep::Null => Some(false),
        LockStep::Acquired => Some(true),
        LockStep::Wait => None,
    }
}

/// Counts down if the count is not 0; otherwise waits as long as there is time.
pub fn rayzor_semaphore_try_acquire(
    semaphore: Option<&mut Semaphore>,
    patience: Patience,
) -> (step: Option<bool>)
    requires
        semaphore matches Some(s) ==> (*s).wf(),
    ensures
        match semaphore {
            None => step == Some(false),
            Some(s) => {
                &&& (*final(s)).wf()
                &&& if (*s).count > 0 {
                    step == Some(true) && (*final(s)).count == (*s).count - 1
                } else {
                    &&& (*final(s)).count == (*s).count
                    &&& step == if patience is Left {
                        None::<bool>
                    } else {
                        Some(false)
                    }
                }
            },
        },
{
    match rayzor_semaphore_acquire(semaphore) {
        LockStep::Null => Some(false),
        LockStep::Acquired => Some(true),
        LockStep::Wait => match patience {
            Patience::Left => None,
            _ => Some(false),
        },
    }
}

/// Counts down if the count is not 0.
pub fn sys_semaphore_try_acquire_nowait(semaphore: Option<&mut Semaphore>) -> (ok: bool)
    requires
        semaphore matches Some(s) ==> (*s).wf(),
    ensures
        match semaphore {
            None => !ok,
            Some(s) => {
                &&& (*final(s)).wf()
                &&& ok == ((*s).count > 0)
                &&& (*final(s)).count == (*s).count - if ok {
                    1int
                } else {
                    0
                }
            },
        },
{
    match rayzor_semaphore_try_acquire(semaphore, Patience::Never) {
        Some(ok) => ok,
        None => false,
    }
}

/// Counts up; one waiting thread is woken.
pub fn rayzor_semaphore_release(semaphore: &mut Semaphore)
    requires
        old(semaphore).wf(),
        old(semaphore).count < i32::MAX,
    ensures
        final(semaphore).wf(),
        final(semaphore).count == old(semaphore).count + 1,
{
    semaphore.count = semaphore.count + 1;
}

/// The count; 0 for a null semaphore.
pub fn rayzor_semaphore_count(semaphore: Option<&Semaphore>) -> (n: i32)
    ensures
        n == (match semaphore {
            Some(s) => s.count,
            None => 0,
        }),
{
    match semaphore {
        None => 0,
        Some(s) => s.count,
    }
}

// ---------------------------------------------------------------------------
// Deques
// ---------------------------------------------------------------------------

/// A double-ended queue.
pub struct Deque {
    pub items: VecDeque<usize>,
}

/// Outcome of taking from a deque.
#[derive(Clone, Copy, PartialEq, Eq, Structural, Debug)]
pub enum PopStep {
    /// It is empty: wait for an item.
    Wait,
    /// The item; null where there is none.
    Item(usize),
}

/// An empty deque.
pub fn sys_deque_alloc() -> (d: Deque)
    ensures
        d.items@ == Seq::<usize>::empty(),
{
    Deque { items: VecDeque::new() }
}

/// Adds an item at the end; one waiting thread is woken.
pub fn sys_deque_add(deque: &mut Deque, item: usize)
    ensures
        final(deque).items@ == old(deque).items@.push(item),
{
    deque.items.push_back(item);
}

/// Adds an item at the front; one waiting thread is woken.
pub fn sys_deque_push(deque: &mut Deque, item: usize)
    ensures
        final(deque).items@ == seq![item] + old(deque).items@,
{
    deque.items.push_front(item);
}

/// Takes the item at the front; where there is none, waits or returns null.
pub fn sys_deque_pop(deque: Option<&mut Deque>, block: bool) -> (step: PopStep)
    ensures
        match deque {
            None => step == PopStep::Item(0),
            Some(d) => if (*d).items@.len() > 0 {
                step == PopStep::Item((*d).items@[0]) && (*final(d)).items@
                    == (*d).items@.drop_first()
            } else {
                &&& (*final(d)).items@ == (*d).items@
                &&& step == if block {
                    PopStep::Wait
                } else {
                    PopStep::Item(0)
                }
            },
        },
{
    match deque {
        None => PopStep::Item(0),
        Some(d) => match d.items.pop_front() {
            Some(item) => PopStep::Item(item),
            None => if block {
                PopStep::Wait
            } else {
                PopStep::Item(0)
            },
        },
    }
}

/// What was pushed at the front is taken first, and the deque is as before.
pub proof fn law_deque_push_pop(items: Seq<usize>, item: usize)
    ensures
        (seq![item] + items)[0] == item,
        (seq![item] + items).drop_first() == items,
{
    assert((seq![item] + items).drop_first() =~= items);
}

// ---------------------------------------------------------------------------
// Conditions
// ---------------------------------------------------------------------------

/// A condition: whether its lock is held through it.
pub struct Condition {
    pub held: bool,
}

/// A condition whose lock is free.
pub fn sys_condition_alloc() -> (c: Condition)
    ensures
        !c.held,
{
    Condition { held: false }
}

/// Takes the lock of a condition, or waits for it.
pub fn sys_condition_acquire(condition: Option<&mut Condition>) -> (step: LockStep)
    ensures
        match condition {
            None => step is Null,
            Some(c) => {
                &&& (*final(c)).held
                &&& step == if (*c).held {
                    LockStep::Wait
                } else {
                    LockStep::Acquired
                }
            },
        },
{
    match condition {
        None => LockStep::Null,
        Some(c) => {
            if c.held {
                LockStep::Wait
            } else {
                c.held = true;
                LockStep::Acquired
            }
        },
    }
}

/// Takes the lock of a condition if it is free.
pub fn sys_condition_try_acquire(condition: Option<&mut Condition>) -> (ok: bool)
    ensures
        match condition {
            None => !ok,
            Some(c) => (*final(c)).held && ok == !(*c).held,
        },
{
    match sys_condition_acquire(condition) {
        LockStep::Acquired => true,
        _ => false,
    }
}

/// Gives the lock of a condition back.
pub fn sys_condition_release(condition: &mut Condition)
    ensures
        !final(condition).held,
{
    condition.held = false;
}

/// Gives the lock back to wait for a signal; whether there is anything to wait for: only a thread
/// that holds the lock waits.
pub fn sys_condition_wait(condition: Option<&mut Condition>) -> (wait: bool)
    ensures
        match condition {
            None => !wait,
            Some(c) => wait == (*c).held && !(*final(c)).held,
        },
{
    match condition {
        None => false,
        Some(c) => {
            let wait: bool = c.held;
            c.held = false;
            wait
        },
    }
}

/// The number of a thread is made of the text of its identifier, each byte added to 31 times what
/// came before, modulo 2 to the power of 64.
pub proof fn law_thread_number(text: Seq<u8>)
    ensures
        id_fold(text) == text.fold_left(0int, |v: int, c: u8| (31 * v + c)
            % 0x1_0000_0000_0000_0000),
    decreases text.len(),
{
    if text.len() > 0 {
        law_thread_number(text.drop_last());
    }
}

/// A bounded channel is full when it holds as many values as its capacity; one without a bound is
/// never full.
pub proof fn law_when_channels_are_full(c: Channel)
    ensures
        c.capacity == 0 ==> !c.full(),
        c.capacity > 0 && c.buffer@.len() == c.capacity ==> c.full(),
        c.capacity > 0 && c.buffer@.len() < c.capacity ==> !c.full(),
{
}

} // verus!
