//! The event loop: one readiness selector, one scheduler, and the
//! bookkeeping that maps file descriptors to the computation awaiting them.
//!
//! Registrations are recorded twice, in registries folded into the loop
//! rather than held process-wide: a record set per interest (which
//! descriptors are registered) and a token map per interest (the token
//! recorded at registration).  The well-formedness invariant ties both to the selector's
//! own registration state, and every public operation preserves it.
//!
//! Time is the loop's own monotone clock, in nanoseconds: a wait whose
//! selector poll finds no event advances the clock by the full timeout, as
//! the blocking selector call of a live system would.

use vstd::prelude::*;
use std::collections::HashMap;
use std::collections::HashSet;
use crate::RuntimeError;
use crate::join::JoinHandle;
use crate::scheduler::Computation;
use crate::scheduler::SchedModel;
use crate::scheduler::Scheduler;
use crate::scheduler::payload_of;
use crate::scheduler::resume_model;
use crate::scheduler::sched_init;
use crate::scheduler::sched_wf;
use crate::selector::Event;
use crate::selector::Interest;
use crate::selector::Selector;
use crate::selector::SelectorModel;
use crate::selector::deregister_model;
use crate::selector::first_ready;
use crate::selector::register_model;
use crate::selector::reregister_model;
use crate::selector::select_event;
use crate::selector::select_model;

verus! {

broadcast use vstd::std_specs::hash::group_hash_axioms;

/// Mathematical state of an event loop.
#[verifier::ext_equal]
pub struct LoopModel {
    pub selector: SelectorModel,
    pub scheduler: SchedModel,
    /// Guard against re-entering the selector wait: true exactly while a
    /// caller is inside the selector poll.
    pub waiting: bool,
    /// The loop's monotone clock, nanoseconds.
    pub clock: u64,
    pub readable_records: Set<i32>,
    pub readable_tokens: Map<i32, usize>,
    pub writable_records: Set<i32>,
    pub writable_tokens: Map<i32, usize>,
}

/// The descriptor registries agree among themselves and with the selector:
/// a descriptor is in a record set exactly when the matching token map has a
/// key for it, and the selector's registrations are exactly the token maps.
pub open spec fn regs_wf(s: LoopModel) -> bool {
    &&& s.readable_records == s.readable_tokens.dom()
    &&& s.writable_records == s.writable_tokens.dom()
    &&& s.selector.reg_read == s.readable_tokens
    &&& s.selector.reg_write == s.writable_tokens
}

/// Well-formedness of a quiescent event loop: registries agree, no caller is
/// inside the selector, and the scheduler's name bookkeeping is sound.
pub open spec fn loop_wf(s: LoopModel) -> bool {
    &&& regs_wf(s)
    &&& !s.waiting
    &&& sched_wf(s.scheduler)
}

pub open spec fn loop_init() -> LoopModel {
    LoopModel {
        selector: SelectorModel {
            reg_read: Map::<i32, usize>::empty(),
            reg_write: Map::<i32, usize>::empty(),
            ready_read: Seq::<i32>::empty(),
            ready_write: Seq::<i32>::empty(),
        },
        scheduler: sched_init(),
        waiting: false,
        clock: 0,
        readable_records: Set::<i32>::empty(),
        readable_tokens: Map::<i32, usize>::empty(),
        writable_records: Set::<i32>::empty(),
        writable_tokens: Map::<i32, usize>::empty(),
    }
}

/// Registering read interest is idempotent: a descriptor already carrying a
/// read token is left untouched, first writer wins.
pub open spec fn add_read_model(s: LoopModel, fd: i32, token: usize) -> LoopModel {
    if s.readable_tokens.contains_key(fd) {
        s
    } else {
        LoopModel {
            selector: register_model(s.selector, fd, token, Interest::Readable),
            readable_records: s.readable_records.insert(fd),
            readable_tokens: s.readable_tokens.insert(fd, token),
            ..s
        }
    }
}

pub open spec fn add_write_model(s: LoopModel, fd: i32, token: usize) -> LoopModel {
    if s.writable_tokens.contains_key(fd) {
        s
    } else {
        LoopModel {
            selector: register_model(s.selector, fd, token, Interest::Writable),
            writable_records: s.writable_records.insert(fd),
            writable_tokens: s.writable_tokens.insert(fd, token),
            ..s
        }
    }
}

/// Unconditional removal: the selector registration and all four per-fd
/// entries go.
pub open spec fn del_event_model(s: LoopModel, fd: i32) -> LoopModel {
    LoopModel {
        selector: deregister_model(s.selector, fd),
        readable_records: s.readable_records.remove(fd),
        readable_tokens: s.readable_tokens.remove(fd),
        writable_records: s.writable_records.remove(fd),
        writable_tokens: s.writable_tokens.remove(fd),
        ..s
    }
}

/// The token a map stores for a descriptor, the sentinel 0 when none.
pub open spec fn stored_token(m: Map<i32, usize>, fd: i32) -> usize {
    if m.contains_key(fd) {
        m[fd]
    } else {
        0
    }
}

/// Dropping the read side alone: with both interests registered the selector
/// registration is narrowed to write-only, re-registered under the stored
/// write token, which is preserved in the write records; with read interest
/// alone this is a full removal.
pub open spec fn del_read_model(s: LoopModel, fd: i32) -> LoopModel {
    if !s.readable_records.contains(fd) {
        s
    } else if s.writable_records.contains(fd) {
        LoopModel {
            selector: reregister_model(s.selector, fd, stored_token(s.writable_tokens, fd), Interest::Writable),
            readable_records: s.readable_records.remove(fd),
            readable_tokens: s.readable_tokens.remove(fd),
            ..s
        }
    } else {
        del_event_model(s, fd)
    }
}

pub open spec fn del_write_model(s: LoopModel, fd: i32) -> LoopModel {
    if !s.writable_records.contains(fd) {
        s
    } else if s.readable_records.contains(fd) {
        LoopModel {
            selector: reregister_model(s.selector, fd, stored_token(s.readable_tokens, fd), Interest::Readable),
            writable_records: s.writable_records.remove(fd),
            writable_tokens: s.writable_tokens.remove(fd),
            ..s
        }
    } else {
        del_event_model(s, fd)
    }
}

/// Submission allocates the next name and enqueues the computation; nothing
/// runs synchronously.
pub open spec fn submit_model(s: LoopModel, computation: Computation) -> LoopModel {
    LoopModel {
        scheduler: SchedModel {
            next_name: (s.scheduler.next_name + 1) as usize,
            ready: s.scheduler.ready.push((s.scheduler.next_name, computation)),
            ..s.scheduler
        },
        ..s
    }
}

pub open spec fn clear_ready(s: LoopModel) -> LoopModel {
    LoopModel {
        scheduler: SchedModel { ready: Seq::<(usize, Computation)>::empty(), ..s.scheduler },
        ..s
    }
}

/// Running one ready computation: a finishing computation records its
/// result; an awaiting one registers its interest under its own name as the
/// token and suspends, holding the payload it will deliver once resumed.
pub open spec fn step_computation_model(s: LoopModel, name: usize, c: Computation) -> LoopModel {
    match c {
        Computation::Finish(v) => LoopModel {
            scheduler: SchedModel { results: s.scheduler.results.insert(name, v), ..s.scheduler },
            ..s
        },
        Computation::AwaitRead(fd, v) => {
            let s1 = add_read_model(s, fd, name);
            LoopModel {
                scheduler: SchedModel { suspended: s1.scheduler.suspended.insert(name, v), ..s1.scheduler },
                ..s1
            }
        },
        Computation::AwaitWrite(fd, v) => {
            let s1 = add_write_model(s, fd, name);
            LoopModel {
                scheduler: SchedModel { suspended: s1.scheduler.suspended.insert(name, v), ..s1.scheduler },
                ..s1
            }
        },
    }
}

/// Running a whole batch of ready computations, in submission order.
pub open spec fn drain_model(s: LoopModel, q: Seq<(usize, Computation)>) -> LoopModel
    decreases q.len(),
{
    if q.len() == 0 {
        s
    } else {
        drain_model(step_computation_model(s, q[0].0, q[0].1), q.drop_first())
    }
}

/// Processing one selector event: the computation the token names is marked
/// ready again, and the token record of each side whose readiness fired is
/// removed, so a new wait must re-register.
pub open spec fn handle_event_model(s: LoopModel, e: Event) -> LoopModel {
    let s1 = LoopModel { scheduler: resume_model(s.scheduler, e.token), ..s };
    let s2 = if e.readable {
        LoopModel {
            readable_records: s1.readable_records.remove(e.fd),
            readable_tokens: s1.readable_tokens.remove(e.fd),
            ..s1
        }
    } else {
        s1
    };
    if e.writable {
        LoopModel {
            writable_records: s2.writable_records.remove(e.fd),
            writable_tokens: s2.writable_tokens.remove(e.fd),
            ..s2
        }
    } else {
        s2
    }
}

/// The clock after blocking for the given timeout without an event: advanced
/// by the full budget, saturating; an absent timeout blocks until readiness,
/// which without events is forever.
pub open spec fn advance_clock(clock: u64, timeout: Option<u64>) -> u64 {
    match timeout {
        None => u64::MAX,
        Some(t) => if clock + t > u64::MAX {
            u64::MAX
        } else {
            (clock + t) as u64
        },
    }
}

/// One round of `wait`.  A caller finding the loop already waiting returns
/// at once, contributing nothing; otherwise ready computations are run first
/// when scheduling was requested under a finite budget, then the selector is
/// polled: an event is processed, and an idle poll consumes the time budget.
pub open spec fn wait_model(s: LoopModel, timeout: Option<u64>, schedule_before_wait: bool) -> LoopModel {
    if s.waiting {
        s
    } else {
        let s0 = LoopModel { waiting: true, ..s };
        let s1 = if schedule_before_wait && timeout is Some {
            drain_model(clear_ready(s0), s0.scheduler.ready)
        } else {
            s0
        };
        let s2 = LoopModel { selector: select_model(s1.selector), waiting: false, ..s1 };
        match select_event(s1.selector) {
            None => LoopModel { clock: advance_clock(s2.clock, timeout), ..s2 },
            Some(e) => handle_event_model(s2, e),
        }
    }
}

pub struct EventLoop {
    selector: Selector,
    scheduler: Scheduler,
    waiting: bool,
    clock: u64,
    readable_records: HashSet<i32>,
    readable_tokens: HashMap<i32, usize>,
    writable_records: HashSet<i32>,
    writable_tokens: HashMap<i32, usize>,
}

impl View for EventLoop {
    type V = LoopModel;

    closed spec fn view(&self) -> LoopModel {
        LoopModel {
            selector: self.selector@,
            scheduler: self.scheduler@,
            waiting: self.waiting,
            clock: self.clock,
            readable_records: self.readable_records@,
            readable_tokens: self.readable_tokens@,
            writable_records: self.writable_records@,
            writable_tokens: self.writable_tokens@,
        }
    }
}

impl EventLoop {
    pub fn new() -> (r: Result<EventLoop, RuntimeError>)
        ensures
            r matches Ok(el) && el@ == loop_init(),
    {
        let el = EventLoop {
            selector: Selector::new(),
            scheduler: Scheduler::new(),
            waiting: false,
            clock: 0,
            readable_records: HashSet::new(),
            readable_tokens: HashMap::new(),
            writable_records: HashSet::new(),
            writable_tokens: HashMap::new(),
        };
        proof {
            assert(el@ =~~= loop_init());
        }
        Ok(el)
    }

    /// Register read interest under an explicit token: the running
    /// computation's name during scheduling, the sentinel 0 otherwise.
    fn add_read_with_token(&mut self, fd: i32, token: usize)
        ensures
            final(self)@ == add_read_model(old(self)@, fd, token),
    {
        if self.readable_tokens.contains_key(&fd) {
            return ;
        }
        self.selector.register(fd, token, Interest::Readable);
        self.readable_records.insert(fd);
        self.readable_tokens.insert(fd, token);
        proof {
            assert(self@ =~~= add_read_model(old(self)@, fd, token));
        }
    }

    fn add_write_with_token(&mut self, fd: i32, token: usize)
        ensures
            final(self)@ == add_write_model(old(self)@, fd, token),
    {
        if self.writable_tokens.contains_key(&fd) {
            return ;
        }
        self.selector.register(fd, token, Interest::Writable);
        self.writable_records.insert(fd);
        self.writable_tokens.insert(fd, token);
        proof {
            assert(self@ =~~= add_write_model(old(self)@, fd, token));
        }
    }

    /// Register the descriptor for read readiness.  Idempotent: a descriptor
    /// already carrying a read token is left untouched.  Registrations made
    /// through the public surface happen outside any running computation, so
    /// the token is the sentinel 0.
    pub fn add_read_event(&mut self, fd: i32) -> (r: Result<(), RuntimeError>)
        ensures
            final(self)@ == add_read_model(old(self)@, fd, 0),
            r == Ok::<(), RuntimeError>(()),
    {
        self.add_read_with_token(fd, 0);
        Ok(())
    }

    /// Register the descriptor for write readiness; see `add_read_event`.
    pub fn add_write_event(&mut self, fd: i32) -> (r: Result<(), RuntimeError>)
        ensures
            final(self)@ == add_write_model(old(self)@, fd, 0),
            r == Ok::<(), RuntimeError>(()),
    {
        self.add_write_with_token(fd, 0);
        Ok(())
    }

    /// Deregister the descriptor unconditionally and clear all four per-fd
    /// entries.
    pub fn del_event(&mut self, fd: i32) -> (r: Result<(), RuntimeError>)
        ensures
            final(self)@ == del_event_model(old(self)@, fd),
            r == Ok::<(), RuntimeError>(()),
    {
        self.selector.deregister(fd);
        self.readable_records.remove(&fd);
        self.readable_tokens.remove(&fd);
        self.writable_records.remove(&fd);
        self.writable_tokens.remove(&fd);
        proof {
            assert(self@ =~~= del_event_model(old(self)@, fd));
        }
        Ok(())
    }

    /// Drop the descriptor's read interest, preserving a registered write
    /// interest by narrowing the selector registration to write-only.
    pub fn del_read_event(&mut self, fd: i32) -> (r: Result<(), RuntimeError>)
        ensures
            final(self)@ == del_read_model(old(self)@, fd),
            r == Ok::<(), RuntimeError>(()),
    {
        if self.readable_records.contains(&fd) {
            if self.writable_records.contains(&fd) {
                let wtoken = match self.writable_tokens.get(&fd) {
                    Some(t) => *t,
                    None => 0,
                };
                self.selector.reregister(fd, wtoken, Interest::Writable);
                self.readable_records.remove(&fd);
                self.readable_tokens.remove(&fd);
                proof {
                    assert(self@ =~~= del_read_model(old(self)@, fd));
                }
                Ok(())
            } else {
                self.del_event(fd)
            }
        } else {
            Ok(())
        }
    }

    fn step_computation(&mut self, name: usize, c: Computation)
        ensures
            final(self)@ == step_computation_model(old(self)@, name, c),
    {
        match c {
            Computation::Finish(v) => {
                self.scheduler.complete(name, v);
                proof {
                    assert(self@ =~~= step_computation_model(old(self)@, name, c));
                }
            },
            Computation::AwaitRead(fd, v) => {
                self.add_read_with_token(fd, name);
                self.scheduler.suspend(name, v);
                proof {
                    assert(self@ =~~= step_computation_model(old(self)@, name, c));
                }
            },
            Computation::AwaitWrite(fd, v) => {
                self.add_write_with_token(fd, name);
                self.scheduler.suspend(name, v);
                proof {
                    assert(self@ =~~= step_computation_model(old(self)@, name, c));
                }
            },
        }
    }

    /// Run every ready computation once, in submission order.
    fn drain_ready(&mut self)
        ensures
            final(self)@ == drain_model(clear_ready(old(self)@), old(self)@.scheduler.ready),
    {
        let q = self.scheduler.take_ready();
        proof {
            assert(self@ =~~= clear_ready(old(self)@));
        }
        let ghost target = drain_model(self@, q@);
        proof {
            assert(q@.skip(0) =~= q@);
        }
        let n = q.len();
        let mut i: usize = 0;
        while i < n
            invariant
                i <= n,
                n == q@.len(),
                drain_model(self@, q@.skip(i as int)) == target,
            decreases n - i,
        {
            let (name, c) = q[i];
            proof {
                assert(q@.skip(i as int)[0] == q@[i as int]);
                assert(q@.skip(i as int).drop_first() =~= q@.skip(i as int + 1));
            }
            self.step_computation(name, c);
            i += 1;
        }
        proof {
            assert(q@.skip(n as int) =~= Seq::<(usize, Computation)>::empty());
        }
    }

    fn handle_event(&mut self, e: Event)
        ensures
            final(self)@ == handle_event_model(old(self)@, e),
    {
        self.scheduler.resume_syscall(e.token);
        if e.readable {
            self.readable_records.remove(&e.fd);
            self.readable_tokens.remove(&e.fd);
        }
        if e.writable {
            self.writable_records.remove(&e.fd);
            self.writable_tokens.remove(&e.fd);
        }
        proof {
            assert(self@ =~~= handle_event_model(old(self)@, e));
        }
    }

    /// The wait primitive.  Exactly one caller per loop may be inside the
    /// selector poll: a caller finding the `waiting` guard set returns
    /// success at once, which keeps a herd of waiters out of the syscall.
    fn wait(&mut self, timeout: Option<u64>, schedule_before_wait: bool) -> (r: Result<(), RuntimeError>)
        ensures
            final(self)@ == wait_model(old(self)@, timeout, schedule_before_wait),
            r == Ok::<(), RuntimeError>(()),
    {
        if self.waiting {
            return Ok(());
        }
        self.waiting = true;
        if schedule_before_wait && timeout.is_some() {
            self.drain_ready();
        }
        let ev = self.selector.select();
        self.waiting = false;
        match ev {
            None => {
                let t = match timeout {
                    None => u64::MAX,
                    Some(t) => t,
                };
                self.clock = if t > u64::MAX - self.clock {
                    u64::MAX
                } else {
                    self.clock + t
                };
                proof {
                    assert(self@ =~~= wait_model(old(self)@, timeout, schedule_before_wait));
                }
            },
            Some(e) => {
                self.handle_event(e);
                proof {
                    assert(self@ =~~= wait_model(old(self)@, timeout, schedule_before_wait));
                }
            },
        }
        Ok(())
    }

    /// Poll the selector without scheduling first.
    pub fn wait_just(&mut self, timeout: Option<u64>) -> (r: Result<(), RuntimeError>)
        ensures
            final(self)@ == wait_model(old(self)@, timeout, false),
            r == Ok::<(), RuntimeError>(()),
    {
        self.wait(timeout, false)
    }

    /// Run ready computations within the budget, then poll the selector.
    pub fn wait_event(&mut self, timeout: Option<u64>) -> (r: Result<(), RuntimeError>)
        ensures
            final(self)@ == wait_model(old(self)@, timeout, true),
            r == Ok::<(), RuntimeError>(()),
    {
        self.wait(timeout, true)
    }

    /// Register read interest on the descriptor, then wait for events; used
    /// where a caller discovers a read would block and wants to drive the
    /// loop until readiness.
    pub fn wait_read_event(&mut self, fd: i32, timeout: Option<u64>) -> (r: Result<(), RuntimeError>)
        ensures
            final(self)@ == wait_model(add_read_model(old(self)@, fd, 0), timeout, true),
            r == Ok::<(), RuntimeError>(()),
    {
        self.add_read_event(fd)?;
        self.wait_event(timeout)
    }

    /// Register write interest on the descriptor, then wait for events.
    pub fn wait_write_event(&mut self, fd: i32, timeout: Option<u64>) -> (r: Result<(), RuntimeError>)
        ensures
            final(self)@ == wait_model(add_write_model(old(self)@, fd, 0), timeout, true),
            r == Ok::<(), RuntimeError>(()),
    {
        self.add_write_event(fd)?;
        self.wait_event(timeout)
    }

    /// Drain ready computations, harvest any events that became ready
    /// meanwhile with a non-blocking poll, and report how much of the budget
    /// until the absolute deadline is left.
    pub fn try_timeout_schedule(&mut self, timeout_time: u64) -> (r: Result<u64, RuntimeError>)
        ensures
            final(self)@ == wait_model(
                drain_model(clear_ready(old(self)@), old(self)@.scheduler.ready),
                Some(0u64),
                false,
            ),
            r == Ok::<u64, RuntimeError>(
                if timeout_time > final(self)@.clock {
                    (timeout_time - final(self)@.clock) as u64
                } else {
                    0u64
                },
            ),
    {
        self.drain_ready();
        self.wait_just(Some(0))?;
        let left = if timeout_time > self.clock {
            timeout_time - self.clock
        } else {
            0
        };
        Ok(left)
    }

    /// Hand the computation to the scheduler and bind a join handle to this
    /// loop under the allocated name.  The model scheduler interns names and
    /// sizes no stacks, so the requested stack size carries no effect here.
    #[allow(unused_variables)]
    pub fn submit(&mut self, computation: Computation, stack_size: Option<usize>) -> (r: Result<
        JoinHandle,
        RuntimeError,
    >)
        requires
            old(self)@.scheduler.next_name < usize::MAX,
        ensures
            final(self)@ == submit_model(old(self)@, computation),
            r matches Ok(h) && h@ == old(self)@.scheduler.next_name,
    {
        let name = self.scheduler.submit(computation);
        proof {
            assert(self@ =~~= submit_model(old(self)@, computation));
        }
        Ok(JoinHandle::new(name))
    }

    /// Non-blocking result lookup for a computation of this loop.
    pub fn get_result(&self, name: usize) -> (r: Option<usize>)
        ensures
            r == (if self@.scheduler.results.contains_key(name) {
                Some(self@.scheduler.results[name])
            } else {
                None::<usize>
            }),
    {
        self.scheduler.get_result(name)
    }

    /// The host reports the descriptor ready for reading.
    pub fn notify_readable(&mut self, fd: i32)
        ensures
            final(self)@ == (LoopModel {
                selector: SelectorModel {
                    ready_read: old(self)@.selector.ready_read.push(fd),
                    ..old(self)@.selector
                },
                ..old(self)@
            }),
    {
        self.selector.notify_readable(fd);
        proof {
            assert(self@ =~~= (LoopModel {
                selector: SelectorModel {
                    ready_read: old(self)@.selector.ready_read.push(fd),
                    ..old(self)@.selector
                },
                ..old(self)@
            }));
        }
    }

    /// The host reports the descriptor ready for writing.
    pub fn notify_writable(&mut self, fd: i32)
        ensures
            final(self)@ == (LoopModel {
                selector: SelectorModel {
                    ready_write: old(self)@.selector.ready_write.push(fd),
                    ..old(self)@.selector
                },
                ..old(self)@
            }),
    {
        self.selector.notify_writable(fd);
        proof {
            assert(self@ =~~= (LoopModel {
                selector: SelectorModel {
                    ready_write: old(self)@.selector.ready_write.push(fd),
                    ..old(self)@.selector
                },
                ..old(self)@
            }));
        }
    }

    /// The loop's clock, nanoseconds.
    pub fn now(&self) -> (r: u64)
        ensures
            r == self@.clock,
    {
        self.clock
    }

    /// Whether the descriptor is in the read records.
    pub fn readable_registered(&self, fd: i32) -> (r: bool)
        ensures
            r == self@.readable_records.contains(fd),
    {
        self.readable_records.contains(&fd)
    }

    /// Whether the descriptor is in the write records.
    pub fn writable_registered(&self, fd: i32) -> (r: bool)
        ensures
            r == self@.writable_records.contains(fd),
    {
        self.writable_records.contains(&fd)
    }

    /// The token the selector's read registration carries for the
    /// descriptor.
    pub fn selector_read_token(&self, fd: i32) -> (r: Option<usize>)
        ensures
            r == (if self@.selector.reg_read.contains_key(fd) {
                Some(self@.selector.reg_read[fd])
            } else {
                None::<usize>
            }),
    {
        self.selector.read_token(fd)
    }

    /// The token the selector's write registration carries for the
    /// descriptor.
    pub fn selector_write_token(&self, fd: i32) -> (r: Option<usize>)
        ensures
            r == (if self@.selector.reg_write.contains_key(fd) {
                Some(self@.selector.reg_write[fd])
            } else {
                None::<usize>
            }),
    {
        self.selector.write_token(fd)
    }

    /// Whether another computation can still be submitted to this loop.
    pub fn can_submit(&self) -> (r: bool)
        ensures
            r == (self@.scheduler.next_name < usize::MAX),
    {
        self.scheduler.has_capacity()
    }

    /// Whether the loop knows the name: as a recorded result, a ready
    /// computation or a suspended one.
    pub fn knows_name(&self, name: usize) -> (r: bool)
        ensures
            r == known_name(self@, name),
    {
        self.scheduler.knows(name)
    }

    /// Drop the descriptor's write interest; symmetric to `del_read_event`.
    pub fn del_write_event(&mut self, fd: i32) -> (r: Result<(), RuntimeError>)
        ensures
            final(self)@ == del_write_model(old(self)@, fd),
            r == Ok::<(), RuntimeError>(()),
    {
        if self.writable_records.contains(&fd) {
            if self.readable_records.contains(&fd) {
                let rtoken = match self.readable_tokens.get(&fd) {
                    Some(t) => *t,
                    None => 0,
                };
                self.selector.reregister(fd, rtoken, Interest::Readable);
                self.writable_records.remove(&fd);
                self.writable_tokens.remove(&fd);
                proof {
                    assert(self@ =~~= del_write_model(old(self)@, fd));
                }
                Ok(())
            } else {
                self.del_event(fd)
            }
        } else {
            Ok(())
        }
    }
}

/// Registration touches the registries and selector alone, consistently.
pub proof fn lemma_add_read_wf(s: LoopModel, fd: i32, token: usize)
    requires
        loop_wf(s),
    ensures
        loop_wf(add_read_model(s, fd, token)),
        add_read_model(s, fd, token).scheduler == s.scheduler,
        add_read_model(s, fd, token).clock == s.clock,
        add_read_model(s, fd, token).selector.ready_read == s.selector.ready_read,
        add_read_model(s, fd, token).selector.ready_write == s.selector.ready_write,
{
    let s1 = add_read_model(s, fd, token);
    assert(s1.readable_records =~= s1.readable_tokens.dom());
}

pub proof fn lemma_add_write_wf(s: LoopModel, fd: i32, token: usize)
    requires
        loop_wf(s),
    ensures
        loop_wf(add_write_model(s, fd, token)),
        add_write_model(s, fd, token).scheduler == s.scheduler,
        add_write_model(s, fd, token).clock == s.clock,
        add_write_model(s, fd, token).selector.ready_read == s.selector.ready_read,
        add_write_model(s, fd, token).selector.ready_write == s.selector.ready_write,
{
    let s1 = add_write_model(s, fd, token);
    assert(s1.writable_records =~= s1.writable_tokens.dom());
}

pub proof fn lemma_del_event_wf(s: LoopModel, fd: i32)
    requires
        loop_wf(s),
    ensures
        loop_wf(del_event_model(s, fd)),
        del_event_model(s, fd).scheduler == s.scheduler,
        del_event_model(s, fd).clock == s.clock,
{
    let s1 = del_event_model(s, fd);
    assert(s1.readable_records =~= s1.readable_tokens.dom());
    assert(s1.writable_records =~= s1.writable_tokens.dom());
}

pub proof fn lemma_del_read_wf(s: LoopModel, fd: i32)
    requires
        loop_wf(s),
    ensures
        loop_wf(del_read_model(s, fd)),
        del_read_model(s, fd).scheduler == s.scheduler,
        del_read_model(s, fd).clock == s.clock,
{
    let s1 = del_read_model(s, fd);
    lemma_del_event_wf(s, fd);
    if s.readable_records.contains(fd) && s.writable_records.contains(fd) {
        assert(s1.selector.reg_write =~= s1.writable_tokens);
    }
    assert(s1.readable_records =~= s1.readable_tokens.dom());
    assert(s1.writable_records =~= s1.writable_tokens.dom());
}

pub proof fn lemma_del_write_wf(s: LoopModel, fd: i32)
    requires
        loop_wf(s),
    ensures
        loop_wf(del_write_model(s, fd)),
        del_write_model(s, fd).scheduler == s.scheduler,
        del_write_model(s, fd).clock == s.clock,
{
    let s1 = del_write_model(s, fd);
    lemma_del_event_wf(s, fd);
    if s.writable_records.contains(fd) && s.readable_records.contains(fd) {
        assert(s1.selector.reg_read =~= s1.readable_tokens);
    }
    assert(s1.readable_records =~= s1.readable_tokens.dom());
    assert(s1.writable_records =~= s1.writable_tokens.dom());
}

/// Submission keeps the loop well-formed: the fresh name is distinct from
/// every live name.
pub proof fn lemma_submit_wf(s: LoopModel, computation: Computation)
    requires
        loop_wf(s),
        s.scheduler.next_name < usize::MAX,
    ensures
        loop_wf(submit_model(s, computation)),
        submit_model(s, computation).scheduler.results == s.scheduler.results,
        submit_model(s, computation).clock == s.clock,
{
}

/// Running a batch of distinct, fresh-named ready computations finishes or
/// suspends each of them, touches no other name, and keeps the loop
/// well-formed; clock, wait guard and readiness queues are untouched.
pub proof fn lemma_drain(s: LoopModel, q: Seq<(usize, Computation)>)
    requires
        regs_wf(s),
        sched_wf(s.scheduler),
        s.scheduler.ready.len() == 0,
        forall|i: int| 0 <= i < q.len() ==> 1 <= (#[trigger] q[i]).0 < s.scheduler.next_name,
        forall|i: int, j: int|
            0 <= i < j < q.len() ==> (#[trigger] q[i]).0 != (#[trigger] q[j]).0,
        forall|i: int|
            0 <= i < q.len() ==> !s.scheduler.suspended.contains_key((#[trigger] q[i]).0)
                && !s.scheduler.results.contains_key(q[i].0),
    ensures
        ({
            let s2 = drain_model(s, q);
            &&& regs_wf(s2)
            &&& sched_wf(s2.scheduler)
            &&& s2.scheduler.ready.len() == 0
            &&& s2.scheduler.next_name == s.scheduler.next_name
            &&& s2.waiting == s.waiting
            &&& s2.clock == s.clock
            &&& s2.selector.ready_read == s.selector.ready_read
            &&& s2.selector.ready_write == s.selector.ready_write
            &&& s.scheduler.results.submap_of(s2.scheduler.results)
            &&& s.scheduler.suspended.submap_of(s2.scheduler.suspended)
            &&& s.readable_tokens.submap_of(s2.readable_tokens)
            &&& s.writable_tokens.submap_of(s2.writable_tokens)
            &&& forall|n: usize| #[trigger]
                s2.scheduler.results.contains_key(n) ==> s.scheduler.results.contains_key(n)
                    || exists|i: int|
                    0 <= i < q.len() && (#[trigger] q[i]).0 == n && q[i].1 is Finish
            &&& forall|n: usize| #[trigger]
                s2.scheduler.suspended.contains_key(n) ==> s.scheduler.suspended.contains_key(n)
                    || exists|i: int|
                    0 <= i < q.len() && (#[trigger] q[i]).0 == n && !(q[i].1 is Finish)
            &&& forall|i: int|
                0 <= i < q.len() && (#[trigger] q[i]).1 is Finish
                    ==> s2.scheduler.results.contains_key(q[i].0)
                    && s2.scheduler.results[q[i].0] == payload_of(q[i].1)
            &&& forall|i: int|
                0 <= i < q.len() && !((#[trigger] q[i]).1 is Finish)
                    ==> s2.scheduler.suspended.contains_key(q[i].0)
                    && s2.scheduler.suspended[q[i].0] == payload_of(q[i].1)
        }),
    decreases q.len(),
{
    if q.len() > 0 {
        let name = q[0].0;
        let c = q[0].1;
        let s1 = step_computation_model(s, name, c);
        match c {
            Computation::Finish(_) => {},
            Computation::AwaitRead(fd, _) => {
                let sr = add_read_model(s, fd, name);
                assert(sr.readable_records =~= sr.readable_tokens.dom());
            },
            Computation::AwaitWrite(fd, _) => {
                let sw = add_write_model(s, fd, name);
                assert(sw.writable_records =~= sw.writable_tokens.dom());
            },
        }
        let q1 = q.drop_first();
        assert(forall|i: int| 0 <= i < q1.len() ==> q1[i] == q[i + 1]);
        lemma_drain(s1, q1);
        let s2 = drain_model(s, q);
        assert(s2 == drain_model(s1, q1));
        assert forall|k: usize| #[trigger] s.scheduler.results.dom().contains(k)
            implies s2.scheduler.results.dom().contains(k) && s.scheduler.results[k]
                == s2.scheduler.results[k] by {
            assert(s1.scheduler.results.dom().contains(k));
            assert(s1.scheduler.results[k] == s.scheduler.results[k]);
            assert(s1.scheduler.results.submap_of(drain_model(s1, q1).scheduler.results));
            assert(drain_model(s1, q1).scheduler.results.dom().contains(k));
            assert(drain_model(s1, q1).scheduler.results[k] == s1.scheduler.results[k]);
            assert(s2.scheduler.results.dom().contains(k));
            assert(s2.scheduler.results[k] == s.scheduler.results[k]);
        }
        assert(s.scheduler.results.submap_of(s2.scheduler.results));
        assert forall|k: usize| #[trigger] s.scheduler.suspended.dom().contains(k)
            implies s2.scheduler.suspended.dom().contains(k) && s.scheduler.suspended[k]
                == s2.scheduler.suspended[k] by {
            assert(!s.scheduler.suspended.contains_key(q[0].0));
            assert(k != name);
            assert(s1.scheduler.suspended.dom().contains(k));
            assert(s1.scheduler.suspended[k] == s.scheduler.suspended[k]);
            assert(s1.scheduler.suspended.submap_of(drain_model(s1, q1).scheduler.suspended));
            assert(drain_model(s1, q1).scheduler.suspended.dom().contains(k));
            assert(drain_model(s1, q1).scheduler.suspended[k] == s1.scheduler.suspended[k]);
            assert(s2.scheduler.suspended.dom().contains(k));
            assert(s2.scheduler.suspended[k] == s.scheduler.suspended[k]);
        }
        assert(s.scheduler.suspended.submap_of(s2.scheduler.suspended));
        assert forall|k: i32| #[trigger] s.readable_tokens.dom().contains(k)
            implies s2.readable_tokens.dom().contains(k) && s.readable_tokens[k]
                == s2.readable_tokens[k] by {
            assert(s1.readable_tokens.dom().contains(k));
            assert(s1.readable_tokens[k] == s.readable_tokens[k]);
            assert(s1.readable_tokens.submap_of(drain_model(s1, q1).readable_tokens));
            assert(drain_model(s1, q1).readable_tokens.dom().contains(k));
            assert(drain_model(s1, q1).readable_tokens[k] == s1.readable_tokens[k]);
        }
        assert(s.readable_tokens.submap_of(s2.readable_tokens));
        assert forall|k: i32| #[trigger] s.writable_tokens.dom().contains(k)
            implies s2.writable_tokens.dom().contains(k) && s.writable_tokens[k]
                == s2.writable_tokens[k] by {
            assert(s1.writable_tokens.dom().contains(k));
            assert(s1.writable_tokens[k] == s.writable_tokens[k]);
            assert(s1.writable_tokens.submap_of(drain_model(s1, q1).writable_tokens));
            assert(drain_model(s1, q1).writable_tokens.dom().contains(k));
            assert(drain_model(s1, q1).writable_tokens[k] == s1.writable_tokens[k]);
        }
        assert(s.writable_tokens.submap_of(s2.writable_tokens));
        assert forall|i: int|
            0 <= i < q.len() && (#[trigger] q[i]).1 is Finish
                implies s2.scheduler.results.contains_key(q[i].0)
                && s2.scheduler.results[q[i].0] == payload_of(q[i].1) by {
            if i == 0 {
                assert(s1.scheduler.results.dom().contains(name));
                assert(s1.scheduler.results.submap_of(s2.scheduler.results));
                assert(s2.scheduler.results.dom().contains(name));
            } else {
                assert(q1[i - 1] == q[i]);
            }
        }
        assert forall|i: int|
            0 <= i < q.len() && !((#[trigger] q[i]).1 is Finish)
                implies s2.scheduler.suspended.contains_key(q[i].0)
                && s2.scheduler.suspended[q[i].0] == payload_of(q[i].1) by {
            if i == 0 {
                assert(s1.scheduler.suspended.dom().contains(name));
                assert(s1.scheduler.suspended.submap_of(s2.scheduler.suspended));
                assert(s2.scheduler.suspended.dom().contains(name));
            } else {
                assert(q1[i - 1] == q[i]);
            }
        }
        assert forall|n: usize| #[trigger]
            s2.scheduler.results.contains_key(n) implies s.scheduler.results.contains_key(n)
                || exists|i: int| 0 <= i < q.len() && (#[trigger] q[i]).0 == n by {
            if !s.scheduler.results.contains_key(n) {
                if s1.scheduler.results.contains_key(n) && n == name {
                    assert(q[0].0 == n && q[0].1 is Finish);
                } else {
                    let i = choose|i: int|
                        0 <= i < q1.len() && (#[trigger] q1[i]).0 == n && q1[i].1 is Finish;
                    assert(q[i + 1].0 == n && q[i + 1].1 is Finish);
                }
            }
        }
        assert forall|n: usize| #[trigger]
            s2.scheduler.suspended.contains_key(n) implies s.scheduler.suspended.contains_key(n)
                || exists|i: int| 0 <= i < q.len() && (#[trigger] q[i]).0 == n by {
            if !s.scheduler.suspended.contains_key(n) {
                if s1.scheduler.suspended.contains_key(n) && n == name {
                    assert(q[0].0 == n && !(q[0].1 is Finish));
                } else {
                    let i = choose|i: int|
                        0 <= i < q1.len() && (#[trigger] q1[i]).0 == n && !(q1[i].1 is Finish);
                    assert(q[i + 1].0 == n && !(q[i + 1].1 is Finish));
                }
            }
        }
    }
}

/// Resuming by token keeps the scheduler sound and its results untouched;
/// existing ready entries keep their places.
pub proof fn lemma_resume_wf(sch: SchedModel, token: usize)
    requires
        sched_wf(sch),
    ensures
        ({
            let sch2 = resume_model(sch, token);
            &&& sched_wf(sch2)
            &&& sch2.results == sch.results
            &&& sch2.next_name == sch.next_name
            &&& sch2.ready.len() >= sch.ready.len()
            &&& forall|i: int| 0 <= i < sch.ready.len() ==> sch2.ready[i] == sch.ready[i]
            &&& forall|n: usize| #[trigger]
                sch2.suspended.contains_key(n) ==> sch.suspended.contains_key(n)
                    && sch2.suspended[n] == sch.suspended[n]
        }),
{
}

/// Running ready computations never touches the clock, the wait guard or
/// the readiness queues, whatever the state.
pub proof fn lemma_drain_shape(s: LoopModel, q: Seq<(usize, Computation)>)
    ensures
        ({
            let s2 = drain_model(s, q);
            &&& s2.clock == s.clock
            &&& s2.waiting == s.waiting
            &&& s2.selector.ready_read == s.selector.ready_read
            &&& s2.selector.ready_write == s.selector.ready_write
        }),
    decreases q.len(),
{
    if q.len() > 0 {
        lemma_drain_shape(step_computation_model(s, q[0].0, q[0].1), q.drop_first());
    }
}

/// One `wait` round on a quiescent loop leaves it quiescent and either
/// consumes exactly one queued readiness report without moving the clock,
/// or consumes none and the full time budget.
pub proof fn lemma_wait_shape(s: LoopModel, timeout: Option<u64>, sched: bool)
    requires
        !s.waiting,
    ensures
        ({
            let s2 = wait_model(s, timeout, sched);
            &&& !s2.waiting
            &&& s2.clock >= s.clock
            &&& ({
                ||| (queued_reports(s2) == queued_reports(s) && s2.clock == advance_clock(
                    s.clock,
                    timeout,
                ))
                ||| (queued_reports(s2) == queued_reports(s) - 1 && s2.clock == s.clock)
            })
        }),
{
    let s0 = LoopModel { waiting: true, ..s };
    let s1 = if sched && timeout is Some {
        drain_model(clear_ready(s0), s0.scheduler.ready)
    } else {
        s0
    };
    if sched && timeout is Some {
        lemma_drain_shape(clear_ready(s0), s0.scheduler.ready);
    }
    let sel1 = s1.selector;
    match select_event(sel1) {
        None => {
            assert(select_model(sel1) == sel1);
        },
        Some(e) => {
            if first_ready(sel1.ready_read, sel1.reg_read) is Some {
                let i = first_ready(sel1.ready_read, sel1.reg_read)->Some_0;
                crate::selector::lemma_first_ready_bounds(sel1.ready_read, sel1.reg_read);
                assert(sel1.ready_read.remove(i).len() == sel1.ready_read.len() - 1);
            } else {
                let i = first_ready(sel1.ready_write, sel1.reg_write)->Some_0;
                crate::selector::lemma_first_ready_bounds(sel1.ready_write, sel1.reg_write);
                assert(sel1.ready_write.remove(i).len() == sel1.ready_write.len() - 1);
            }
        },
    }
}

/// One `wait` round preserves well-formedness; the clock never goes back;
/// recorded results are kept; the round either consumes the full time budget
/// without an event or consumes exactly one queued readiness report; and
/// with scheduling requested under a finite budget every computation that
/// was ready to finish has its result recorded.
pub proof fn lemma_wait_wf(s: LoopModel, timeout: Option<u64>, sched: bool)
    requires
        loop_wf(s),
    ensures
        ({
            let s2 = wait_model(s, timeout, sched);
            &&& loop_wf(s2)
            &&& s2.clock >= s.clock
            &&& s2.scheduler.next_name == s.scheduler.next_name
            &&& s.scheduler.results.submap_of(s2.scheduler.results)
            &&& ({
                let q0 = s.selector.ready_read.len() + s.selector.ready_write.len();
                let q2 = s2.selector.ready_read.len() + s2.selector.ready_write.len();
                ||| (q2 == q0 && s2.clock == advance_clock(s.clock, timeout))
                ||| (q2 == q0 - 1 && s2.clock == s.clock)
            })
            &&& forall|i: int|
                sched && timeout is Some && 0 <= i < s.scheduler.ready.len()
                    && (#[trigger] s.scheduler.ready[i]).1 is Finish
                    ==> s2.scheduler.results.contains_key(s.scheduler.ready[i].0)
                    && s2.scheduler.results[s.scheduler.ready[i].0] == payload_of(s.scheduler.ready[i].1)
        }),
{
    let s0 = LoopModel { waiting: true, ..s };
    let s1 = if sched && timeout is Some {
        drain_model(clear_ready(s0), s0.scheduler.ready)
    } else {
        s0
    };
    if sched && timeout is Some {
        assert(regs_wf(clear_ready(s0)));
        assert(sched_wf(clear_ready(s0).scheduler));
        lemma_drain(clear_ready(s0), s0.scheduler.ready);
    }
    assert(regs_wf(s1));
    assert(sched_wf(s1.scheduler));
    assert(s1.selector.ready_read == s.selector.ready_read);
    assert(s1.selector.ready_write == s.selector.ready_write);
    let sel1 = s1.selector;
    let s2pre = LoopModel { selector: select_model(sel1), waiting: false, ..s1 };
    match select_event(sel1) {
        None => {
            assert(select_model(sel1) == sel1);
            assert(loop_wf(wait_model(s, timeout, sched)));
        },
        Some(e) => {
            lemma_resume_wf(s2pre.scheduler, e.token);
            let s2 = handle_event_model(s2pre, e);
            if e.readable {
                let i = first_ready(sel1.ready_read, sel1.reg_read)->Some_0;
                crate::selector::lemma_first_ready_bounds(sel1.ready_read, sel1.reg_read);
                assert(e.fd == sel1.ready_read[i]);
                assert(s2.selector.reg_read =~= s2.readable_tokens);
                assert(s2.readable_records =~= s2.readable_tokens.dom());
                assert(sel1.ready_read.remove(i).len() == sel1.ready_read.len() - 1);
            } else {
                let i = first_ready(sel1.ready_write, sel1.reg_write)->Some_0;
                crate::selector::lemma_first_ready_bounds(sel1.ready_write, sel1.reg_write);
                assert(e.fd == sel1.ready_write[i]);
                assert(s2.selector.reg_write =~= s2.writable_tokens);
                assert(s2.writable_records =~= s2.writable_tokens.dom());
                assert(sel1.ready_write.remove(i).len() == sel1.ready_write.len() - 1);
            }
            assert(loop_wf(s2));
            assert(s2 == wait_model(s, timeout, sched));
        },
    }
}

/// Some live computation of the loop carries the name in the ready queue.
pub open spec fn ready_has(s: LoopModel, name: usize) -> bool {
    exists|i: int| 0 <= i < s.scheduler.ready.len() && (#[trigger] s.scheduler.ready[i]).0 == name
}

/// The payload of the (unique) ready entry carrying the name.
pub open spec fn ready_payload(s: LoopModel, name: usize) -> usize {
    let i = choose|i: int|
        0 <= i < s.scheduler.ready.len() && (#[trigger] s.scheduler.ready[i]).0 == name;
    payload_of(s.scheduler.ready[i].1)
}

/// The loop knows the name: as a recorded result, a ready computation or a
/// suspended one.
pub open spec fn known_name(s: LoopModel, name: usize) -> bool {
    ||| s.scheduler.results.contains_key(name)
    ||| ready_has(s, name)
    ||| s.scheduler.suspended.contains_key(name)
}

/// The payload the named computation delivers, now or once joined.
pub open spec fn eventual_result(s: LoopModel, name: usize) -> usize {
    if s.scheduler.results.contains_key(name) {
        s.scheduler.results[name]
    } else if ready_has(s, name) {
        ready_payload(s, name)
    } else {
        s.scheduler.suspended[name]
    }
}

/// The named computation sits in the ready queue about to finish.
pub open spec fn ready_finish(s: LoopModel, name: usize) -> bool {
    exists|i: int|
        0 <= i < s.scheduler.ready.len() && (#[trigger] s.scheduler.ready[i]).0 == name
            && s.scheduler.ready[i].1 is Finish
}

/// A queued readiness report will resume the name: some descriptor is
/// registered under the name as its token, on a side whose report for that
/// descriptor is already queued.
pub open spec fn queued_for(s: LoopModel, name: usize) -> bool {
    ||| exists|fd: i32| #[trigger]
        s.readable_tokens.contains_key(fd) && s.readable_tokens[fd] == name
            && s.selector.ready_read.contains(fd)
    ||| exists|fd: i32| #[trigger]
        s.writable_tokens.contains_key(fd) && s.writable_tokens[fd] == name
            && s.selector.ready_write.contains(fd)
}

/// The named computation completes without further readiness from outside:
/// its result is recorded already, it sits in the ready queue about to
/// finish, or it is suspended and a queued report will resume it.
pub open spec fn resolvable(s: LoopModel, name: usize) -> bool {
    ||| s.scheduler.results.contains_key(name)
    ||| ready_finish(s, name)
    ||| (s.scheduler.suspended.contains_key(name) && queued_for(s, name))
}

/// How many readiness reports wait in the selector's queues.
pub open spec fn queued_reports(s: LoopModel) -> int {
    s.selector.ready_read.len() as int + s.selector.ready_write.len() as int
}

/// How many schedule-and-poll rounds, beyond report deliveries, a
/// resolvable name still needs before its result is recorded.
pub open spec fn join_rank(s: LoopModel, name: usize) -> int {
    if s.scheduler.results.contains_key(name) {
        0
    } else if ready_finish(s, name) {
        1
    } else {
        2
    }
}

/// A resolvable name is a known one.
pub proof fn lemma_resolvable_known(s: LoopModel, name: usize)
    requires
        resolvable(s, name),
    ensures
        known_name(s, name),
{
    if !s.scheduler.results.contains_key(name) && !s.scheduler.suspended.contains_key(name) {
        let k = choose|k: int|
            0 <= k < s.scheduler.ready.len() && (#[trigger] s.scheduler.ready[k]).0 == name
                && s.scheduler.ready[k].1 is Finish;
        assert(ready_has(s, name));
    }
}

/// In a sound scheduler a name occurs at most once in the ready queue, so
/// any entry carrying it decides the ready payload.
pub proof fn lemma_ready_payload_at(s: LoopModel, name: usize, i: int)
    requires
        sched_wf(s.scheduler),
        0 <= i < s.scheduler.ready.len(),
        s.scheduler.ready[i].0 == name,
    ensures
        ready_has(s, name),
        ready_payload(s, name) == payload_of(s.scheduler.ready[i].1),
        forall|j: int|
            0 <= j < s.scheduler.ready.len() && (#[trigger] s.scheduler.ready[j]).0 == name
                ==> j == i,
{
    assert(ready_has(s, name));
    let j = choose|j: int|
        0 <= j < s.scheduler.ready.len() && (#[trigger] s.scheduler.ready[j]).0 == name;
    assert(j == i);
}

/// Removing one report from a queue keeps every report for any other
/// descriptor in it.
proof fn lemma_remove_keeps_other(sq: Seq<i32>, i: int, x: i32)
    requires
        0 <= i < sq.len(),
        sq.contains(x),
        sq[i] != x,
    ensures
        sq.remove(i).contains(x),
{
    let j = choose|j: int| 0 <= j < sq.len() && sq[j] == x;
    sq.remove_ensures(i);
    if j < i {
        assert(sq.remove(i)[j] == x);
    } else {
        assert(sq.remove(i)[j - 1] == x);
    }
}

/// One `wait` round neither loses nor changes what a known name will
/// deliver, and a resolvable name stays resolvable.  With scheduling
/// requested under a finite budget, a round moves an unresolved resolvable
/// name closer to its result: a computation due to finish has its result
/// recorded, and otherwise a queued readiness report is consumed — without
/// moving the clock while the name stays unresolved.
pub proof fn lemma_wait_name(s: LoopModel, timeout: Option<u64>, sched: bool, name: usize)
    requires
        loop_wf(s),
        known_name(s, name),
    ensures
        ({
            let s2 = wait_model(s, timeout, sched);
            &&& known_name(s2, name)
            &&& eventual_result(s2, name) == eventual_result(s, name)
            &&& (resolvable(s, name) ==> resolvable(s2, name))
            &&& (ready_finish(s, name) && sched && timeout is Some
                ==> s2.scheduler.results.contains_key(name))
            &&& (resolvable(s, name) && !s.scheduler.results.contains_key(name) && sched
                && timeout is Some ==> (queued_reports(s2) < queued_reports(s) || (queued_reports(
                s2,
            ) == queued_reports(s) && join_rank(s2, name) < join_rank(s, name))))
            &&& (resolvable(s, name) && !s.scheduler.results.contains_key(name) && sched
                && timeout is Some && !s2.scheduler.results.contains_key(name) ==> s2.clock
                == s.clock)
        }),
{
    lemma_wait_wf(s, timeout, sched);
    let s0 = LoopModel { waiting: true, ..s };
    let s1 = if sched && timeout is Some {
        drain_model(clear_ready(s0), s0.scheduler.ready)
    } else {
        s0
    };
    if sched && timeout is Some {
        lemma_drain(clear_ready(s0), s0.scheduler.ready);
        if s.scheduler.results.contains_key(name) {
            assert(s.scheduler.results.dom().contains(name));
            assert(s1.scheduler.results.dom().contains(name));
        } else if ready_has(s, name) {
            let i = choose|i: int|
                0 <= i < s.scheduler.ready.len() && (#[trigger] s.scheduler.ready[i]).0 == name;
            lemma_ready_payload_at(s, name, i);
            if s.scheduler.ready[i].1 is Finish {
                assert(s1.scheduler.results.contains_key(name));
                assert(s1.scheduler.results[name] == payload_of(s.scheduler.ready[i].1));
            } else {
                assert(s1.scheduler.suspended.contains_key(name));
                assert(s1.scheduler.suspended[name] == payload_of(s.scheduler.ready[i].1));
                assert(!s1.scheduler.results.contains_key(name)) by {
                    if s1.scheduler.results.contains_key(name) {
                        let k = choose|k: int|
                            0 <= k < s.scheduler.ready.len()
                                && (#[trigger] s.scheduler.ready[k]).0 == name
                                && s.scheduler.ready[k].1 is Finish;
                        assert(k == i);
                    }
                }
            }
        } else {
            assert(s.scheduler.suspended.dom().contains(name));
            assert(s1.scheduler.suspended.dom().contains(name));
            assert(!s1.scheduler.results.contains_key(name)) by {
                if s1.scheduler.results.contains_key(name) {
                    let k = choose|k: int|
                        0 <= k < s.scheduler.ready.len()
                            && (#[trigger] s.scheduler.ready[k]).0 == name
                            && s.scheduler.ready[k].1 is Finish;
                    assert(!s.scheduler.suspended.contains_key(s.scheduler.ready[k].0));
                }
            }
        }
    }
    assert(known_name(s1, name) && eventual_result(s1, name) == eventual_result(s, name));
    assert(ready_finish(s, name) && sched && timeout is Some
        ==> s1.scheduler.results.contains_key(name)) by {
        if ready_finish(s, name) && sched && timeout is Some {
            let k = choose|k: int|
                0 <= k < s.scheduler.ready.len() && (#[trigger] s.scheduler.ready[k]).0 == name
                    && s.scheduler.ready[k].1 is Finish;
            assert(s1.scheduler.results.contains_key(s.scheduler.ready[k].0));
        }
    }
    assert(s.scheduler.suspended.contains_key(name) && queued_for(s, name)
        ==> s1.scheduler.suspended.contains_key(name) && queued_for(s1, name)) by {
        if s.scheduler.suspended.contains_key(name) && queued_for(s, name) {
            assert(s.scheduler.suspended.dom().contains(name));
            assert(s1.scheduler.suspended.dom().contains(name));
            if exists|fd: i32| #[trigger]
                s.readable_tokens.contains_key(fd) && s.readable_tokens[fd] == name
                    && s.selector.ready_read.contains(fd) {
                let fd = choose|fd: i32| #[trigger]
                    s.readable_tokens.contains_key(fd) && s.readable_tokens[fd] == name
                        && s.selector.ready_read.contains(fd);
                assert(s.readable_tokens.dom().contains(fd));
                assert(s1.readable_tokens.dom().contains(fd));
                assert(s1.readable_tokens[fd] == name);
                assert(s1.readable_tokens.contains_key(fd) && s1.readable_tokens[fd] == name
                    && s1.selector.ready_read.contains(fd));
            } else {
                let fd = choose|fd: i32| #[trigger]
                    s.writable_tokens.contains_key(fd) && s.writable_tokens[fd] == name
                        && s.selector.ready_write.contains(fd);
                assert(s.writable_tokens.dom().contains(fd));
                assert(s1.writable_tokens.dom().contains(fd));
                assert(s1.writable_tokens[fd] == name);
                assert(s1.writable_tokens.contains_key(fd) && s1.writable_tokens[fd] == name
                    && s1.selector.ready_write.contains(fd));
            }
        }
    }
    let sel1 = s1.selector;
    let s2pre = LoopModel { selector: select_model(s1.selector), waiting: false, ..s1 };
    match select_event(s1.selector) {
        None => {
            assert(select_model(s1.selector) == s1.selector);
            let s2 = wait_model(s, timeout, sched);
            assert(s2.scheduler == s1.scheduler);
            if resolvable(s, name) {
                if s.scheduler.results.contains_key(name) {
                    assert(s.scheduler.results.dom().contains(name));
                    assert(s2.scheduler.results.contains_key(name));
                } else if ready_finish(s, name) {
                    if sched && timeout is Some {
                        assert(s2.scheduler.results.contains_key(name));
                    } else {
                        assert(ready_finish(s2, name));
                    }
                } else {
                    // a queued report for a registered descriptor cannot be
                    // passed over: select would have reported an event
                    assert(s1.scheduler.suspended.contains_key(name) && queued_for(s1, name));
                    if exists|fd: i32| #[trigger]
                        s1.readable_tokens.contains_key(fd) && s1.readable_tokens[fd] == name
                            && s1.selector.ready_read.contains(fd) {
                        let fd = choose|fd: i32| #[trigger]
                            s1.readable_tokens.contains_key(fd) && s1.readable_tokens[fd]
                                == name && s1.selector.ready_read.contains(fd);
                        crate::selector::lemma_select_event_some(s1.selector, fd);
                    } else {
                        let fd = choose|fd: i32| #[trigger]
                            s1.writable_tokens.contains_key(fd) && s1.writable_tokens[fd]
                                == name && s1.selector.ready_write.contains(fd);
                        crate::selector::lemma_select_event_some(s1.selector, fd);
                    }
                }
            }
        },
        Some(e) => {
            let s2 = handle_event_model(s2pre, e);
            assert(s2 == wait_model(s, timeout, sched));
            lemma_resume_wf(s1.scheduler, e.token);
            let sch1 = s1.scheduler;
            let sch2 = s2.scheduler;
            assert(sch2 == resume_model(sch1, e.token));
            assert(sch2.results == sch1.results);
            if sch1.results.contains_key(name) {
                assert(eventual_result(s2, name) == eventual_result(s1, name));
            } else if e.token != 0 && sch1.suspended.contains_key(e.token) && e.token == name {
                assert(!sch2.suspended.contains_key(name));
                let i = sch2.ready.len() - 1;
                assert(sch2.ready[i] == (name, Computation::Finish(sch1.suspended[name])));
                lemma_ready_payload_at(s2, name, i);
                assert(!ready_has(s1, name)) by {
                    if ready_has(s1, name) {
                        let k = choose|k: int|
                            0 <= k < sch1.ready.len() && (#[trigger] sch1.ready[k]).0 == name;
                        assert(!sch1.suspended.contains_key(sch1.ready[k].0));
                    }
                }
                assert(eventual_result(s1, name) == sch1.suspended[name]);
                assert(eventual_result(s2, name) == sch1.suspended[name]);
            } else if ready_has(s1, name) {
                let i = choose|i: int|
                    0 <= i < sch1.ready.len() && (#[trigger] sch1.ready[i]).0 == name;
                lemma_ready_payload_at(s1, name, i);
                assert(sch2.ready[i] == sch1.ready[i]);
                lemma_ready_payload_at(s2, name, i);
                assert(eventual_result(s2, name) == eventual_result(s1, name));
            } else {
                assert(sch1.suspended.contains_key(name));
                assert(sch2.suspended.contains_key(name) && sch2.suspended[name]
                    == sch1.suspended[name]);
                assert(!ready_has(s2, name)) by {
                    if ready_has(s2, name) {
                        let k = choose|k: int|
                            0 <= k < sch2.ready.len() && (#[trigger] sch2.ready[k]).0 == name;
                        if k < sch1.ready.len() {
                            assert(sch1.ready[k].0 == name);
                        }
                    }
                }
                assert(eventual_result(s2, name) == eventual_result(s1, name));
            }
            assert(queued_reports(s2) == queued_reports(s1) - 1) by {
                if first_ready(sel1.ready_read, sel1.reg_read) is Some {
                    let i = first_ready(sel1.ready_read, sel1.reg_read)->Some_0;
                    crate::selector::lemma_first_ready_bounds(sel1.ready_read, sel1.reg_read);
                    assert(sel1.ready_read.remove(i).len() == sel1.ready_read.len() - 1);
                } else {
                    let i = first_ready(sel1.ready_write, sel1.reg_write)->Some_0;
                    crate::selector::lemma_first_ready_bounds(sel1.ready_write, sel1.reg_write);
                    assert(sel1.ready_write.remove(i).len() == sel1.ready_write.len() - 1);
                }
            }
            if resolvable(s, name) {
                if sch1.results.contains_key(name) {
                    assert(sch1.results.dom().contains(name));
                    assert(resolvable(s2, name));
                } else if ready_finish(s1, name) {
                    let i = choose|i: int|
                        0 <= i < sch1.ready.len() && (#[trigger] sch1.ready[i]).0 == name
                            && sch1.ready[i].1 is Finish;
                    assert(sch2.ready[i] == sch1.ready[i]);
                    assert(ready_finish(s2, name));
                } else {
                    assert(sch1.suspended.contains_key(name) && queued_for(s1, name));
                    if e.token == name {
                        assert(ready_finish(s2, name)) by {
                            let i = sch2.ready.len() - 1;
                            assert(sch2.ready[i] == (name, Computation::Finish(
                                sch1.suspended[name],
                            )));
                        }
                    } else {
                        assert(sch2.suspended.contains_key(name));
                        if exists|fd: i32| #[trigger]
                            s1.readable_tokens.contains_key(fd) && s1.readable_tokens[fd]
                                == name && s1.selector.ready_read.contains(fd) {
                            let fd = choose|fd: i32| #[trigger]
                                s1.readable_tokens.contains_key(fd) && s1.readable_tokens[fd]
                                    == name && s1.selector.ready_read.contains(fd);
                            assert(!(e.readable && e.fd == fd));
                            assert(s2.readable_tokens.contains_key(fd)
                                && s2.readable_tokens[fd] == name);
                            assert(s2.selector.ready_read.contains(fd)) by {
                                if e.readable {
                                    let i = first_ready(sel1.ready_read, sel1.reg_read)->Some_0;
                                    crate::selector::lemma_first_ready_bounds(
                                        sel1.ready_read,
                                        sel1.reg_read,
                                    );
                                    lemma_remove_keeps_other(sel1.ready_read, i, fd);
                                }
                            }
                            assert(queued_for(s2, name));
                        } else {
                            let fd = choose|fd: i32| #[trigger]
                                s1.writable_tokens.contains_key(fd) && s1.writable_tokens[fd]
                                    == name && s1.selector.ready_write.contains(fd);
                            assert(!(e.writable && e.fd == fd));
                            assert(s2.writable_tokens.contains_key(fd)
                                && s2.writable_tokens[fd] == name);
                            assert(s2.selector.ready_write.contains(fd)) by {
                                if e.writable {
                                    let i = first_ready(
                                        sel1.ready_write,
                                        sel1.reg_write,
                                    )->Some_0;
                                    crate::selector::lemma_first_ready_bounds(
                                        sel1.ready_write,
                                        sel1.reg_write,
                                    );
                                    lemma_remove_keeps_other(sel1.ready_write, i, fd);
                                }
                            }
                            assert(queued_for(s2, name));
                        }
                    }
                }
            }
        },
    }
}

/// While one caller is inside the selector wait of a loop, any concurrent
/// `wait` on that loop returns success at once and leaves the loop
/// untouched: the guard admits at most one selector caller per loop, and a
/// caller losing the race is back within the time a flag test takes,
/// whatever deadline it asked for.
pub proof fn lemma_wait_reentrant(s: LoopModel, timeout: Option<u64>, schedule_before_wait: bool)
    requires
        s.waiting,
    ensures
        wait_model(s, timeout, schedule_before_wait) == s,
{
}

/// A descriptor is in a record set exactly when the matching token map holds
/// an entry for it, at every quiescent point; both sides.
pub proof fn lemma_records_match_token_records(s: LoopModel, fd: i32)
    requires
        loop_wf(s),
    ensures
        s.readable_records.contains(fd) <==> s.readable_tokens.contains_key(fd),
        s.writable_records.contains(fd) <==> s.writable_tokens.contains_key(fd),
{
}

/// Registering a side twice leaves exactly the state of the first
/// registration: one selector registration, first token kept.
pub proof fn lemma_add_idempotent(s: LoopModel, fd: i32, t1: usize, t2: usize)
    ensures
        add_read_model(add_read_model(s, fd, t1), fd, t2) == add_read_model(s, fd, t1),
        add_write_model(add_write_model(s, fd, t1), fd, t2) == add_write_model(s, fd, t1),
{
}

/// Narrowing: registering read then write interest and deleting the read
/// side leaves a write-only selector registration carrying the write token
/// unchanged, and a well-formed loop.
pub proof fn lemma_narrowing(s: LoopModel, fd: i32, t1: usize, t2: usize)
    requires
        loop_wf(s),
        !s.readable_tokens.contains_key(fd),
        !s.writable_tokens.contains_key(fd),
    ensures
        ({
            let s3 = del_read_model(add_write_model(add_read_model(s, fd, t1), fd, t2), fd);
            &&& !s3.readable_records.contains(fd)
            &&& !s3.readable_tokens.contains_key(fd)
            &&& s3.writable_records.contains(fd)
            &&& s3.writable_tokens.contains_key(fd) && s3.writable_tokens[fd] == t2
            &&& s3.selector.reg_write.contains_key(fd) && s3.selector.reg_write[fd] == t2
            &&& !s3.selector.reg_read.contains_key(fd)
            &&& loop_wf(s3)
        }),
{
    let s1 = add_read_model(s, fd, t1);
    lemma_add_read_wf(s, fd, t1);
    let s2 = add_write_model(s1, fd, t2);
    lemma_add_write_wf(s1, fd, t2);
    let s3 = del_read_model(s2, fd);
    lemma_del_read_wf(s2, fd);
}

} // verus!
