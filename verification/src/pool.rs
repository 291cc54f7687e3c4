//! The event loop pool: a process-wide, fixed-size collection of event
//! loops sized to the logical CPU count, with round-robin dispatch.
//!
//! Rather than lazily initialised process-wide state, the pool is a runtime
//! object built explicitly, as a language with strong ownership prefers, so
//! the dispatch index and the started flag are fields of it.  The
//! worker threads that keep the loops draining belong to the embedder, which
//! drives `wait_event` while `started` holds; loop 0 is reserved for a
//! preemptive monitor and `monitor` hands it out without being counted on
//! by round-robin callers.

use vstd::prelude::*;
use crate::RuntimeError;
use crate::event_loop::EventLoop;
use crate::event_loop::LoopModel;
use crate::event_loop::add_read_model;
use crate::event_loop::add_write_model;
use crate::event_loop::advance_clock;
use crate::event_loop::clear_ready;
use crate::event_loop::del_event_model;
use crate::event_loop::del_read_model;
use crate::event_loop::del_write_model;
use crate::event_loop::drain_model;
use crate::event_loop::lemma_add_read_wf;
use crate::event_loop::lemma_add_write_wf;
use crate::event_loop::lemma_del_event_wf;
use crate::event_loop::lemma_del_read_wf;
use crate::event_loop::lemma_del_write_wf;
use crate::event_loop::lemma_submit_wf;
use crate::event_loop::lemma_wait_shape;
use crate::event_loop::lemma_wait_wf;
use crate::event_loop::loop_init;
use crate::event_loop::loop_wf;
use crate::event_loop::queued_reports;
use crate::event_loop::submit_model;
use crate::event_loop::wait_model;
use crate::join::JoinHandle;
use crate::scheduler::Computation;
use vstd::map_lib::lemma_submap_of_trans;

verus! {

/// Mathematical state of the pool.
#[verifier::ext_equal]
pub struct PoolModel {
    pub loops: Seq<LoopModel>,
    pub index: usize,
    pub started: bool,
}

/// A pool holds at least one loop and every loop is well-formed.
pub open spec fn pool_wf(p: PoolModel) -> bool {
    &&& p.loops.len() >= 1
    &&& forall|j: int| 0 <= j < p.loops.len() ==> loop_wf(#[trigger] p.loops[j])
}

/// The dispatch counter after one draw: monotonically increasing, reset to
/// 1 on overflow, so after wraparound loop 0 is skipped once.
pub open spec fn next_index(i: usize) -> usize {
    if i == usize::MAX {
        1
    } else {
        (i + 1) as usize
    }
}

/// Successive draws of the dispatch counter hand out distinct sequence
/// numbers, increasing until the wraparound reset.
pub proof fn lemma_next_monotonic(i: usize)
    ensures
        next_index(i) != i,
        i < usize::MAX ==> next_index(i) > i,
{
}

/// The dispatch counter after a number of draws from a fresh pool.
pub open spec fn counter_after(draws: nat) -> usize
    decreases draws,
{
    if draws == 0 {
        0
    } else {
        next_index(counter_after((draws - 1) as nat))
    }
}

/// From a fresh pool of n loops, the first n + 1 draws dispatch to slots
/// 0, 1, …, n − 1 and then 0 again: draw number j + 1 is made at counter j,
/// which hands out slot j % n.
pub proof fn lemma_first_dispatch_cycle(n: usize, j: nat)
    requires
        1 <= n,
        j <= n,
    ensures
        counter_after(j) == j,
        counter_after(j) as int % n as int == j as int % n as int,
    decreases j,
{
    if j > 0 {
        lemma_first_dispatch_cycle(n, (j - 1) as nat);
    }
}

/// What is left of the budget until the deadline for one wait round,
/// capped at 10 ms so no single selector call blocks long.
pub open spec fn step_budget(clock: u64, deadline: u64) -> u64 {
    if clock >= deadline {
        0u64
    } else if deadline - clock > 10_000_000 {
        10_000_000u64
    } else {
        (deadline - clock) as u64
    }
}

/// A pool-level wait drives one loop round by round — run its ready
/// computations, then poll its selector, each round under the capped
/// budget — until the loop's clock reaches the deadline.
pub open spec fn drive_model(s: LoopModel, deadline: u64) -> LoopModel
    decreases deadline - s.clock, queued_reports(s),
        when !s.waiting
    via drive_model_decreases
{
    if step_budget(s.clock, deadline) == 0 {
        s
    } else {
        drive_model(wait_model(s, Some(step_budget(s.clock, deadline)), true), deadline)
    }
}

#[via_fn]
proof fn drive_model_decreases(s: LoopModel, deadline: u64) {
    if step_budget(s.clock, deadline) != 0 {
        lemma_wait_shape(s, Some(step_budget(s.clock, deadline)), true);
    }
}

/// Relies on num_cpus::get: the number of logical CPUs of the machine,
/// documented to always be at least 1.
#[verifier::external_body]
fn cpu_count() -> (r: usize)
    ensures
        1 <= r,
{
    num_cpus::get()
}

pub struct EventLoops {
    loops: Vec<EventLoop>,
    index: usize,
    started: bool,
}

impl View for EventLoops {
    type V = PoolModel;

    closed spec fn view(&self) -> PoolModel {
        PoolModel {
            loops: Seq::new(self.loops@.len(), |j: int| self.loops@[j]@),
            index: self.index,
            started: self.started,
        }
    }
}

impl EventLoops {
    /// A pool of the given number of fresh event loops, dispatching from
    /// slot 0, not yet started.
    pub fn with_loop_count(n: usize) -> (r: Result<EventLoops, RuntimeError>)
        requires
            1 <= n,
        ensures
            ({
                &&& r matches Ok(p)
                &&& p@.loops.len() == n
                &&& forall|j: int| 0 <= j < n ==> #[trigger] p@.loops[j] == loop_init()
                &&& p@.index == 0
                &&& p@.started == false
                &&& pool_wf(p@)
            }),
    {
        let mut loops: Vec<EventLoop> = Vec::new();
        let mut j: usize = 0;
        while j < n
            invariant
                j <= n,
                loops@.len() == j,
                forall|t: int| 0 <= t < j ==> #[trigger] loops@[t]@ == loop_init(),
            decreases n - j,
        {
            let el = match EventLoop::new() {
                Ok(el) => el,
                Err(e) => {
                    return Err(e);
                },
            };
            loops.push(el);
            j += 1;
        }
        Ok(EventLoops { loops, index: 0, started: false })
    }

    /// A pool of one event loop per logical CPU.
    pub fn new() -> (r: Result<EventLoops, RuntimeError>)
        ensures
            ({
                &&& r matches Ok(p)
                &&& p@.loops.len() >= 1
                &&& forall|j: int| 0 <= j < p@.loops.len() ==> #[trigger] p@.loops[j] == loop_init()
                &&& p@.index == 0
                &&& p@.started == false
                &&& pool_wf(p@)
            }),
    {
        let n = cpu_count();
        EventLoops::with_loop_count(n)
    }

    /// Round-robin draw: the slot for this dispatch, advancing the counter
    /// by one, with the overflow reset to 1.
    pub fn next(&mut self) -> (k: usize)
        requires
            old(self)@.loops.len() >= 1,
        ensures
            k as int == old(self)@.index as int % old(self)@.loops.len() as int,
            k < old(self)@.loops.len(),
            final(self)@ == (PoolModel { index: next_index(old(self)@.index), ..old(self)@ }),
    {
        let index = self.index;
        if index == usize::MAX {
            self.index = 1;
        } else {
            self.index = index + 1;
        }
        proof {
            assert(self@ =~~= (PoolModel { index: next_index(old(self)@.index), ..old(self)@ }));
        }
        index % self.loops.len()
    }

    /// The monitor's loop: always slot 0, which must exist and accept
    /// `wait_event` calls; the draw still advances the dispatch counter.
    pub fn monitor(&mut self) -> (k: usize)
        requires
            old(self)@.loops.len() >= 1,
        ensures
            k == 0,
            final(self)@ == (PoolModel { index: next_index(old(self)@.index), ..old(self)@ }),
    {
        let _ = self.next();
        0
    }

    /// Mark the pool started.  Idempotent; the embedder's worker threads
    /// drive `wait_event` on the loops while the flag holds.
    pub fn start(&mut self)
        ensures
            final(self)@ == (PoolModel { started: true, ..old(self)@ }),
    {
        if !self.started {
            self.started = true;
        }
        proof {
            assert(self@ =~~= (PoolModel { started: true, ..old(self)@ }));
        }
    }

    /// Clear the started flag; draining workers observe it and exit.
    pub fn stop(&mut self)
        ensures
            final(self)@ == (PoolModel { started: false, ..old(self)@ }),
    {
        self.started = false;
        proof {
            assert(self@ =~~= (PoolModel { started: false, ..old(self)@ }));
        }
    }

    /// Whether the pool is started.
    pub fn started(&self) -> (r: bool)
        ensures
            r == self@.started,
    {
        self.started
    }

    /// The number of event loops.
    pub fn loop_count(&self) -> (r: usize)
        ensures
            r == self@.loops.len(),
    {
        self.loops.len()
    }

    /// The dispatch counter as it stands.
    pub fn index(&self) -> (r: usize)
        ensures
            r == self@.index,
    {
        self.index
    }

    /// Whether every loop can still allocate a fresh name, so a submission
    /// is accepted whichever loop the round-robin draw picks.
    pub fn can_submit(&self) -> (r: bool)
        ensures
            r == (forall|j: int|
                0 <= j < self@.loops.len() ==> (#[trigger] self@.loops[j]).scheduler.next_name
                    < usize::MAX),
    {
        let n = self.loops.len();
        let mut j: usize = 0;
        while j < n
            invariant
                j <= n,
                n == self@.loops.len(),
                forall|t: int|
                    0 <= t < j ==> (#[trigger] self@.loops[t]).scheduler.next_name < usize::MAX,
            decreases n - j,
        {
            if !self.loops[j].can_submit() {
                proof {
                    assert(!(self@.loops[j as int].scheduler.next_name < usize::MAX));
                }
                return false;
            }
            j += 1;
        }
        true
    }

    /// Direct access to one event loop, for joining handles the pool issued
    /// and for an embedder driving a particular loop.
    pub fn loop_mut(&mut self, k: usize) -> (el: &mut EventLoop)
        requires
            k < old(self)@.loops.len(),
        ensures
            (*el)@ == old(self)@.loops[k as int],
            final(self)@.loops.len() == old(self)@.loops.len(),
            final(self)@.loops[k as int] == (*final(el))@,
            forall|j: int|
                0 <= j < old(self)@.loops.len() && j != k ==> final(self)@.loops[j] == old(
                    self,
                )@.loops[j],
            final(self)@.index == old(self)@.index,
            final(self)@.started == old(self)@.started,
    {
        &mut self.loops[k]
    }

    /// Start the pool if needed, pick the next loop round-robin and submit
    /// the computation to it; the handle is bound to the chosen slot.
    pub fn submit(&mut self, computation: Computation, stack_size: Option<usize>) -> (r: Result<
        JoinHandle,
        RuntimeError,
    >)
        requires
            pool_wf(old(self)@),
            old(self)@.loops[old(self)@.index as int % old(self)@.loops.len() as int].scheduler.next_name
                < usize::MAX,
        ensures
            pool_wf(final(self)@),
            ({
                let k = old(self)@.index as int % old(self)@.loops.len() as int;
                &&& r matches Ok(h) && h@ == old(self)@.loops[k].scheduler.next_name
                &&& final(self)@.loops == old(self)@.loops.update(
                    k,
                    submit_model(old(self)@.loops[k], computation),
                )
                &&& final(self)@.index == next_index(old(self)@.index)
                &&& final(self)@.started == true
            }),
    {
        self.start();
        let k = self.next();
        proof {
            lemma_submit_wf(self@.loops[k as int], computation);
        }
        let r = self.loops[k].submit(computation, stack_size);
        proof {
            assert(self@.loops =~~= old(self)@.loops.update(
                k as int,
                submit_model(old(self)@.loops[k as int], computation),
            ));
            assert(pool_wf(self@));
        }
        r
    }

    /// Ask the next loop to drain until the absolute deadline, poll it once
    /// without blocking, and report the remaining budget.
    pub fn try_timeout_schedule(&mut self, timeout_time: u64) -> (r: Result<u64, RuntimeError>)
        requires
            pool_wf(old(self)@),
        ensures
            pool_wf(final(self)@),
            ({
                let k = old(self)@.index as int % old(self)@.loops.len() as int;
                let m2 = wait_model(
                    drain_model(
                        clear_ready(old(self)@.loops[k]),
                        old(self)@.loops[k].scheduler.ready,
                    ),
                    Some(0u64),
                    false,
                );
                &&& final(self)@.loops == old(self)@.loops.update(k, m2)
                &&& final(self)@.index == next_index(old(self)@.index)
                &&& final(self)@.started == old(self)@.started
                &&& r == Ok::<u64, RuntimeError>(
                    if timeout_time > m2.clock {
                        (timeout_time - m2.clock) as u64
                    } else {
                        0u64
                    },
                )
            }),
    {
        let k = self.next();
        proof {
            let s = self@.loops[k as int];
            let s1 = drain_model(clear_ready(s), s.scheduler.ready);
            crate::event_loop::lemma_drain(clear_ready(s), s.scheduler.ready);
            lemma_wait_wf(s1, Some(0u64), false);
        }
        let r = self.loops[k].try_timeout_schedule(timeout_time);
        proof {
            let s = old(self)@.loops[k as int];
            let m2 = wait_model(
                drain_model(clear_ready(s), s.scheduler.ready),
                Some(0u64),
                false,
            );
            assert(self@.loops =~~= old(self)@.loops.update(k as int, m2));
            assert(pool_wf(self@));
        }
        r
    }
    /// Drive the next loop until the time budget is consumed, capping each
    /// selector wait at 10 ms so no single call blocks long; its clock ends
    /// exactly at the deadline the budget names.
    pub fn wait_event(&mut self, timeout: Option<u64>) -> (r: Result<(), RuntimeError>)
        requires
            pool_wf(old(self)@),
        ensures
            r == Ok::<(), RuntimeError>(()),
            pool_wf(final(self)@),
            final(self)@.index == next_index(old(self)@.index),
            final(self)@.started == old(self)@.started,
            final(self)@.loops.len() == old(self)@.loops.len(),
            ({
                let k = old(self)@.index as int % old(self)@.loops.len() as int;
                &&& forall|j: int|
                    0 <= j < old(self)@.loops.len() && j != k ==> final(self)@.loops[j] == old(
                        self,
                    )@.loops[j]
                &&& final(self)@.loops[k] == drive_model(
                    old(self)@.loops[k],
                    advance_clock(old(self)@.loops[k].clock, timeout),
                )
                &&& final(self)@.loops[k].clock == advance_clock(old(self)@.loops[k].clock, timeout)
                &&& loop_wf(final(self)@.loops[k])
                &&& old(self)@.loops[k].scheduler.results.submap_of(
                    final(self)@.loops[k].scheduler.results,
                )
            }),
    {
        let k = self.next();
        let start_clock = self.loops[k].now();
        let deadline = match timeout {
            None => u64::MAX,
            Some(t) => if t > u64::MAX - start_clock {
                u64::MAX
            } else {
                start_clock + t
            },
        };
        loop
            invariant
                pool_wf(old(self)@),
                k < self@.loops.len(),
                k as int == old(self)@.index as int % old(self)@.loops.len() as int,
                self@.loops.len() == old(self)@.loops.len(),
                self@.index == next_index(old(self)@.index),
                self@.started == old(self)@.started,
                forall|j: int|
                    0 <= j < old(self)@.loops.len() && j != k ==> self@.loops[j] == old(
                        self,
                    )@.loops[j],
                loop_wf(self@.loops[k as int]),
                deadline == advance_clock(old(self)@.loops[k as int].clock, timeout),
                self@.loops[k as int].clock <= deadline,
                drive_model(self@.loops[k as int], deadline) == drive_model(
                    old(self)@.loops[k as int],
                    deadline,
                ),
                old(self)@.loops[k as int].scheduler.results.submap_of(
                    self@.loops[k as int].scheduler.results,
                ),
            ensures
                self@.loops.len() == old(self)@.loops.len(),
                self@.index == next_index(old(self)@.index),
                self@.started == old(self)@.started,
                forall|j: int|
                    0 <= j < old(self)@.loops.len() && j != k ==> self@.loops[j] == old(
                        self,
                    )@.loops[j],
                loop_wf(self@.loops[k as int]),
                self@.loops[k as int].clock == deadline,
                self@.loops[k as int] == drive_model(old(self)@.loops[k as int], deadline),
                old(self)@.loops[k as int].scheduler.results.submap_of(
                    self@.loops[k as int].scheduler.results,
                ),
            decreases
                    deadline - self@.loops[k as int].clock,
                    self@.loops[k as int].selector.ready_read.len()
                        + self@.loops[k as int].selector.ready_write.len(),
        {
            let now = self.loops[k].now();
            let mut left_time: u64 = if deadline > now {
                deadline - now
            } else {
                0
            };
            if left_time > 10_000_000 {
                left_time = 10_000_000;
            }
            if left_time == 0 {
                proof {
                    assert(step_budget(self@.loops[k as int].clock, deadline) == 0);
                    assert(drive_model(self@.loops[k as int], deadline)
                        == self@.loops[k as int]);
                }
                break ;
            }
            proof {
                lemma_wait_wf(self@.loops[k as int], Some(left_time), true);
            }
            let ghost before = self@;
            self.loops[k].wait_event(Some(left_time))?;
            proof {
                lemma_submap_of_trans(
                    old(self)@.loops[k as int].scheduler.results,
                    before.loops[k as int].scheduler.results,
                    self@.loops[k as int].scheduler.results,
                );
                assert(left_time == step_budget(before.loops[k as int].clock, deadline));
                assert(self@.loops[k as int] == wait_model(
                    before.loops[k as int],
                    Some(left_time),
                    true,
                ));
                assert(drive_model(before.loops[k as int], deadline) == drive_model(
                    self@.loops[k as int],
                    deadline,
                ));
            }
        }
        proof {
            assert forall|t: int| 0 <= t < self@.loops.len() implies loop_wf(
                #[trigger] self@.loops[t],
            ) by {
                if t != k {
                    assert(loop_wf(old(self)@.loops[t]));
                }
            }
        }
        Ok(())
    }

    /// Register read interest on the descriptor with the next loop, then
    /// wait for events on it once.
    pub fn wait_read_event(&mut self, fd: i32, timeout: Option<u64>) -> (r: Result<
        (),
        RuntimeError,
    >)
        requires
            pool_wf(old(self)@),
        ensures
            r == Ok::<(), RuntimeError>(()),
            pool_wf(final(self)@),
            final(self)@.index == next_index(old(self)@.index),
            final(self)@.started == old(self)@.started,
            final(self)@.loops.len() == old(self)@.loops.len(),
            ({
                let k = old(self)@.index as int % old(self)@.loops.len() as int;
                &&& forall|j: int|
                    0 <= j < old(self)@.loops.len() && j != k ==> final(self)@.loops[j] == old(
                        self,
                    )@.loops[j]
                &&& final(self)@.loops[k] == wait_model(
                    add_read_model(old(self)@.loops[k], fd, 0),
                    timeout,
                    true,
                )
            }),
    {
        let k = self.next();
        proof {
            lemma_add_read_wf(self@.loops[k as int], fd, 0);
            lemma_wait_wf(add_read_model(self@.loops[k as int], fd, 0), timeout, true);
        }
        let ghost before = self@;
        let r = self.loops[k].wait_read_event(fd, timeout);
        proof {
            assert(self@.loops[k as int] == wait_model(
                add_read_model(before.loops[k as int], fd, 0),
                timeout,
                true,
            ));
            assert forall|t: int| 0 <= t < self@.loops.len() implies loop_wf(
                #[trigger] self@.loops[t],
            ) by {
                if t != k {
                    assert(loop_wf(old(self)@.loops[t]));
                }
            }
        }
        r
    }

    /// Register write interest on the descriptor with the next loop, then
    /// wait for events on it once.
    pub fn wait_write_event(&mut self, fd: i32, timeout: Option<u64>) -> (r: Result<
        (),
        RuntimeError,
    >)
        requires
            pool_wf(old(self)@),
        ensures
            r == Ok::<(), RuntimeError>(()),
            pool_wf(final(self)@),
            final(self)@.index == next_index(old(self)@.index),
            final(self)@.started == old(self)@.started,
            final(self)@.loops.len() == old(self)@.loops.len(),
            ({
                let k = old(self)@.index as int % old(self)@.loops.len() as int;
                &&& forall|j: int|
                    0 <= j < old(self)@.loops.len() && j != k ==> final(self)@.loops[j] == old(
                        self,
                    )@.loops[j]
                &&& final(self)@.loops[k] == wait_model(
                    add_write_model(old(self)@.loops[k], fd, 0),
                    timeout,
                    true,
                )
            }),
    {
        let k = self.next();
        proof {
            lemma_add_write_wf(self@.loops[k as int], fd, 0);
            lemma_wait_wf(add_write_model(self@.loops[k as int], fd, 0), timeout, true);
        }
        let ghost before = self@;
        let r = self.loops[k].wait_write_event(fd, timeout);
        proof {
            assert(self@.loops[k as int] == wait_model(
                add_write_model(before.loops[k as int], fd, 0),
                timeout,
                true,
            ));
            assert forall|t: int| 0 <= t < self@.loops.len() implies loop_wf(
                #[trigger] self@.loops[t],
            ) by {
                if t != k {
                    assert(loop_wf(old(self)@.loops[t]));
                }
            }
        }
        r
    }

    /// Remove the descriptor from every loop: each may independently hold a
    /// registration for it, and one not holding it loses nothing.
    pub fn del_event(&mut self, fd: i32)
        requires
            pool_wf(old(self)@),
        ensures
            pool_wf(final(self)@),
            final(self)@.index == old(self)@.index,
            final(self)@.started == old(self)@.started,
            final(self)@.loops.len() == old(self)@.loops.len(),
            forall|j: int|
                0 <= j < old(self)@.loops.len() ==> final(self)@.loops[j] == del_event_model(
                    old(self)@.loops[j],
                    fd,
                ),
    {
        let n = self.loops.len();
        let mut j: usize = 0;
        while j < n
            invariant
                pool_wf(old(self)@),
                j <= n,
                n == self@.loops.len(),
                n == old(self)@.loops.len(),
                self@.index == old(self)@.index,
                self@.started == old(self)@.started,
                forall|t: int|
                    0 <= t < j ==> self@.loops[t] == del_event_model(old(self)@.loops[t], fd),
                forall|t: int| j <= t < n ==> self@.loops[t] == old(self)@.loops[t],
            decreases n - j,
        {
            let ghost before = self@;
            let _ = self.loops[j].del_event(fd);
            proof {
                assert(self@.loops[j as int] == del_event_model(before.loops[j as int], fd));
                assert forall|t: int| 0 <= t < j + 1 implies self@.loops[t] == del_event_model(
                    old(self)@.loops[t],
                    fd,
                ) by {
                    if t < j {
                        assert(self@.loops[t] == before.loops[t]);
                        assert(before.loops[t] == del_event_model(old(self)@.loops[t], fd));
                    } else {
                        assert(before.loops[j as int] == old(self)@.loops[j as int]);
                    }
                }
                assert forall|t: int| j + 1 <= t < n implies self@.loops[t] == old(
                    self,
                )@.loops[t] by {
                    assert(self@.loops[t] == before.loops[t]);
                }
            }
            j += 1;
        }
        proof {
            assert forall|t: int| 0 <= t < self@.loops.len() implies loop_wf(
                #[trigger] self@.loops[t],
            ) by {
                lemma_del_event_wf(old(self)@.loops[t], fd);
            }
        }
    }

    /// Drop the read interest for the descriptor in every loop, narrowing
    /// where a write interest is registered too.
    pub fn del_read_event(&mut self, fd: i32)
        requires
            pool_wf(old(self)@),
        ensures
            pool_wf(final(self)@),
            final(self)@.index == old(self)@.index,
            final(self)@.started == old(self)@.started,
            final(self)@.loops.len() == old(self)@.loops.len(),
            forall|j: int|
                0 <= j < old(self)@.loops.len() ==> final(self)@.loops[j] == del_read_model(
                    old(self)@.loops[j],
                    fd,
                ),
    {
        let n = self.loops.len();
        let mut j: usize = 0;
        while j < n
            invariant
                pool_wf(old(self)@),
                j <= n,
                n == self@.loops.len(),
                n == old(self)@.loops.len(),
                self@.index == old(self)@.index,
                self@.started == old(self)@.started,
                forall|t: int|
                    0 <= t < j ==> self@.loops[t] == del_read_model(old(self)@.loops[t], fd),
                forall|t: int| j <= t < n ==> self@.loops[t] == old(self)@.loops[t],
            decreases n - j,
        {
            let ghost before = self@;
            let _ = self.loops[j].del_read_event(fd);
            proof {
                assert(self@.loops[j as int] == del_read_model(before.loops[j as int], fd));
                assert forall|t: int| 0 <= t < j + 1 implies self@.loops[t] == del_read_model(
                    old(self)@.loops[t],
                    fd,
                ) by {
                    if t < j {
                        assert(self@.loops[t] == before.loops[t]);
                        assert(before.loops[t] == del_read_model(old(self)@.loops[t], fd));
                    } else {
                        assert(before.loops[j as int] == old(self)@.loops[j as int]);
                    }
                }
                assert forall|t: int| j + 1 <= t < n implies self@.loops[t] == old(
                    self,
                )@.loops[t] by {
                    assert(self@.loops[t] == before.loops[t]);
                }
            }
            j += 1;
        }
        proof {
            assert forall|t: int| 0 <= t < self@.loops.len() implies loop_wf(
                #[trigger] self@.loops[t],
            ) by {
                lemma_del_read_wf(old(self)@.loops[t], fd);
            }
        }
    }

    /// Drop the write interest for the descriptor in every loop, narrowing
    /// where a read interest is registered too.
    pub fn del_write_event(&mut self, fd: i32)
        requires
            pool_wf(old(self)@),
        ensures
            pool_wf(final(self)@),
            final(self)@.index == old(self)@.index,
            final(self)@.started == old(self)@.started,
            final(self)@.loops.len() == old(self)@.loops.len(),
            forall|j: int|
                0 <= j < old(self)@.loops.len() ==> final(self)@.loops[j] == del_write_model(
                    old(self)@.loops[j],
                    fd,
                ),
    {
        let n = self.loops.len();
        let mut j: usize = 0;
        while j < n
            invariant
                pool_wf(old(self)@),
                j <= n,
                n == self@.loops.len(),
                n == old(self)@.loops.len(),
                self@.index == old(self)@.index,
                self@.started == old(self)@.started,
                forall|t: int|
                    0 <= t < j ==> self@.loops[t] == del_write_model(old(self)@.loops[t], fd),
                forall|t: int| j <= t < n ==> self@.loops[t] == old(self)@.loops[t],
            decreases n - j,
        {
            let ghost before = self@;
            let _ = self.loops[j].del_write_event(fd);
            proof {
                assert(self@.loops[j as int] == del_write_model(before.loops[j as int], fd));
                assert forall|t: int| 0 <= t < j + 1 implies self@.loops[t] == del_write_model(
                    old(self)@.loops[t],
                    fd,
                ) by {
                    if t < j {
                        assert(self@.loops[t] == before.loops[t]);
                        assert(before.loops[t] == del_write_model(old(self)@.loops[t], fd));
                    } else {
                        assert(before.loops[j as int] == old(self)@.loops[j as int]);
                    }
                }
                assert forall|t: int| j + 1 <= t < n implies self@.loops[t] == old(
                    self,
                )@.loops[t] by {
                    assert(self@.loops[t] == before.loops[t]);
                }
            }
            j += 1;
        }
        proof {
            assert forall|t: int| 0 <= t < self@.loops.len() implies loop_wf(
                #[trigger] self@.loops[t],
            ) by {
                lemma_del_write_wf(old(self)@.loops[t], fd);
            }
        }
    }
}

} // verus!
