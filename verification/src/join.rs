//! The join handle: the rendezvous primitive that drives an event loop
//! until a named computation's result is available or a deadline elapses.
//!
//! A handle carries the computation's interned name; the sentinel handle
//! carries 0 and its operations return "no result" immediately.  Joining
//! names the loop the handle was issued by explicitly, as the runtime object
//! holds the loops.

use vstd::prelude::*;
use crate::RuntimeError;
use crate::event_loop::EventLoop;
use crate::event_loop::advance_clock;
use crate::event_loop::eventual_result;
use crate::event_loop::known_name;
use crate::event_loop::lemma_wait_name;
use crate::event_loop::lemma_wait_wf;
use crate::event_loop::loop_wf;
use crate::event_loop::resolvable;
use vstd::map_lib::lemma_submap_of_trans;

verus! {

/// An awaitable reference to a submitted computation.
#[derive(Clone, Copy, Debug, PartialEq, Eq, Structural)]
pub struct JoinHandle {
    co_name: usize,
}

impl View for JoinHandle {
    type V = usize;

    closed spec fn view(&self) -> usize {
        self.co_name
    }
}

impl JoinHandle {
    pub(crate) fn new(co_name: usize) -> (r: Self)
        ensures
            r@ == co_name,
    {
        JoinHandle { co_name }
    }

    /// The sentinel handle, produced by submit-adjacent error paths: its
    /// operations return "no result" without error.
    pub fn error() -> (r: Self)
        ensures
            r@ == 0,
    {
        JoinHandle { co_name: 0 }
    }

    /// The interned name of the computation the handle refers to.
    pub fn co_name(&self) -> (r: usize)
        ensures
            r == self@,
    {
        self.co_name
    }

    /// Block until the named computation's result is available, driving the
    /// bound event loop meanwhile; a result is returned exactly when the
    /// computation completed, and it is the payload the computation was
    /// submitted to deliver.  The result cell is not consumed, and every
    /// other name the loop knows keeps its eventual result, so joins chain
    /// in any order.  The sentinel handle returns no result, without error
    /// and without touching the loop.
    pub fn join(self, event_loop: &mut EventLoop) -> (r: Result<Option<usize>, RuntimeError>)
        requires
            loop_wf(old(event_loop)@),
            self@ == 0 || resolvable(old(event_loop)@, self@),
        ensures
            loop_wf(final(event_loop)@),
            old(event_loop)@.scheduler.results.submap_of(final(event_loop)@.scheduler.results),
            forall|n: usize| #[trigger]
                known_name(old(event_loop)@, n) ==> known_name(final(event_loop)@, n)
                    && eventual_result(final(event_loop)@, n) == eventual_result(
                    old(event_loop)@,
                    n,
                ),
            forall|n: usize| #[trigger]
                resolvable(old(event_loop)@, n) ==> resolvable(final(event_loop)@, n),
            self@ == 0 ==> r == Ok::<Option<usize>, RuntimeError>(None) && final(event_loop)@
                == old(event_loop)@,
            self@ != 0 ==> r == Ok::<Option<usize>, RuntimeError>(
                Some(eventual_result(old(event_loop)@, self@)),
            ) && final(event_loop)@.scheduler.results.contains_key(self@),
    {
        if self.co_name == 0 {
            return Ok(None);
        }
        let name = self.co_name;
        let ghost orig = event_loop@;
        loop
            invariant
                orig == old(event_loop)@,
                loop_wf(event_loop@),
                name == self@ && name != 0,
                resolvable(event_loop@, name),
                eventual_result(event_loop@, name) == eventual_result(orig, name),
                orig.scheduler.results.submap_of(event_loop@.scheduler.results),
                forall|n: usize| #[trigger]
                    known_name(orig, n) ==> known_name(event_loop@, n) && eventual_result(
                        event_loop@,
                        n,
                    ) == eventual_result(orig, n),
                forall|n: usize| #[trigger]
                    resolvable(orig, n) ==> resolvable(event_loop@, n),
            decreases
                    crate::event_loop::queued_reports(event_loop@),
                    crate::event_loop::join_rank(event_loop@, name),
        {
            match event_loop.get_result(name) {
                Some(v) => {
                    return Ok(Some(v));
                },
                None => {},
            }
            proof {
                lemma_wait_name(event_loop@, Some(10_000_000u64), true, name);
                lemma_wait_wf(event_loop@, Some(10_000_000u64), true);
            }
            let ghost before = event_loop@;
            event_loop.wait_event(Some(10_000_000))?;
            proof {
                lemma_submap_of_trans(
                    orig.scheduler.results,
                    before.scheduler.results,
                    event_loop@.scheduler.results,
                );
                assert forall|n: usize| #[trigger] known_name(orig, n) implies known_name(
                    event_loop@,
                    n,
                ) && eventual_result(event_loop@, n) == eventual_result(orig, n) by {
                    lemma_wait_name(before, Some(10_000_000u64), true, n);
                }
                assert forall|n: usize| #[trigger] resolvable(orig, n) implies resolvable(
                    event_loop@,
                    n,
                ) by {
                    crate::event_loop::lemma_resolvable_known(before, n);
                    lemma_wait_name(before, Some(10_000_000u64), true, n);
                }
            }
        }
    }

    /// As `join`, but giving up once the loop's clock reaches the absolute
    /// deadline: the attempt fails with `TimedOut` exactly while no result
    /// is recorded for the name, and the computation stays alive with its
    /// eventual result intact, so joining again later is permitted.  A
    /// result recorded before the call is returned whatever the deadline; a
    /// computation due to resolve is joined whenever the deadline has not
    /// yet passed; a call whose deadline has already passed fails at once,
    /// leaving the loop untouched.
    pub fn timeout_at_join(&self, event_loop: &mut EventLoop, timeout_time: u64) -> (r: Result<
        Option<usize>,
        RuntimeError,
    >)
        requires
            loop_wf(old(event_loop)@),
            self@ == 0 || known_name(old(event_loop)@, self@),
        ensures
            loop_wf(final(event_loop)@),
            old(event_loop)@.scheduler.results.submap_of(final(event_loop)@.scheduler.results),
            forall|n: usize| #[trigger]
                known_name(old(event_loop)@, n) ==> known_name(final(event_loop)@, n)
                    && eventual_result(final(event_loop)@, n) == eventual_result(
                    old(event_loop)@,
                    n,
                ),
            forall|n: usize| #[trigger]
                resolvable(old(event_loop)@, n) ==> resolvable(final(event_loop)@, n),
            self@ == 0 ==> r == Ok::<Option<usize>, RuntimeError>(None) && final(event_loop)@
                == old(event_loop)@,
            self@ != 0 ==> {
                ||| (r == Ok::<Option<usize>, RuntimeError>(
                    Some(eventual_result(old(event_loop)@, self@)),
                ) && final(event_loop)@.scheduler.results.contains_key(self@))
                ||| (r == Err::<Option<usize>, RuntimeError>(RuntimeError::TimedOut)
                    && final(event_loop)@.clock >= timeout_time
                    && !final(event_loop)@.scheduler.results.contains_key(self@))
            },
            self@ != 0 && !old(event_loop)@.scheduler.results.contains_key(self@)
                && timeout_time <= old(event_loop)@.clock ==> r == Err::<
                Option<usize>,
                RuntimeError,
            >(RuntimeError::TimedOut) && final(event_loop)@ == old(event_loop)@,
            self@ != 0 && (old(event_loop)@.scheduler.results.contains_key(self@)
                || (resolvable(old(event_loop)@, self@) && old(event_loop)@.clock < timeout_time))
                ==> r == Ok::<Option<usize>, RuntimeError>(
                Some(eventual_result(old(event_loop)@, self@)),
            ),
    {
        if self.co_name == 0 {
            return Ok(None);
        }
        let name = self.co_name;
        let ghost orig = event_loop@;
        let mut result = event_loop.get_result(name);
        while result.is_none()
            invariant
                orig == old(event_loop)@,
                orig.scheduler.results.contains_key(name) ==> result is Some,
                result is None ==> !event_loop@.scheduler.results.contains_key(name),
                loop_wf(event_loop@),
                name == self@ && name != 0,
                known_name(event_loop@, name),
                eventual_result(event_loop@, name) == eventual_result(orig, name),
                orig.scheduler.results.submap_of(event_loop@.scheduler.results),
                event_loop@.clock >= orig.clock,
                result matches Some(v) ==> event_loop@.scheduler.results.contains_key(name)
                    && v == event_loop@.scheduler.results[name],
                resolvable(orig, name) && orig.clock < timeout_time && !orig.scheduler.results.contains_key(name)
                    ==> (result is Some || (event_loop@.clock == orig.clock && resolvable(
                    event_loop@,
                    name,
                ))),
                !orig.scheduler.results.contains_key(name) && timeout_time <= orig.clock
                    ==> event_loop@ == orig,
                forall|n: usize| #[trigger]
                    known_name(orig, n) ==> known_name(event_loop@, n) && eventual_result(
                        event_loop@,
                        n,
                    ) == eventual_result(orig, n),
                forall|n: usize| #[trigger]
                    resolvable(orig, n) ==> resolvable(event_loop@, n),
            decreases
                    (if timeout_time > event_loop@.clock {
                        timeout_time - event_loop@.clock
                    } else {
                        0int
                    }),
                    event_loop@.selector.ready_read.len()
                        + event_loop@.selector.ready_write.len(),
        {
            let now = event_loop.now();
            let mut left_time: u64 = if timeout_time > now {
                timeout_time - now
            } else {
                0
            };
            if left_time > 10_000_000 {
                left_time = 10_000_000;
            }
            if left_time == 0 {
                return Err(RuntimeError::TimedOut);
            }
            proof {
                lemma_wait_name(event_loop@, Some(left_time), true, name);
                lemma_wait_wf(event_loop@, Some(left_time), true);
            }
            let ghost before = event_loop@;
            event_loop.wait_event(Some(left_time))?;
            proof {
                lemma_submap_of_trans(
                    orig.scheduler.results,
                    before.scheduler.results,
                    event_loop@.scheduler.results,
                );
                assert forall|n: usize| #[trigger] known_name(orig, n) implies known_name(
                    event_loop@,
                    n,
                ) && eventual_result(event_loop@, n) == eventual_result(orig, n) by {
                    lemma_wait_name(before, Some(left_time), true, n);
                }
                assert forall|n: usize| #[trigger] resolvable(orig, n) implies resolvable(
                    event_loop@,
                    n,
                ) by {
                    crate::event_loop::lemma_resolvable_known(before, n);
                    lemma_wait_name(before, Some(left_time), true, n);
                }
            }
            result = event_loop.get_result(name);
        }
        Ok(result)
    }

    /// As `timeout_at_join`, with the deadline the loop's clock plus the
    /// given duration in nanoseconds, saturating.
    pub fn timeout_join(&self, event_loop: &mut EventLoop, dur: u64) -> (r: Result<
        Option<usize>,
        RuntimeError,
    >)
        requires
            loop_wf(old(event_loop)@),
            self@ == 0 || known_name(old(event_loop)@, self@),
        ensures
            loop_wf(final(event_loop)@),
            old(event_loop)@.scheduler.results.submap_of(final(event_loop)@.scheduler.results),
            forall|n: usize| #[trigger]
                known_name(old(event_loop)@, n) ==> known_name(final(event_loop)@, n)
                    && eventual_result(final(event_loop)@, n) == eventual_result(
                    old(event_loop)@,
                    n,
                ),
            forall|n: usize| #[trigger]
                resolvable(old(event_loop)@, n) ==> resolvable(final(event_loop)@, n),
            self@ == 0 ==> r == Ok::<Option<usize>, RuntimeError>(None) && final(event_loop)@
                == old(event_loop)@,
            self@ != 0 ==> {
                ||| (r == Ok::<Option<usize>, RuntimeError>(
                    Some(eventual_result(old(event_loop)@, self@)),
                ) && final(event_loop)@.scheduler.results.contains_key(self@))
                ||| (r == Err::<Option<usize>, RuntimeError>(RuntimeError::TimedOut)
                    && final(event_loop)@.clock >= advance_clock(
                    old(event_loop)@.clock,
                    Some(dur),
                ) && !final(event_loop)@.scheduler.results.contains_key(self@))
            },
            self@ != 0 && !old(event_loop)@.scheduler.results.contains_key(self@) && dur == 0
                ==> r == Err::<Option<usize>, RuntimeError>(RuntimeError::TimedOut)
                && final(event_loop)@ == old(event_loop)@,
            self@ != 0 && (old(event_loop)@.scheduler.results.contains_key(self@)
                || (resolvable(old(event_loop)@, self@) && dur > 0 && old(event_loop)@.clock
                    < u64::MAX)) ==> r == Ok::<
                Option<usize>,
                RuntimeError,
            >(Some(eventual_result(old(event_loop)@, self@))),
    {
        let now = event_loop.now();
        let deadline = if dur > u64::MAX - now {
            u64::MAX
        } else {
            now + dur
        };
        self.timeout_at_join(event_loop, deadline)
    }
}

} // verus!
