//! Scheduler of named computations.
//!
//! The scheduler interns computation names: each submission is assigned a
//! fresh integer name, the sole handle by which its result is later looked
//! up.  Names start at 1; 0 is the sentinel token meaning "a thread-level
//! wait, no computation to resume".  A computation's name doubles as the
//! token its descriptor registrations are made under, so a readiness event
//! leads straight back to the suspended computation.
//!
//! A computation is characterised by its observable behaviour: it may first
//! await readiness on a descriptor, and it produces an opaque pointer-sized
//! payload.  Running a ready computation, registering its interest and
//! storing its result is driven by the event loop that owns this scheduler.

use vstd::prelude::*;
use std::collections::HashMap;

verus! {

broadcast use vstd::std_specs::hash::group_hash_axioms;

/// What a submitted computation does when it runs.
#[derive(Clone, Copy, Debug, PartialEq, Eq, Structural)]
pub enum Computation {
    /// Complete at once with the given payload.
    Finish(usize),
    /// Register read interest on the descriptor, suspend until it fires,
    /// then complete with the given payload.
    AwaitRead(i32, usize),
    /// Register write interest on the descriptor, suspend until it fires,
    /// then complete with the given payload.
    AwaitWrite(i32, usize),
}

/// The payload a computation eventually delivers.
pub open spec fn payload_of(c: Computation) -> usize {
    match c {
        Computation::Finish(v) => v,
        Computation::AwaitRead(_, v) => v,
        Computation::AwaitWrite(_, v) => v,
    }
}

/// Mathematical state of a scheduler: the next fresh name, the ready queue
/// in submission order, the computations suspended on a descriptor (keyed by
/// name, holding the payload they deliver when resumed), and the results of
/// completed computations (keyed by name).
#[verifier::ext_equal]
pub struct SchedModel {
    pub next_name: usize,
    pub ready: Seq<(usize, Computation)>,
    pub suspended: Map<usize, usize>,
    pub results: Map<usize, usize>,
}

/// Well-formedness: names are interned in order, so every live name is below
/// the allocation counter, never the sentinel 0, and no name is in two
/// places at once.
pub open spec fn sched_wf(s: SchedModel) -> bool {
    &&& 1 <= s.next_name
    &&& forall|i: int|
        0 <= i < s.ready.len() ==> 1 <= (#[trigger] s.ready[i]).0 < s.next_name
    &&& forall|i: int, j: int|
        0 <= i < j < s.ready.len() ==> (#[trigger] s.ready[i]).0 != (#[trigger] s.ready[j]).0
    &&& forall|i: int|
        0 <= i < s.ready.len() ==> !s.suspended.contains_key((#[trigger] s.ready[i]).0)
            && !s.results.contains_key(s.ready[i].0)
    &&& forall|n: usize|
        s.suspended.contains_key(n) ==> 1 <= n < s.next_name && !s.results.contains_key(n)
    &&& forall|n: usize| s.results.contains_key(n) ==> 1 <= n < s.next_name
}

pub struct Scheduler {
    next_name: usize,
    ready: Vec<(usize, Computation)>,
    suspended: HashMap<usize, usize>,
    results: HashMap<usize, usize>,
}

impl View for Scheduler {
    type V = SchedModel;

    closed spec fn view(&self) -> SchedModel {
        SchedModel {
            next_name: self.next_name,
            ready: self.ready@,
            suspended: self.suspended@,
            results: self.results@,
        }
    }
}

pub open spec fn sched_init() -> SchedModel {
    SchedModel {
        next_name: 1,
        ready: Seq::<(usize, Computation)>::empty(),
        suspended: Map::<usize, usize>::empty(),
        results: Map::<usize, usize>::empty(),
    }
}

impl Scheduler {
    pub fn new() -> (r: Self)
        ensures
            r@ == sched_init(),
    {
        Scheduler {
            next_name: 1,
            ready: Vec::new(),
            suspended: HashMap::new(),
            results: HashMap::new(),
        }
    }

    /// Allocate a fresh unique name for the computation and enqueue it.
    /// Nothing runs synchronously.
    pub fn submit(&mut self, computation: Computation) -> (name: usize)
        requires
            old(self)@.next_name < usize::MAX,
        ensures
            name == old(self)@.next_name,
            final(self)@ == (SchedModel {
                next_name: (old(self)@.next_name + 1) as usize,
                ready: old(self)@.ready.push((old(self)@.next_name, computation)),
                ..old(self)@
            }),
    {
        let name = self.next_name;
        self.next_name = self.next_name + 1;
        self.ready.push((name, computation));
        name
    }

    /// Non-blocking result lookup; the result cell is left in place, so a
    /// later lookup returns the same payload.
    pub fn get_result(&self, name: usize) -> (r: Option<usize>)
        ensures
            r == (if self@.results.contains_key(name) {
                Some(self@.results[name])
            } else {
                None::<usize>
            }),
    {
        match self.results.get(&name) {
            Some(v) => Some(*v),
            None => None,
        }
    }

    /// Mark the computation associated with the token ready again.  The
    /// sentinel token 0, or a token no computation is suspended under, is a
    /// no-op.
    pub fn resume_syscall(&mut self, token: usize)
        ensures
            final(self)@ == resume_model(old(self)@, token),
    {
        if token != 0 {
            match self.suspended.get(&token) {
                Some(v) => {
                    let payload = *v;
                    self.suspended.remove(&token);
                    self.ready.push((token, Computation::Finish(payload)));
                },
                None => {},
            }
        }
    }

    /// Record the result of a completed computation.
    pub fn complete(&mut self, name: usize, payload: usize)
        ensures
            final(self)@ == (SchedModel { results: old(self)@.results.insert(name, payload), ..old(self)@ }),
    {
        self.results.insert(name, payload);
    }

    /// Record that a computation suspended awaiting a descriptor, holding the
    /// payload it will deliver once resumed and completed.
    pub fn suspend(&mut self, name: usize, payload: usize)
        ensures
            final(self)@ == (SchedModel { suspended: old(self)@.suspended.insert(name, payload), ..old(self)@ }),
    {
        self.suspended.insert(name, payload);
    }

    /// Whether a fresh name can still be allocated.
    pub fn has_capacity(&self) -> (r: bool)
        ensures
            r == (self@.next_name < usize::MAX),
    {
        self.next_name < usize::MAX
    }

    /// Whether the scheduler tracks the name: as a result, a suspended
    /// computation or a ready one.
    pub fn knows(&self, name: usize) -> (r: bool)
        ensures
            r == ({
                ||| self@.results.contains_key(name)
                ||| self@.suspended.contains_key(name)
                ||| exists|i: int|
                    0 <= i < self@.ready.len() && (#[trigger] self@.ready[i]).0 == name
            }),
    {
        if self.results.contains_key(&name) || self.suspended.contains_key(&name) {
            return true;
        }
        let n = self.ready.len();
        let mut i: usize = 0;
        while i < n
            invariant
                i <= n,
                n == self@.ready.len(),
                forall|t: int| 0 <= t < i ==> (#[trigger] self@.ready[t]).0 != name,
            decreases n - i,
        {
            if self.ready[i].0 == name {
                return true;
            }
            i += 1;
        }
        false
    }

    /// Take the whole ready queue, leaving it empty, so the owning event loop
    /// can run each computation in submission order.
    pub fn take_ready(&mut self) -> (q: Vec<(usize, Computation)>)
        ensures
            q@ == old(self)@.ready,
            final(self)@ == (SchedModel { ready: Seq::<(usize, Computation)>::empty(), ..old(self)@ }),
    {
        let mut q: Vec<(usize, Computation)> = Vec::new();
        std::mem::swap(&mut q, &mut self.ready);
        q
    }
}

/// Scheduler state after `resume_syscall`: a suspended computation moves back
/// to the ready queue, due to complete at once with its payload.
pub open spec fn resume_model(s: SchedModel, token: usize) -> SchedModel {
    if token != 0 && s.suspended.contains_key(token) {
        SchedModel {
            ready: s.ready.push((token, Computation::Finish(s.suspended[token]))),
            suspended: s.suspended.remove(token),
            ..s
        }
    } else {
        s
    }
}

} // verus!
