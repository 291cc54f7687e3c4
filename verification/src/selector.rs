//! In-memory readiness selector.
//!
//! Stands in for the operating system's readiness facility (epoll, kqueue,
//! IOCP-readiness): file descriptors are registered under `(token, interest)`
//! and readiness is reported as events.  The host environment reports that a
//! descriptor became ready through `notify_readable` / `notify_writable`;
//! `select` hands one pending event for a registered descriptor back and, as
//! with a one-shot registration, clears the fired side's interest, so a new
//! wait must re-register.

use vstd::prelude::*;
use std::collections::HashMap;

verus! {

broadcast use vstd::std_specs::hash::group_hash_axioms;

/// The readiness interest a file descriptor is registered under.
#[derive(Clone, Copy, Debug, PartialEq, Eq, Structural)]
pub enum Interest {
    Readable,
    Writable,
}

/// One readiness notification, as produced by `Selector::select`.
#[derive(Clone, Copy, Debug, PartialEq, Eq, Structural)]
pub struct Event {
    pub fd: i32,
    pub token: usize,
    pub readable: bool,
    pub writable: bool,
}

/// Mathematical state of a selector: the token each descriptor is registered
/// under, per interest, and the readiness reports not yet consumed by
/// `select`, in arrival order.
#[verifier::ext_equal]
pub struct SelectorModel {
    pub reg_read: Map<i32, usize>,
    pub reg_write: Map<i32, usize>,
    pub ready_read: Seq<i32>,
    pub ready_write: Seq<i32>,
}

pub open spec fn register_model(s: SelectorModel, fd: i32, token: usize, interest: Interest) -> SelectorModel {
    match interest {
        Interest::Readable => SelectorModel { reg_read: s.reg_read.insert(fd, token), ..s },
        Interest::Writable => SelectorModel { reg_write: s.reg_write.insert(fd, token), ..s },
    }
}

/// A re-registration replaces the whole registration: the descriptor is left
/// with exactly the one given interest.
pub open spec fn reregister_model(s: SelectorModel, fd: i32, token: usize, interest: Interest) -> SelectorModel {
    match interest {
        Interest::Readable => SelectorModel {
            reg_read: s.reg_read.insert(fd, token),
            reg_write: s.reg_write.remove(fd),
            ..s
        },
        Interest::Writable => SelectorModel {
            reg_read: s.reg_read.remove(fd),
            reg_write: s.reg_write.insert(fd, token),
            ..s
        },
    }
}

pub open spec fn deregister_model(s: SelectorModel, fd: i32) -> SelectorModel {
    SelectorModel { reg_read: s.reg_read.remove(fd), reg_write: s.reg_write.remove(fd), ..s }
}

/// Index of the first queued readiness report whose descriptor is registered
/// under the given side, if any.
pub open spec fn first_ready(ready: Seq<i32>, reg: Map<i32, usize>) -> Option<int>
    decreases ready.len(),
{
    if ready.len() == 0 {
        None
    } else if reg.contains_key(ready[0]) {
        Some(0)
    } else {
        match first_ready(ready.drop_first(), reg) {
            None => None,
            Some(i) => Some(i + 1),
        }
    }
}

/// The event the next `select` call reports: the oldest readable report for a
/// read-registered descriptor, else the oldest writable report for a
/// write-registered one, else nothing.
pub open spec fn select_event(s: SelectorModel) -> Option<Event> {
    match first_ready(s.ready_read, s.reg_read) {
        Some(i) => Some(
            Event { fd: s.ready_read[i], token: s.reg_read[s.ready_read[i]], readable: true, writable: false },
        ),
        None => match first_ready(s.ready_write, s.reg_write) {
            Some(i) => Some(
                Event { fd: s.ready_write[i], token: s.reg_write[s.ready_write[i]], readable: false, writable: true },
            ),
            None => None,
        },
    }
}

/// Selector state after one `select` call: the consumed report leaves the
/// queue and, one-shot, the fired side's registration is cleared.
pub open spec fn select_model(s: SelectorModel) -> SelectorModel {
    match first_ready(s.ready_read, s.reg_read) {
        Some(i) => SelectorModel {
            reg_read: s.reg_read.remove(s.ready_read[i]),
            ready_read: s.ready_read.remove(i),
            ..s
        },
        None => match first_ready(s.ready_write, s.reg_write) {
            Some(i) => SelectorModel {
                reg_write: s.reg_write.remove(s.ready_write[i]),
                ready_write: s.ready_write.remove(i),
                ..s
            },
            None => s,
        },
    }
}

pub struct Selector {
    reg_read: HashMap<i32, usize>,
    reg_write: HashMap<i32, usize>,
    ready_read: Vec<i32>,
    ready_write: Vec<i32>,
}

impl View for Selector {
    type V = SelectorModel;

    closed spec fn view(&self) -> SelectorModel {
        SelectorModel {
            reg_read: self.reg_read@,
            reg_write: self.reg_write@,
            ready_read: self.ready_read@,
            ready_write: self.ready_write@,
        }
    }
}

proof fn lemma_first_ready_none(ready: Seq<i32>, reg: Map<i32, usize>)
    requires
        forall|j: int| 0 <= j < ready.len() ==> !reg.contains_key(#[trigger] ready[j]),
    ensures
        first_ready(ready, reg) is None,
    decreases ready.len(),
{
    if ready.len() > 0 {
        lemma_first_ready_none(ready.drop_first(), reg);
    }
}

proof fn lemma_first_ready_at(ready: Seq<i32>, reg: Map<i32, usize>, i: int)
    requires
        0 <= i < ready.len(),
        forall|j: int| 0 <= j < i ==> !reg.contains_key(#[trigger] ready[j]),
        reg.contains_key(ready[i]),
    ensures
        first_ready(ready, reg) == Some(i),
    decreases i,
{
    if i > 0 {
        lemma_first_ready_at(ready.drop_first(), reg, i - 1);
    }
}

/// A found index is in bounds and names a registered descriptor.
pub proof fn lemma_first_ready_bounds(ready: Seq<i32>, reg: Map<i32, usize>)
    requires
        first_ready(ready, reg) is Some,
    ensures
        ({
            let i = first_ready(ready, reg)->Some_0;
            &&& 0 <= i < ready.len()
            &&& reg.contains_key(ready[i])
        }),
    decreases ready.len(),
{
    if ready.len() > 0 && !reg.contains_key(ready[0]) {
        lemma_first_ready_bounds(ready.drop_first(), reg);
    }
}

/// A queued report for a registered descriptor guarantees a find.
pub proof fn lemma_first_ready_some(ready: Seq<i32>, reg: Map<i32, usize>, i: int)
    requires
        0 <= i < ready.len(),
        reg.contains_key(ready[i]),
    ensures
        first_ready(ready, reg) is Some,
    decreases i,
{
    if ready.len() > 0 && !reg.contains_key(ready[0]) {
        lemma_first_ready_some(ready.drop_first(), reg, i - 1);
    }
}

/// With a report queued for some registered descriptor, on either side, a
/// `select` call reports an event.
pub proof fn lemma_select_event_some(sel: SelectorModel, fd: i32)
    requires
        (sel.reg_read.contains_key(fd) && sel.ready_read.contains(fd)) || (
        sel.reg_write.contains_key(fd) && sel.ready_write.contains(fd)),
    ensures
        select_event(sel) is Some,
{
    if sel.reg_read.contains_key(fd) && sel.ready_read.contains(fd) {
        let i = choose|i: int| 0 <= i < sel.ready_read.len() && sel.ready_read[i] == fd;
        lemma_first_ready_some(sel.ready_read, sel.reg_read, i);
    } else {
        match first_ready(sel.ready_read, sel.reg_read) {
            Some(_) => {},
            None => {
                let i = choose|i: int|
                    0 <= i < sel.ready_write.len() && sel.ready_write[i] == fd;
                lemma_first_ready_some(sel.ready_write, sel.reg_write, i);
            },
        }
    }
}

/// Scan a readiness queue for the first report whose descriptor is registered.
fn find_ready(ready: &Vec<i32>, reg: &HashMap<i32, usize>) -> (r: Option<usize>)
    ensures
        match r {
            Some(u) => first_ready(ready@, reg@) == Some(u as int) && u < ready@.len()
                && reg@.contains_key(ready@[u as int]),
            None => first_ready(ready@, reg@) is None,
        },
{
    let n = ready.len();
    let mut i: usize = 0;
    while i < n
        invariant
            i <= n,
            n == ready@.len(),
            forall|j: int| 0 <= j < i ==> !reg@.contains_key(#[trigger] ready@[j]),
        decreases n - i,
    {
        if reg.contains_key(&ready[i]) {
            proof {
                lemma_first_ready_at(ready@, reg@, i as int);
            }
            return Some(i);
        }
        i += 1;
    }
    proof {
        lemma_first_ready_none(ready@, reg@);
    }
    None
}

impl Selector {
    pub fn new() -> (r: Self)
        ensures
            r@ == (SelectorModel {
                reg_read: Map::<i32, usize>::empty(),
                reg_write: Map::<i32, usize>::empty(),
                ready_read: Seq::<i32>::empty(),
                ready_write: Seq::<i32>::empty(),
            }),
    {
        Selector {
            reg_read: HashMap::new(),
            reg_write: HashMap::new(),
            ready_read: Vec::new(),
            ready_write: Vec::new(),
        }
    }

    /// Register the descriptor under the given token and interest, leaving
    /// the other interest untouched.
    pub fn register(&mut self, fd: i32, token: usize, interest: Interest)
        ensures
            final(self)@ == register_model(old(self)@, fd, token, interest),
    {
        match interest {
            Interest::Readable => {
                self.reg_read.insert(fd, token);
            },
            Interest::Writable => {
                self.reg_write.insert(fd, token);
            },
        }
    }

    /// Replace the descriptor's registration with exactly the given interest
    /// and token.
    pub fn reregister(&mut self, fd: i32, token: usize, interest: Interest)
        ensures
            final(self)@ == reregister_model(old(self)@, fd, token, interest),
    {
        match interest {
            Interest::Readable => {
                self.reg_read.insert(fd, token);
                self.reg_write.remove(&fd);
            },
            Interest::Writable => {
                self.reg_read.remove(&fd);
                self.reg_write.insert(fd, token);
            },
        }
    }

    /// Drop the descriptor's registration for both interests.
    pub fn deregister(&mut self, fd: i32)
        ensures
            final(self)@ == deregister_model(old(self)@, fd),
    {
        self.reg_read.remove(&fd);
        self.reg_write.remove(&fd);
    }

    /// Record that the host reports the descriptor ready for reading.
    pub fn notify_readable(&mut self, fd: i32)
        ensures
            final(self)@ == (SelectorModel { ready_read: old(self)@.ready_read.push(fd), ..old(self)@ }),
    {
        self.ready_read.push(fd);
    }

    /// Record that the host reports the descriptor ready for writing.
    pub fn notify_writable(&mut self, fd: i32)
        ensures
            final(self)@ == (SelectorModel { ready_write: old(self)@.ready_write.push(fd), ..old(self)@ }),
    {
        self.ready_write.push(fd);
    }

    /// The token the read-interest registration carries for the descriptor.
    pub fn read_token(&self, fd: i32) -> (r: Option<usize>)
        ensures
            r == (if self@.reg_read.contains_key(fd) {
                Some(self@.reg_read[fd])
            } else {
                None::<usize>
            }),
    {
        match self.reg_read.get(&fd) {
            Some(t) => Some(*t),
            None => None,
        }
    }

    /// The token the write-interest registration carries for the descriptor.
    pub fn write_token(&self, fd: i32) -> (r: Option<usize>)
        ensures
            r == (if self@.reg_write.contains_key(fd) {
                Some(self@.reg_write[fd])
            } else {
                None::<usize>
            }),
    {
        match self.reg_write.get(&fd) {
            Some(t) => Some(*t),
            None => None,
        }
    }

    /// Report one pending event for a registered descriptor, clearing the
    /// fired side's registration, or nothing if no registered descriptor is
    /// ready.
    pub fn select(&mut self) -> (r: Option<Event>)
        ensures
            r == select_event(old(self)@),
            final(self)@ == select_model(old(self)@),
    {
        match find_ready(&self.ready_read, &self.reg_read) {
            Some(i) => {
                let fd = self.ready_read[i];
                let token = *self.reg_read.get(&fd).unwrap();
                self.ready_read.remove(i);
                self.reg_read.remove(&fd);
                Some(Event { fd, token, readable: true, writable: false })
            },
            None => {
                match find_ready(&self.ready_write, &self.reg_write) {
                    Some(i) => {
                        let fd = self.ready_write[i];
                        let token = *self.reg_write.get(&fd).unwrap();
                        self.ready_write.remove(i);
                        self.reg_write.remove(&fd);
                        Some(Event { fd, token, readable: false, writable: true })
                    },
                    None => None,
                }
            },
        }
    }
}

} // verus!
