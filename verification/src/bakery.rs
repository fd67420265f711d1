use std::sync::atomic::AtomicBool;
use std::sync::atomic::AtomicUsize;
use std::sync::atomic::Ordering;
use vstd::prelude::*;

verus! {

/// The largest of the observed tickets, zero for none.
pub open spec fn seq_max(s: Seq<usize>) -> int
    decreases s.len(),
{
    if s.len() == 0 {
        0
    } else {
        let m = seq_max(s.drop_last());
        if s.last() > m {
            s.last() as int
        } else {
            m
        }
    }
}

/// The ticket drawn after observing `observed`: one more than the largest
/// observed ticket, or `None` when that does not fit in a `usize`.
pub open spec fn ticket_after(observed: Seq<usize>) -> Option<usize> {
    if seq_max(observed) < usize::MAX {
        Some((seq_max(observed) + 1) as usize)
    } else {
        None
    }
}

/// Thread `idx` holding `ticket` goes before thread `other_idx` holding
/// `other_ticket`: the smaller ticket first, ties broken by the smaller index.
pub open spec fn has_priority(ticket: usize, idx: usize, other_ticket: usize, other_idx: usize) -> bool {
    ticket < other_ticket || (ticket == other_ticket && idx < other_idx)
}

/// A waiting thread may pass another thread when that thread holds no ticket
/// (zero) or when the waiting thread has priority over it.
pub open spec fn may_pass(ticket: usize, idx: usize, other_ticket: usize, other_idx: usize) -> bool {
    other_ticket == 0 || has_priority(ticket, idx, other_ticket, other_idx)
}

/// The first thread that `thread_idx` has to wait for.
pub open spec fn first_other(thread_idx: usize) -> int {
    if thread_idx == 0 {
        1
    } else {
        0
    }
}

/// The thread after `other` that `thread_idx` has to wait for, skipping itself.
pub open spec fn next_other(thread_idx: usize, other: usize) -> int {
    if other + 1 == thread_idx {
        other + 2
    } else {
        other + 1
    }
}

/// What a thread that is entering the critical section waits for at `other`.
#[derive(PartialEq, Eq, Structural, Debug, Clone, Copy)]
pub enum WaitPhase {
    /// Until `other` has finished drawing its ticket.
    Choosing,
    /// Until `other` holds no ticket or yields to this thread.
    Ticket,
}

/// The progress of thread `thread_idx`, holding `ticket`, through the other
/// threads: all threads below `other` (but itself) have been passed.
#[derive(PartialEq, Eq, Structural, Debug, Clone, Copy)]
pub struct Acquiring {
    pub thread_idx: usize,
    pub ticket: usize,
    pub other: usize,
    pub phase: WaitPhase,
}

/// Observing whether `other` is still drawing its ticket: if it is, the thread
/// keeps waiting (and reports it); if not, it goes on to compare tickets.
pub open spec fn spec_observe_choosing(a: Acquiring, other_choosing: bool) -> (Acquiring, bool) {
    if other_choosing {
        (a, true)
    } else {
        (Acquiring { phase: WaitPhase::Ticket, ..a }, false)
    }
}

/// Observing the ticket of `other`: when the thread may pass it, it moves on to
/// the next thread; otherwise it keeps waiting at `other`.
pub open spec fn spec_observe_ticket(a: Acquiring, other_ticket: usize) -> Acquiring {
    if may_pass(a.ticket, a.thread_idx, other_ticket, a.other) {
        Acquiring { other: next_other(a.thread_idx, a.other) as usize, phase: WaitPhase::Choosing, ..a }
    } else {
        a
    }
}

/// One more than the largest of `observed`, or `None` when that overflows.
pub fn next_ticket(observed: &Vec<usize>) -> (ticket: Option<usize>)
    ensures
        ticket == ticket_after(observed@),
        ticket matches Some(t) ==> forall|i: int| 0 <= i < observed@.len() ==> observed@[i] < t,
{
    let mut prev: usize = 0;
    let mut i: usize = 0;
    while i < observed.len()
        invariant
            i <= observed@.len(),
            prev == seq_max(observed@.take(i as int)),
        decreases observed@.len() - i,
    {
        let t = observed[i];
        assert(observed@.take(i + 1).drop_last() =~= observed@.take(i as int));
        if t > prev {
            prev = t;
        }
        i = i + 1;
    }
    assert(observed@.take(i as int) =~= observed@);
    proof {
        lemma_seq_max_bounds(observed@);
    }
    if prev == usize::MAX {
        None
    } else {
        Some(prev + 1)
    }
}

/// The largest observed ticket is at least every observed ticket.
pub proof fn lemma_seq_max_bounds(s: Seq<usize>)
    ensures
        0 <= seq_max(s),
        forall|i: int| 0 <= i < s.len() ==> s[i] <= seq_max(s),
    decreases s.len(),
{
    if s.len() > 0 {
        lemma_seq_max_bounds(s.drop_last());
        assert forall|i: int| 0 <= i < s.len() implies s[i] <= seq_max(s) by {
            if i < s.len() - 1 {
                assert(s[i] == s.drop_last()[i]);
            }
        }
    }
}

/// Observing whether the thread being waited for is still drawing a ticket.
/// Returns the next state, and whether the thread has to report that it is
/// waiting for it.
pub fn observe_choosing(a: Acquiring, other_choosing: bool) -> (r: (Acquiring, bool))
    ensures
        r == spec_observe_choosing(a, other_choosing),
{
    if other_choosing {
        (a, true)
    } else {
        (Acquiring { phase: WaitPhase::Ticket, ..a }, false)
    }
}

/// Observing the ticket of the thread being waited for.
pub fn observe_ticket(a: Acquiring, other_ticket: usize) -> (next: Acquiring)
    requires
        a.thread_idx < usize::MAX,
        a.other < usize::MAX,
    ensures
        next == spec_observe_ticket(a, other_ticket),
{
    if other_ticket == 0 || a.ticket < other_ticket || (a.ticket == other_ticket && a.thread_idx
        < a.other) {
        let next = if a.other + 1 == a.thread_idx {
            a.other + 2
        } else {
            a.other + 1
        };
        Acquiring { other: next, phase: WaitPhase::Choosing, ..a }
    } else {
        a
    }
}

/// A lock in the style of the bakery algorithm, for a fixed number of
/// threads numbered from zero.
///
/// A thread announces that it is drawing a ticket, draws one more than the
/// largest ticket it sees, and then waits for each other thread in turn: until
/// that thread has finished drawing, and until it holds no ticket or yields to
/// this one.
///
/// The drawn ticket stays with the drawing thread: it is never stored among
/// the shared tickets, which only ever hold zero (`release` stores zero).
/// Every waiting thread therefore sees zero tickets and passes, so this lock
/// does not keep two threads out of the critical section at the same time;
/// it only makes a thread wait while another one is drawing a ticket.
pub struct BakeryLock {
    size: usize,
    entering: Vec<AtomicBool>,
    tickets: Vec<AtomicUsize>,
}

/// The state of a thread that is entering the critical section, after one more
/// look at the shared state.
pub enum Progress<'a> {
    /// The thread being waited for is still drawing its ticket; the caller
    /// reports that it waits for it, and asks again.
    OtherChoosing(Acquiring),
    /// Not there yet; the caller asks again.
    Pending(Acquiring),
    /// Every other thread has been passed: the caller holds the lock.
    Entered(LockGuard<'a>),
}

/// Handed to a thread once it has passed every other thread; `release`
/// stores zero as the holder's ticket.
pub struct LockGuard<'a> {
    lock: &'a BakeryLock,
    thread_idx: usize,
}

impl BakeryLock {
    /// The number of threads that the lock serves.
    pub closed spec fn threads(&self) -> int {
        self.size as int
    }

    #[verifier::type_invariant]
    closed spec fn inv(&self) -> bool {
        &&& self.entering.len() == self.size
        &&& self.tickets.len() == self.size
    }

    /// A state of thread `a.thread_idx` that this lock can be asked about.
    pub open spec fn acquiring_ok(&self, a: Acquiring) -> bool {
        &&& a.thread_idx < self.threads()
        &&& a.other != a.thread_idx
    }

    /// Makes a lock for `size` threads: nobody is drawing a ticket and nobody
    /// holds one.
    pub fn new(size: usize) -> (lock: BakeryLock)
        ensures
            lock.threads() == size,
    {
        let mut entering: Vec<AtomicBool> = Vec::new();
        let mut tickets: Vec<AtomicUsize> = Vec::new();
        let mut i: usize = 0;
        while i < size
            invariant
                i <= size,
                entering.len() == i,
                tickets.len() == i,
            decreases size - i,
        {
            entering.push(AtomicBool::new(false));
            tickets.push(AtomicUsize::new(0));
            i = i + 1;
        }
        BakeryLock { size, entering, tickets }
    }

    /// The number of threads that the lock serves.
    pub fn size(&self) -> (n: usize)
        ensures
            n == self.threads(),
    {
        self.size
    }

    fn announce(&self, thread_idx: usize, choosing: bool)
        requires
            thread_idx < self.threads(),
    {
        proof {
            use_type_invariant(self);
        }
        self.entering[thread_idx].store(choosing, Ordering::Release);
    }

    fn read_choosing(&self, thread_idx: usize) -> bool
        requires
            thread_idx < self.threads(),
    {
        proof {
            use_type_invariant(self);
        }
        self.entering[thread_idx].load(Ordering::Acquire)
    }

    fn read_ticket(&self, thread_idx: usize) -> usize
        requires
            thread_idx < self.threads(),
    {
        proof {
            use_type_invariant(self);
        }
        self.tickets[thread_idx].load(Ordering::Acquire)
    }

    /// Stores `ticket` as the shared ticket of `thread_idx`. The shared
    /// tickets only ever hold zero: zero is the only value this lock stores.
    fn write_ticket(&self, thread_idx: usize, ticket: usize)
        requires
            thread_idx < self.threads(),
            ticket == 0,
    {
        proof {
            use_type_invariant(self);
        }
        self.tickets[thread_idx].store(ticket, Ordering::Release);
    }

    /// Reads every thread's ticket, in index order.
    fn read_tickets(&self) -> (seen: Vec<usize>)
        ensures
            seen@.len() == self.threads(),
    {
        let mut seen: Vec<usize> = Vec::new();
        let mut i: usize = 0;
        while i < self.size
            invariant
                i <= self.threads(),
                seen@.len() == i,
            decreases self.threads() - i,
        {
            seen.push(self.read_ticket(i));
            i = i + 1;
        }
        seen
    }

    /// Draws a ticket for `thread_idx`: announces that it is choosing, reads
    /// every thread's ticket, and takes one more than the largest it read
    /// (`None` when that overflows, with the announcement left standing), then
    /// withdraws the announcement. Which tickets it reads depends on the other
    /// threads; whatever they were, the result is `next_ticket` of them.
    pub fn issue_ticket(&self, thread_idx: usize) -> (ticket: Option<usize>)
        requires
            thread_idx < self.threads(),
        ensures
            exists|seen: Seq<usize>| seen.len() == self.threads() && ticket == ticket_after(seen),
            ticket matches Some(t) ==> t >= 1,
    {
        self.announce(thread_idx, true);
        let seen = self.read_tickets();
        let ticket = next_ticket(&seen);
        proof {
            lemma_ticket_exceeds_seen(seen@);
        }
        if ticket.is_some() {
            self.announce(thread_idx, false);
        }
        ticket
    }

    /// Starts taking the lock for thread `thread_idx`: draws its ticket and
    /// returns the state in which it waits for the first other thread.
    /// `None` when drawing the ticket overflows.
    pub fn lock(&self, thread_idx: usize) -> (started: Option<Acquiring>)
        requires
            thread_idx < self.threads(),
        ensures
            exists|seen: Seq<usize>|
                seen.len() == self.threads() && match started {
                    Some(a) => ticket_after(seen) == Some(a.ticket),
                    None => ticket_after(seen) is None,
                },
            started matches Some(a) ==> {
                &&& a.thread_idx == thread_idx
                &&& a.ticket >= 1
                &&& a.other == first_other(thread_idx)
                &&& a.phase == WaitPhase::Choosing
                &&& self.acquiring_ok(a)
            },
    {
        match self.issue_ticket(thread_idx) {
            Some(ticket) => {
                let other = if thread_idx == 0 {
                    1
                } else {
                    0
                };
                Some(Acquiring { thread_idx, ticket, other, phase: WaitPhase::Choosing })
            },
            None => None,
        }
    }

    /// One more look at the shared state for a thread that is entering the
    /// critical section: once every other thread has been passed the thread
    /// holds the lock; otherwise it reads the flag or the ticket of the thread
    /// it waits for, and decides by `observe_choosing` or `observe_ticket`.
    /// What it reads depends on the other threads; whatever it was, the result
    /// is the decision taken on it.
    pub fn enter_critical_section(&self, a: Acquiring) -> (progress: Progress<'_>)
        requires
            self.acquiring_ok(a),
        ensures
            progress is Entered <==> a.other >= self.threads(),
            progress matches Progress::Entered(g) ==> g.holder() == a.thread_idx && g.lock_of()
                == self,
            a.other < self.threads() && a.phase == WaitPhase::Choosing ==> exists|choosing: bool|
                #![trigger spec_observe_choosing(a, choosing)]
                match progress {
                    Progress::OtherChoosing(n) => spec_observe_choosing(a, choosing) == (n, true),
                    Progress::Pending(n) => spec_observe_choosing(a, choosing) == (n, false),
                    Progress::Entered(_) => false,
                },
            a.other < self.threads() && a.phase == WaitPhase::Ticket ==> exists|ticket: usize|
                #![trigger spec_observe_ticket(a, ticket)]
                progress matches Progress::Pending(n) && n == spec_observe_ticket(a, ticket),
            progress matches Progress::OtherChoosing(n) ==> self.acquiring_ok(n),
            progress matches Progress::Pending(n) ==> self.acquiring_ok(n),
            progress matches Progress::Pending(n) ==> exists|o: Observation|
                takes_look(a, self.threads(), o) && #[trigger] step_on(a, o) == n,
            progress matches Progress::OtherChoosing(n) ==> takes_look(
                a,
                self.threads(),
                Observation::Choosing(true),
            ) && n == step_on(a, Observation::Choosing(true)),
    {
        if a.other >= self.size {
            return Progress::Entered(LockGuard { lock: self, thread_idx: a.thread_idx });
        }
        match a.phase {
            WaitPhase::Choosing => {
                let choosing = self.read_choosing(a.other);
                let (n, report) = observe_choosing(a, choosing);
                assert(takes_look(a, self.threads(), Observation::Choosing(choosing)));
                assert(step_on(a, Observation::Choosing(choosing)) == n);
                if report {
                    Progress::OtherChoosing(n)
                } else {
                    Progress::Pending(n)
                }
            },
            WaitPhase::Ticket => {
                let ticket = self.read_ticket(a.other);
                let n = observe_ticket(a, ticket);
                assert(takes_look(a, self.threads(), Observation::Ticket(ticket)));
                assert(step_on(a, Observation::Ticket(ticket)) == n);
                Progress::Pending(n)
            },
        }
    }
}

impl<'a> LockGuard<'a> {
    /// The thread that holds the lock.
    pub closed spec fn holder(&self) -> usize {
        self.thread_idx
    }

    /// The lock that is held.
    pub closed spec fn lock_of(&self) -> &'a BakeryLock {
        self.lock
    }

    #[verifier::type_invariant]
    closed spec fn inv(&self) -> bool {
        self.thread_idx < self.lock.threads()
    }

    /// The thread that holds the lock.
    pub fn thread_idx(&self) -> (idx: usize)
        ensures
            idx == self.holder(),
    {
        self.thread_idx
    }

    /// Gives the lock up: the holder's ticket goes back to zero.
    pub fn release(self) {
        proof {
            use_type_invariant(&self);
        }
        self.lock.write_ticket(self.thread_idx, 0);
    }
}

/// The drawn ticket is larger than every ticket that was seen while drawing.
pub proof fn lemma_ticket_exceeds_seen(seen: Seq<usize>)
    ensures
        ticket_after(seen) matches Some(t) ==> t >= 1 && forall|i: int|
            0 <= i < seen.len() ==> seen[i] < t,
{
    lemma_seq_max_bounds(seen);
}

/// Priority is a strict total order on the (ticket, index) pairs of distinct
/// threads: of two distinct threads exactly one goes first.
pub proof fn lemma_priority_strict_total(t1: usize, i1: usize, t2: usize, i2: usize)
    requires
        i1 != i2,
    ensures
        has_priority(t1, i1, t2, i2) != has_priority(t2, i2, t1, i1),
{
}

/// Of two distinct threads that both hold a ticket, at most one may pass the
/// other, and at least one may: they never both go ahead, and they never both
/// wait for each other.
pub proof fn lemma_exactly_one_passes(t1: usize, i1: usize, t2: usize, i2: usize)
    requires
        i1 != i2,
        t1 > 0,
        t2 > 0,
    ensures
        may_pass(t1, i1, t2, i2) != may_pass(t2, i2, t1, i1),
{
}

/// Waiting only ever moves forward, one thread at a time: looking at the
/// flag or the ticket of the thread waited for keeps the thread, its ticket
/// and the threads already passed; passing moves to the next thread, skipping
/// only the waiting thread itself.
pub proof fn lemma_waiting_moves_forward(a: Acquiring, choosing: bool, ticket: usize)
    requires
        a.other != a.thread_idx,
        a.other < usize::MAX,
        a.thread_idx < usize::MAX,
    ensures
        spec_observe_choosing(a, choosing).0.other == a.other,
        spec_observe_choosing(a, choosing).0.ticket == a.ticket,
        spec_observe_choosing(a, choosing).0.thread_idx == a.thread_idx,
        spec_observe_ticket(a, ticket).ticket == a.ticket,
        spec_observe_ticket(a, ticket).thread_idx == a.thread_idx,
        spec_observe_ticket(a, ticket).other >= a.other,
        spec_observe_ticket(a, ticket).other != a.thread_idx,
        spec_observe_ticket(a, ticket).other > a.other <==> may_pass(
            a.ticket,
            a.thread_idx,
            ticket,
            a.other,
        ),
        next_other(a.thread_idx, a.other) == a.other + 1 || (next_other(a.thread_idx, a.other)
            == a.other + 2 && a.other + 1 == a.thread_idx),
        first_other(a.thread_idx) != a.thread_idx,
        first_other(a.thread_idx) == 0 || (first_other(a.thread_idx) == 1 && a.thread_idx == 0),
{
}


/// What one look at the shared state saw: the waited-for thread's choosing
/// flag, or its ticket.
#[derive(PartialEq, Eq, Structural, Debug, Clone, Copy)]
pub enum Observation {
    Choosing(bool),
    Ticket(usize),
}

/// `o` is the look that `enter_critical_section` takes in state `a`: the flag
/// while waiting for a choosing thread, the ticket while comparing, nothing
/// once every other thread has been passed.
pub open spec fn takes_look(a: Acquiring, size: int, o: Observation) -> bool {
    &&& a.other < size
    &&& match o {
        Observation::Choosing(_) => a.phase == WaitPhase::Choosing,
        Observation::Ticket(_) => a.phase == WaitPhase::Ticket,
    }
}

/// The state after one look that `a` takes.
pub open spec fn step_on(a: Acquiring, o: Observation) -> Acquiring {
    match o {
        Observation::Choosing(b) => spec_observe_choosing(a, b).0,
        Observation::Ticket(t) => spec_observe_ticket(a, t),
    }
}

/// The waiting thread's state after it is handed the observations `obs`, in
/// order, and the trace of the looks it took: which thread it looked at, and
/// what it saw. An observation that is not the look the state takes is
/// skipped.
pub open spec fn run_wait(a: Acquiring, size: int, obs: Seq<Observation>) -> (
    Acquiring,
    Seq<(usize, Observation)>,
)
    decreases obs.len(),
{
    if obs.len() == 0 {
        (a, Seq::empty())
    } else {
        let (a1, trace) = run_wait(a, size, obs.drop_last());
        if takes_look(a1, size, obs.last()) {
            (step_on(a1, obs.last()), trace.push((a1.other, obs.last())))
        } else {
            (a1, trace)
        }
    }
}

/// In `trace`, thread `j` was once seen not choosing.
pub open spec fn seen_not_choosing(trace: Seq<(usize, Observation)>, j: usize) -> bool {
    exists|k: int| 0 <= k < trace.len() && #[trigger] trace[k] == (j, Observation::Choosing(false))
}

/// In `trace`, thread `j` was seen not choosing, and later seen holding a
/// ticket that the thread `idx` holding `ticket` may pass.
pub open spec fn passed_in(trace: Seq<(usize, Observation)>, j: usize, ticket: usize, idx: usize) -> bool {
    exists|k: int, m: int|
        #![trigger trace[k], trace[m]]
        0 <= k < m < trace.len() && trace[k] == (j, Observation::Choosing(false)) && trace[m].0 == j
            && match trace[m].1 {
            Observation::Ticket(t) => may_pass(ticket, idx, t, j),
            Observation::Choosing(_) => false,
        }
}

proof fn lemma_trace_extends(
    trace: Seq<(usize, Observation)>,
    x: (usize, Observation),
    j: usize,
    ticket: usize,
    idx: usize,
)
    ensures
        seen_not_choosing(trace, j) ==> seen_not_choosing(trace.push(x), j),
        passed_in(trace, j, ticket, idx) ==> passed_in(trace.push(x), j, ticket, idx),
{
    if seen_not_choosing(trace, j) {
        let k = choose|k: int|
            0 <= k < trace.len() && #[trigger] trace[k] == (j, Observation::Choosing(false));
        assert(trace.push(x)[k] == trace[k]);
    }
    if passed_in(trace, j, ticket, idx) {
        let (k, m) = choose|k: int, m: int|
            #![trigger trace[k], trace[m]]
            0 <= k < m < trace.len() && trace[k] == (j, Observation::Choosing(false)) && trace[m].0
                == j && match trace[m].1 {
                Observation::Ticket(t) => may_pass(ticket, idx, t, j),
                Observation::Choosing(_) => false,
            };
        assert(trace.push(x)[k] == trace[k]);
        assert(trace.push(x)[m] == trace[m]);
    }
}

/// What the waiting thread keeps true while it is handed observations, from
/// the state `lock` starts it in.
pub open spec fn wait_trace_ok(a0: Acquiring, size: int, a: Acquiring, trace: Seq<(usize, Observation)>) -> bool {
    &&& a.thread_idx == a0.thread_idx
    &&& a.ticket == a0.ticket
    &&& a.other != a.thread_idx
    &&& a.other <= size
    &&& a.phase == WaitPhase::Ticket ==> seen_not_choosing(trace, a.other)
    &&& forall|j: usize|
        j < a.other && j != a.thread_idx ==> #[trigger] passed_in(trace, j, a.ticket, a.thread_idx)
}

/// A thread enters only after it has passed every other thread: whatever it
/// is handed to look at, every thread below the one it waits for (itself
/// aside) was first seen not choosing and then seen holding a ticket that
/// the thread may pass. Once it holds the lock (every other thread passed),
/// that is so of every other thread.
pub proof fn lemma_enters_only_after_passing_all(a0: Acquiring, size: usize, obs: Seq<Observation>)
    requires
        a0.thread_idx < size,
        a0.other == first_other(a0.thread_idx),
        a0.phase == WaitPhase::Choosing,
    ensures
        wait_trace_ok(a0, size as int, run_wait(a0, size as int, obs).0, run_wait(a0, size as int, obs).1),
        run_wait(a0, size as int, obs).0.other >= size ==> forall|j: usize|
            j < size && j != a0.thread_idx ==> #[trigger] passed_in(
                run_wait(a0, size as int, obs).1,
                j,
                a0.ticket,
                a0.thread_idx,
            ),
    decreases obs.len(),
{
    if obs.len() > 0 {
        lemma_enters_only_after_passing_all(a0, size, obs.drop_last());
        let (a1, trace) = run_wait(a0, size as int, obs.drop_last());
        let o = obs.last();
        if takes_look(a1, size as int, o) {
            let x = (a1.other, o);
            let t2 = trace.push(x);
            let a2 = step_on(a1, o);
            assert forall|j: usize| j < a1.other && j != a1.thread_idx implies #[trigger] passed_in(
                t2,
                j,
                a1.ticket,
                a1.thread_idx,
            ) by {
                lemma_trace_extends(trace, x, j, a1.ticket, a1.thread_idx);
            }
            lemma_trace_extends(trace, x, a1.other, a1.ticket, a1.thread_idx);
            match o {
                Observation::Choosing(b) => {
                    if !b {
                        assert(t2[trace.len() as int] == (a1.other, Observation::Choosing(false)));
                    }
                },
                Observation::Ticket(t) => {
                    if may_pass(a1.ticket, a1.thread_idx, t, a1.other) {
                        let k = choose|k: int|
                            0 <= k < trace.len() && #[trigger] trace[k] == (
                                a1.other,
                                Observation::Choosing(false),
                            );
                        assert(t2[k] == trace[k]);
                        assert(t2[trace.len() as int] == x);
                        assert(passed_in(t2, a1.other, a1.ticket, a1.thread_idx));
                        assert forall|j: usize| j < a2.other && j != a2.thread_idx implies #[trigger] passed_in(
                            t2,
                            j,
                            a2.ticket,
                            a2.thread_idx,
                        ) by {
                            if j >= a1.other {
                                assert(j == a1.other);
                            }
                        }
                    }
                },
            }
        }
    }
}

/// The look that a waiting thread takes when every choosing flag is down and
/// the tickets stay `tickets`.
pub open spec fn settled_look(a: Acquiring, tickets: Seq<usize>) -> Observation {
    match a.phase {
        WaitPhase::Choosing => Observation::Choosing(false),
        WaitPhase::Ticket => Observation::Ticket(tickets[a.other as int]),
    }
}

/// The waiting thread after at most `fuel` looks, once every choosing flag
/// stays down and the tickets stay `tickets`.
pub open spec fn wait_settled(a: Acquiring, size: int, tickets: Seq<usize>, fuel: nat) -> Acquiring
    decreases fuel,
{
    if fuel == 0 || a.other >= size {
        a
    } else {
        wait_settled(step_on(a, settled_look(a, tickets)), size, tickets, (fuel - 1) as nat)
    }
}

/// Progress: once every choosing flag stays down and every other thread's
/// ticket stays one that the waiting thread may pass (zero included), the
/// thread holds the lock within two looks per thread, from any state it may
/// be in.
pub proof fn lemma_enters_once_others_yield(
    a: Acquiring,
    size: usize,
    tickets: Seq<usize>,
    fuel: nat,
)
    requires
        a.thread_idx < size,
        a.other != a.thread_idx,
        a.other <= size,
        tickets.len() == size,
        forall|j: usize|
            j < size && j != a.thread_idx ==> may_pass(a.ticket, a.thread_idx, #[trigger] tickets[j as int], j),
        fuel >= 2 * (size - a.other),
    ensures
        wait_settled(a, size as int, tickets, fuel).other >= size,
        wait_settled(a, size as int, tickets, fuel).thread_idx == a.thread_idx,
    decreases fuel,
{
    if fuel > 0 && a.other < size {
        let n = step_on(a, settled_look(a, tickets));
        match a.phase {
            WaitPhase::Choosing => {
                let n2 = step_on(n, settled_look(n, tickets));
                assert(may_pass(a.ticket, a.thread_idx, tickets[a.other as int], a.other));
                assert(n2.other >= a.other + 1);
                if fuel >= 2 {
                    lemma_enters_once_others_yield(n2, size, tickets, (fuel - 2) as nat);
                    assert(wait_settled(n, size as int, tickets, (fuel - 1) as nat) == wait_settled(
                        n2,
                        size as int,
                        tickets,
                        (fuel - 2) as nat,
                    ));
                }
            },
            WaitPhase::Ticket => {
                assert(may_pass(a.ticket, a.thread_idx, tickets[a.other as int], a.other));
                lemma_enters_once_others_yield(n, size, tickets, (fuel - 1) as nat);
            },
        }
    }
}


/// Zero tickets never hold anyone up: since zero is the only ticket the lock
/// ever stores (`release` stores it, and nothing stores another), a waiting
/// thread may pass every other thread that it finds with the ticket the
/// stores leave, and, once the choosing flags are down, it holds the lock
/// within two looks per thread.
pub proof fn lemma_zero_tickets_let_everyone_pass(a: Acquiring, size: usize)
    requires
        a.thread_idx < size,
        a.other != a.thread_idx,
        a.other <= size,
    ensures
        forall|j: usize| #[trigger] may_pass(a.ticket, a.thread_idx, 0, j),
        wait_settled(a, size as int, Seq::new(size as nat, |i: int| 0usize), (2 * size) as nat).other
            >= size,
{
    let zeros = Seq::new(size as nat, |i: int| 0usize);
    lemma_enters_once_others_yield(a, size, zeros, (2 * size) as nat);
}

} // verus!
