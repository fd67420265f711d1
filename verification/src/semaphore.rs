use vstd::multiset::Multiset;
use vstd::prelude::*;

verus! {

/// What a thread that asks a semaphore for a permit has to do next.
#[derive(PartialEq, Eq, Structural, Debug, Clone, Copy)]
pub enum WaitOutcome {
    /// A permit was taken: the thread may go on.
    Acquired,
    /// All permits are taken: the thread has to block until a permit is
    /// posted, and then ask again.
    MustBlock,
}

/// The abstract state of a semaphore: permits held, and the limit.
pub struct SemaphoreView {
    pub count: int,
    pub max: int,
}

/// A counting semaphore: at most `max` holders at a time.
///
/// `count` is the number of permits currently held. It starts at zero, grows
/// by one on every granted `wait` and shrinks by one on every `post`.
pub struct Semaphore {
    count: isize,
    max: isize,
}

impl View for Semaphore {
    type V = SemaphoreView;

    closed spec fn view(&self) -> SemaphoreView {
        SemaphoreView { count: self.count as int, max: self.max as int }
    }
}

/// The held permits never exceed the limit (or zero, for a limit below zero).
pub open spec fn within_limit(s: SemaphoreView) -> bool {
    s.count <= 0 || s.count <= s.max
}

/// Both numbers of the state fit in an `isize`.
pub open spec fn fits(s: SemaphoreView) -> bool {
    &&& isize::MIN <= s.count <= isize::MAX
    &&& isize::MIN <= s.max <= isize::MAX
}

/// The state of a fresh semaphore with limit `max`.
pub open spec fn initial(max: int) -> SemaphoreView {
    SemaphoreView { count: 0, max }
}

/// One attempt to take a permit: granted when fewer than `max` are held.
pub open spec fn after_wait(s: SemaphoreView) -> (SemaphoreView, WaitOutcome) {
    if s.count < s.max {
        (SemaphoreView { count: s.count + 1, max: s.max }, WaitOutcome::Acquired)
    } else {
        (s, WaitOutcome::MustBlock)
    }
}

/// Giving a permit back.
pub open spec fn after_post(s: SemaphoreView) -> SemaphoreView {
    SemaphoreView { count: s.count - 1, max: s.max }
}

impl Semaphore {
    #[verifier::type_invariant]
    closed spec fn inv(&self) -> bool {
        within_limit(self@)
    }

    /// Makes a semaphore with `max` permits, none of them held.
    pub fn new(max: isize) -> (s: Semaphore)
        ensures
            s@ == initial(max as int),
            fits(s@),
    {
        Semaphore { count: 0, max }
    }

    /// Number of permits currently held.
    pub fn held(&self) -> (n: isize)
        ensures
            n == self@.count,
    {
        self.count
    }

    /// The limit that the semaphore was made with.
    pub fn limit(&self) -> (n: isize)
        ensures
            n == self@.max,
    {
        self.max
    }

    /// One attempt to take a permit: granted, and counted, when fewer than
    /// `max` permits are held; otherwise nothing changes and the caller has to
    /// block until a `post` and then try again.
    pub fn wait(&mut self) -> (outcome: WaitOutcome)
        ensures
            (final(self)@, outcome) == after_wait(old(self)@),
            within_limit(final(self)@),
            fits(final(self)@),
    {
        proof {
            use_type_invariant(&*self);
        }
        if self.count >= self.max {
            WaitOutcome::MustBlock
        } else {
            self.count = self.count + 1;
            WaitOutcome::Acquired
        }
    }

    /// Gives a permit back; one blocked waiter may then be woken.
    pub fn post(&mut self)
        requires
            old(self)@.count > isize::MIN,
        ensures
            final(self)@ == after_post(old(self)@),
            within_limit(final(self)@),
            fits(final(self)@),
    {
        proof {
            use_type_invariant(&*self);
        }
        self.count = self.count - 1;
    }
}

/// Safety: from any state within the limit, every operation stays within it,
/// so no more than `max` permits are ever held at once.
pub proof fn lemma_operations_keep_limit(s: SemaphoreView)
    requires
        within_limit(s),
    ensures
        within_limit(after_wait(s).0),
        within_limit(after_post(s)),
{
}

/// The state after `k` successive attempts to take a permit, with no post in
/// between.
pub open spec fn after_waits(s: SemaphoreView, k: nat) -> SemaphoreView
    decreases k,
{
    if k == 0 {
        s
    } else {
        after_wait(after_waits(s, (k - 1) as nat)).0
    }
}

/// A fresh semaphore with limit `max` grants the first `max` attempts and
/// blocks every later one: after `k` attempts exactly `min(k, max)` permits
/// are held.
pub proof fn lemma_fresh_grants_exactly_max(max: int, k: nat)
    requires
        0 <= max,
    ensures
        after_waits(initial(max), k).count == if k <= max { k as int } else { max },
        after_waits(initial(max), k).max == max,
        k >= max ==> after_wait(after_waits(initial(max), k)).1 == WaitOutcome::MustBlock,
        k < max ==> after_wait(after_waits(initial(max), k)).1 == WaitOutcome::Acquired,
    decreases k,
{
    if k > 0 {
        lemma_fresh_grants_exactly_max(max, (k - 1) as nat);
    }
}

/// A thread asking for a permit, or a thread giving one back.
pub enum PermitEvent {
    Wait(int),
    Post(int),
}

/// The semaphore after `events`, and the threads that then hold a permit (a
/// thread counted once per permit it holds).
pub open spec fn run_permits(s: SemaphoreView, events: Seq<PermitEvent>) -> (
    SemaphoreView,
    Multiset<int>,
)
    decreases events.len(),
{
    if events.len() == 0 {
        (s, Multiset::empty())
    } else {
        let (s1, holders) = run_permits(s, events.drop_last());
        match events.last() {
            PermitEvent::Wait(t) => {
                let (s2, outcome) = after_wait(s1);
                if outcome == WaitOutcome::Acquired {
                    (s2, holders.insert(t))
                } else {
                    (s2, holders)
                }
            },
            PermitEvent::Post(t) => (after_post(s1), holders.remove(t)),
        }
    }
}

/// Every post in `events` comes from a thread that holds a permit.
pub open spec fn posts_matched(s: SemaphoreView, events: Seq<PermitEvent>) -> bool
    decreases events.len(),
{
    if events.len() == 0 {
        true
    } else {
        &&& posts_matched(s, events.drop_last())
        &&& match events.last() {
            PermitEvent::Post(t) => run_permits(s, events.drop_last()).1.count(t) > 0,
            PermitEvent::Wait(_) => true,
        }
    }
}

/// Permits are counted exactly: when every post comes from a thread that
/// holds a permit, the count is at every moment the number of permits held,
/// so it never drops below zero, and for a limit `max >= 0` at most `max`
/// permits are held at once.
pub proof fn lemma_count_is_holders(max: int, events: Seq<PermitEvent>)
    requires
        0 <= max,
        posts_matched(initial(max), events),
    ensures
        run_permits(initial(max), events).0.count == run_permits(initial(max), events).1.len(),
        0 <= run_permits(initial(max), events).0.count <= max,
        run_permits(initial(max), events).0.max == max,
    decreases events.len(),
{
    broadcast use vstd::multiset::group_multiset_axioms, vstd::multiset::group_multiset_properties;

    if events.len() > 0 {
        lemma_count_is_holders(max, events.drop_last());
        let (s1, holders) = run_permits(initial(max), events.drop_last());
        match events.last() {
            PermitEvent::Wait(t) => {},
            PermitEvent::Post(t) => {
                assert(holders.count(t) > 0);
                assert(holders.remove(t).len() == holders.len() - 1);
            },
        }
    }
}

/// Posting a permit undoes a granted wait.
pub proof fn lemma_post_undoes_wait(s: SemaphoreView)
    requires
        after_wait(s).1 == WaitOutcome::Acquired,
    ensures
        after_post(after_wait(s).0) == s,
{
}

/// A blocked wait changes nothing.
pub proof fn lemma_blocked_wait_is_idle(s: SemaphoreView)
    requires
        after_wait(s).1 == WaitOutcome::MustBlock,
    ensures
        after_wait(s).0 == s,
{
}

} // verus!
