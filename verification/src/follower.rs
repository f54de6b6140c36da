//! When to look for Umbriel again. Waiting backs off, so a session without
//! Umbriel does not retry every three seconds for hours.

use vstd::prelude::*;

verus! {

/// The first wait, in seconds.
pub const FIRST_RETRY: u64 = 3;

/// The longest wait, in seconds.
pub const MAX_RETRY: u64 = 60;

/// The request that subscribes to the windows.
pub fn subscription() -> (r: &'static str)
    ensures
        r@ == "{\"cmd\":\"subscribe\",\"events\":[\"windows\"]}\n"@,
{
    "{\"cmd\":\"subscribe\",\"events\":[\"windows\"]}\n"
}

/// What became of an attempt to follow Umbriel.
#[derive(Clone, Copy, Debug, PartialEq, Eq, Structural)]
pub enum Attempt {
    /// There is no socket.
    NoSocket,
    /// The socket cannot be connected to.
    NotConnected,
    /// The subscription cannot be written.
    NotSubscribed,
    /// The subscription was written, and the stream has closed since.
    /// `rejected` tells whether Umbriel rejected it.
    Closed { rejected: bool },
}

/// What is done after an attempt.
#[derive(Clone, Copy, Debug, PartialEq, Eq, Structural)]
pub struct Pause {
    /// How long to wait before the next attempt, in seconds.
    pub wait: u64,
    /// Whether to warn: not about what was warned about before.
    pub warn: bool,
}

/// When to look for Umbriel again.
pub struct Follower {
    retry: u64,
    waiting: bool,
}

/// The state of a [`Follower`].
pub struct FollowerView {
    /// The next wait, in seconds.
    pub retry: u64,
    /// Whether the wait for Umbriel was warned about.
    pub waiting: bool,
}

impl View for Follower {
    type V = FollowerView;

    closed spec fn view(&self) -> FollowerView {
        FollowerView { retry: self.retry, waiting: self.waiting }
    }
}

/// The follower at its start, and after each subscription.
pub open spec fn fresh() -> FollowerView {
    FollowerView { retry: FIRST_RETRY, waiting: false }
}

/// The wait after the wait `retry`.
pub open spec fn longer(retry: u64) -> u64 {
    if retry * 2 < MAX_RETRY {
        (retry * 2) as u64
    } else {
        MAX_RETRY
    }
}

/// The follower waits, and the next time longer.
pub open spec fn pausing(f: FollowerView, warn: bool) -> (FollowerView, Pause) {
    (FollowerView { retry: longer(f.retry), ..f }, Pause { wait: f.retry, warn })
}

/// What an attempt leads to.
pub open spec fn attempted(f: FollowerView, a: Attempt) -> (FollowerView, Pause) {
    match a {
        Attempt::NoSocket | Attempt::NotConnected => pausing(
            FollowerView { waiting: true, ..f },
            !f.waiting,
        ),
        Attempt::NotSubscribed => pausing(f, true),
        Attempt::Closed { rejected } => pausing(
            FollowerView {
                retry: if rejected {
                    MAX_RETRY
                } else {
                    FIRST_RETRY
                },
                waiting: false,
            },
            rejected,
        ),
    }
}

/// What holds of every state of a follower.
pub open spec fn valid(f: FollowerView) -> bool {
    FIRST_RETRY <= f.retry <= MAX_RETRY
}

impl Default for Follower {
    fn default() -> (r: Self)
        ensures
            r@ == fresh(),
            r.wf(),
    {
        Follower { retry: FIRST_RETRY, waiting: false }
    }
}

impl Follower {
    /// The state is one that a follower can be in.
    pub open spec fn wf(&self) -> bool {
        valid(self@)
    }

    /// What to do after an attempt.
    pub fn after(&mut self, attempt: Attempt) -> (r: Pause)
        requires
            old(self).wf(),
        ensures
            final(self).wf(),
            (final(self)@, r) == attempted(old(self)@, attempt),
    {
        let warn = match attempt {
            Attempt::NoSocket | Attempt::NotConnected => {
                let first = !self.waiting;
                self.waiting = true;
                first
            },
            Attempt::NotSubscribed => true,
            Attempt::Closed { rejected } => {
                self.waiting = false;
                self.retry = if rejected {
                    MAX_RETRY
                } else {
                    FIRST_RETRY
                };
                rejected
            },
        };
        let wait: u64 = self.retry;
        self.retry = if wait * 2 < MAX_RETRY {
            wait * 2
        } else {
            MAX_RETRY
        };
        Pause { wait, warn }
    }
}

/// An attempt that did not get as far as a connection.
pub open spec fn is_miss(a: Attempt) -> bool {
    a is NoSocket || a is NotConnected
}

/// The follower after the attempts `tried`, from `f` on.
pub open spec fn after_all(f: FollowerView, tried: Seq<Attempt>) -> FollowerView
    decreases tried.len(),
{
    if tried.len() == 0 {
        f
    } else {
        attempted(after_all(f, tried.drop_last()), tried.last()).0
    }
}

/// Three seconds, doubled `n` times, but no more than a minute.
pub open spec fn backed_off(n: nat) -> u64
    decreases n,
{
    if n == 0 {
        FIRST_RETRY
    } else {
        longer(backed_off((n - 1) as nat))
    }
}

/// Waiting for Umbriel starts at three seconds and doubles up to a minute,
/// where it stays, whether there is no socket or it cannot be connected to;
/// only the first attempt of a row is warned about.
pub proof fn waiting_backs_off(misses: Seq<Attempt>, next: Attempt)
    requires
        forall|i: int| 0 <= i < misses.len() ==> is_miss(#[trigger] misses[i]),
        is_miss(next),
    ensures
        attempted(after_all(fresh(), misses), next).1 == (Pause {
            wait: backed_off(misses.len()),
            warn: misses.len() == 0,
        }),
        backed_off(0) == 3,
        backed_off(1) == 6,
        backed_off(2) == 12,
        backed_off(3) == 24,
        backed_off(4) == 48,
        misses.len() >= 5 ==> backed_off(misses.len()) == 60,
{
    reveal_with_fuel(backed_off, 7);
    lemma_misses(misses);
    if misses.len() >= 5 {
        lemma_longest_wait(misses.len());
    }
}

proof fn lemma_misses(misses: Seq<Attempt>)
    requires
        forall|i: int| 0 <= i < misses.len() ==> is_miss(#[trigger] misses[i]),
    ensures
        after_all(fresh(), misses).retry == backed_off(misses.len()),
        after_all(fresh(), misses).waiting == (misses.len() > 0),
    decreases misses.len(),
{
    if misses.len() > 0 {
        assert(is_miss(misses[misses.len() - 1]));
        lemma_misses(misses.drop_last());
    }
}

proof fn lemma_longest_wait(n: nat)
    requires
        n >= 5,
    ensures
        backed_off(n) == MAX_RETRY,
    decreases n,
{
    reveal_with_fuel(backed_off, 7);
    if n > 5 {
        lemma_longest_wait((n - 1) as nat);
    }
}

/// Whatever came before, a stream that closed is followed by the shortest
/// wait, and a rejected subscription by the longest, which stays until one is
/// accepted.
pub proof fn subscription_resets_the_wait(f: FollowerView)
    ensures
        attempted(f, Attempt::Closed { rejected: false }).1.wait == FIRST_RETRY,
        attempted(f, Attempt::Closed { rejected: false }).0 == attempted(
            fresh(),
            Attempt::Closed { rejected: false },
        ).0,
        attempted(f, Attempt::Closed { rejected: true }).1.wait == MAX_RETRY,
        attempted(f, Attempt::Closed { rejected: true }).0.retry == MAX_RETRY,
{
}

/// Every wait lies between three seconds and a minute.
pub proof fn waits_are_bounded(f: FollowerView, a: Attempt)
    requires
        valid(f),
    ensures
        valid(attempted(f, a).0),
        FIRST_RETRY <= attempted(f, a).1.wait <= MAX_RETRY,
{
}

} // verus!
