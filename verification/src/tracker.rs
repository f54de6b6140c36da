//! What each `windows` snapshot is worth acting on. Times are nanoseconds of a
//! clock that never goes back.

use vstd::prelude::*;

use crate::text;
use crate::umbriel;
use crate::umbriel::Window;

verus! {

/// How long a window stays deduplicated after a successful boost. Repeated
/// snapshots for the same window cost nothing, but the boosted cgroup's
/// `dmem.low` is read again this often so a boost reverted from outside (a
/// `dmemcg-booster` restart, a stray write) is noticed while focus stays put.
pub const RECHECK: u64 = 5_000_000_000;

/// How long a window that resolved to no unit waits before another attempt.
/// A scope can appear moments after its window does, so failures are retried -
/// but a snapshot arrives on every title change, and rescanning `app.slice`
/// on each one would keep the daemon busy for as long as the window is focused.
pub const RETRY: u64 = 2_000_000_000;

/// What to do about one `windows` snapshot.
#[derive(Debug, PartialEq, Eq)]
pub enum Action {
    Boost { pid: Option<u32>, app_id: String, key: String },
    /// Same window, and its boost is due for a check. Resolving the window
    /// again would mean another walk through `app.slice`; only the cgroup
    /// already boosted needs looking at, which is one file read.
    Verify { key: String },
    /// No window is active: drop any boost.
    Clear,
    /// Same window as last time, and it is not due for another look.
    Skip,
}

/// An [`Action`] with its texts.
pub enum ActionView {
    Boost { pid: Option<u32>, app_id: Seq<char>, key: Seq<char> },
    Verify { key: Seq<char> },
    Clear,
    Skip,
}

impl View for Action {
    type V = ActionView;

    open spec fn view(&self) -> ActionView {
        match self {
            Action::Boost { pid, app_id, key } => ActionView::Boost {
                pid: *pid,
                app_id: app_id@,
                key: key@,
            },
            Action::Verify { key } => ActionView::Verify { key: key@ },
            Action::Clear => ActionView::Clear,
            Action::Skip => ActionView::Skip,
        }
    }
}

/// Decides what each snapshot is worth acting on.
pub struct Tracker {
    /// The window that was boosted, and when it is due for a check.
    boosted: Option<(String, u64)>,
    /// The window that could not be, and when it is due for another attempt.
    failed: Option<(String, u64)>,
}

/// A [`Tracker`] with its texts.
pub struct TrackerView {
    pub boosted: Option<(Seq<char>, u64)>,
    pub failed: Option<(Seq<char>, u64)>,
}

spec fn mark(o: Option<(String, u64)>) -> Option<(Seq<char>, u64)> {
    match o {
        Some((key, until)) => Some((key@, until)),
        None => None,
    }
}

impl View for Tracker {
    type V = TrackerView;

    closed spec fn view(&self) -> TrackerView {
        TrackerView { boosted: mark(self.boosted), failed: mark(self.failed) }
    }
}

/// A tracker that remembers nothing.
pub open spec fn fresh() -> TrackerView {
    TrackerView { boosted: None, failed: None }
}

/// What a window is remembered by.
pub open spec fn window_key(pid: Option<u32>, app_id: Seq<char>) -> Seq<char> {
    match pid {
        Some(p) => "pid:"@ + text::decimal(p as nat),
        None => "app:"@ + app_id,
    }
}

/// The mark is on the window `key`.
pub open spec fn marks(m: Option<(Seq<char>, u64)>, key: Seq<char>) -> bool {
    m matches Some((k, until)) && k == key
}

/// When the mark ends.
pub open spec fn ends(m: Option<(Seq<char>, u64)>) -> u64 {
    match m {
        Some((k, until)) => until,
        None => 0,
    }
}

/// What a snapshot with this window calls for at the time `now`.
pub open spec fn decided(
    t: TrackerView,
    picked: Option<(Option<u32>, Seq<char>)>,
    now: u64,
) -> (TrackerView, ActionView) {
    match picked {
        None => (fresh(), ActionView::Clear),
        Some((pid, app_id)) => {
            let key = window_key(pid, app_id);
            if marks(t.boosted, key) {
                if now < ends(t.boosted) {
                    (t, ActionView::Skip)
                } else {
                    (
                        TrackerView { boosted: Some((key, (now + RECHECK) as u64)), ..t },
                        ActionView::Verify { key },
                    )
                }
            } else if marks(t.failed, key) && now < ends(t.failed) {
                (t, ActionView::Skip)
            } else {
                (t, ActionView::Boost { pid, app_id, key })
            }
        },
    }
}

/// The tracker after a boost of the window `key` at the time `now`.
pub open spec fn recorded(key: Seq<char>, boosted: bool, now: u64) -> TrackerView {
    if boosted {
        TrackerView { boosted: Some((key, (now + RECHECK) as u64)), failed: None }
    } else {
        TrackerView { boosted: None, failed: Some((key, (now + RETRY) as u64)) }
    }
}

fn key_of(pid: Option<u32>, app_id: &str) -> (r: String)
    ensures
        r@ == window_key(pid, app_id@),
{
    match pid {
        Some(p) => {
            let mut key = "pid:".to_string();
            key.append(text::decimal_of(p as u64).as_str());
            key
        },
        None => {
            let mut key = "app:".to_string();
            key.append(app_id);
            key
        },
    }
}

/// When the mark on the window `key` ends; None if it is on no such window.
fn until(m: &Option<(String, u64)>, key: &str) -> (r: Option<u64>)
    ensures
        match r {
            Some(u) => marks(mark(*m), key@) && ends(mark(*m)) == u,
            None => !marks(mark(*m), key@),
        },
{
    match m {
        Some((k, u)) => if text::same_text(k.as_str(), key) {
            Some(*u)
        } else {
            None
        },
        None => None,
    }
}

impl Default for Tracker {
    fn default() -> (r: Self)
        ensures
            r@ == fresh(),
    {
        Tracker { boosted: None, failed: None }
    }
}

impl Tracker {
    /// What a snapshot with these windows calls for.
    pub fn next(&mut self, windows: &Option<Vec<Window>>, now: u64) -> (r: Action)
        requires
            now + RECHECK <= u64::MAX,
        ensures
            (final(self)@, r@) == decided(
                old(self)@,
                umbriel::picked(umbriel::windows_view(*windows)),
                now,
            ),
    {
        let (pid, app_id) = match umbriel::pick_window(windows) {
            Some((pid, app_id)) => (pid, app_id),
            None => {
                self.boosted = None;
                self.failed = None;
                return Action::Clear;
            },
        };
        let key = key_of(pid, app_id.as_str());
        if let Some(due) = until(&self.boosted, key.as_str()) {
            if now < due {
                return Action::Skip;
            }
            self.boosted = Some((key.clone(), now + RECHECK));
            return Action::Verify { key };
        }
        if let Some(due) = until(&self.failed, key.as_str()) {
            if now < due {
                return Action::Skip;
            }
        }
        Action::Boost { pid, app_id, key }
    }

    /// What a snapshot calls for when `overridden` tells whether a manual call
    /// has changed the boost behind the tracker's back. What it remembers is
    /// then forgotten, so the snapshot is resolved afresh instead of skipped or
    /// checked against that boost.
    pub fn next_after(
        &mut self,
        overridden: bool,
        windows: &Option<Vec<Window>>,
        now: u64,
    ) -> (r: Action)
        requires
            now + RECHECK <= u64::MAX,
        ensures
            (final(self)@, r@) == decided(
                if overridden {
                    fresh()
                } else {
                    old(self)@
                },
                umbriel::picked(umbriel::windows_view(*windows)),
                now,
            ),
    {
        if overridden {
            self.boosted = None;
            self.failed = None;
        }
        self.next(windows, now)
    }

    /// Remember the outcome of the boost the last `next` asked for.
    pub fn record(&mut self, key: String, boosted: bool, now: u64)
        requires
            now + RECHECK <= u64::MAX,
        ensures
            final(self)@ == recorded(key@, boosted, now),
    {
        if boosted {
            self.boosted = Some((key, now + RECHECK));
            self.failed = None;
        } else {
            self.failed = Some((key, now + RETRY));
            self.boosted = None;
        }
    }

    /// Remember the outcome of the check the last `next` asked for: where the
    /// boost is gone, the window is resolved again shortly.
    pub fn checked(&mut self, key: String, intact: bool, now: u64)
        requires
            now + RECHECK <= u64::MAX,
        ensures
            final(self)@ == (if intact {
                old(self)@
            } else {
                recorded(key@, false, now)
            }),
    {
        if !intact {
            self.record(key, false, now);
        }
    }
}

/// Two windows are remembered by the same key only if both have the same pid,
/// or neither has one and they have the same app id.
pub proof fn keys_tell_windows_apart(
    pid1: Option<u32>,
    app1: Seq<char>,
    pid2: Option<u32>,
    app2: Seq<char>,
)
    ensures
        window_key(pid1, app1) == window_key(pid2, app2) <==> pid1 == pid2 && (pid1 is None
            ==> app1 == app2),
{
    reveal_strlit("pid:");
    reveal_strlit("app:");
    let k1 = window_key(pid1, app1);
    let k2 = window_key(pid2, app2);
    assert(k1[0] == (if pid1 is Some { 'p' } else { 'a' }));
    assert(k2[0] == (if pid2 is Some { 'p' } else { 'a' }));
    assert(k1.skip(4) =~= (if let Some(p) = pid1 { text::decimal(p as nat) } else { app1 }));
    assert(k2.skip(4) =~= (if let Some(p) = pid2 { text::decimal(p as nat) } else { app2 }));
    if let (Some(p), Some(q)) = (pid1, pid2) {
        text::lemma_decimal_value(p as nat);
        text::lemma_decimal_value(q as nat);
    }
}

/// A window that was boosted is left alone until its check is due, then
/// checked, and after that left alone again for as long.
pub proof fn boosted_window_is_checked_on_a_timer(
    pid: Option<u32>,
    app_id: Seq<char>,
    t0: u64,
    now: u64,
    later: u64,
)
    requires
        t0 + RECHECK <= u64::MAX,
        now + RECHECK <= u64::MAX,
        t0 <= now <= later,
    ensures
        ({
            let key = window_key(pid, app_id);
            let t = recorded(key, true, t0);
            let (after, action) = decided(t, Some((pid, app_id)), now);
            if now < t0 + RECHECK {
                action is Skip && after == t
            } else {
                &&& action == (ActionView::Verify { key })
                &&& later < now + RECHECK ==> decided(after, Some((pid, app_id)), later) == (
                    after,
                    ActionView::Skip,
                )
            }
        }),
{
}

/// A window that could not be boosted is tried again once the retry is due, and
/// not before, whatever snapshots arrive.
pub proof fn failed_window_is_retried_on_a_timer(
    pid: Option<u32>,
    app_id: Seq<char>,
    t0: u64,
    now: u64,
)
    requires
        t0 + RETRY <= u64::MAX,
        t0 <= now,
    ensures
        ({
            let key = window_key(pid, app_id);
            let t = recorded(key, false, t0);
            decided(t, Some((pid, app_id)), now) == (
                t,
                if now < t0 + RETRY {
                    ActionView::Skip
                } else {
                    ActionView::Boost { pid, app_id, key }
                },
            )
        }),
{
}

/// A window other than the one remembered is boosted at once.
pub proof fn new_window_is_boosted_at_once(
    pid1: Option<u32>,
    app1: Seq<char>,
    boosted: bool,
    t0: u64,
    pid2: Option<u32>,
    app2: Seq<char>,
    now: u64,
)
    requires
        pid1 != pid2 || (pid1 is None && app1 != app2),
    ensures
        decided(recorded(window_key(pid1, app1), boosted, t0), Some((pid2, app2)), now).1 == (
        ActionView::Boost { pid: pid2, app_id: app2, key: window_key(pid2, app2) }),
{
    keys_tell_windows_apart(pid1, app1, pid2, app2);
}

/// A snapshot without an active window drops the boost, and nothing is
/// remembered after it; a tracker that remembers nothing boosts the first
/// window it is shown.
pub proof fn nothing_is_remembered_after_a_clear(
    t: TrackerView,
    pid: Option<u32>,
    app_id: Seq<char>,
    t0: u64,
    now: u64,
)
    ensures
        decided(t, None, t0) == (fresh(), ActionView::Clear),
        decided(fresh(), Some((pid, app_id)), now) == (
            fresh(),
            ActionView::Boost { pid, app_id, key: window_key(pid, app_id) },
        ),
{
}

} // verus!
