//! Which window is taken from the stream, and when it is acted on.

use vstd::prelude::*;

use crate::json;
use crate::json::JsonView;
use crate::tracker;
use crate::tracker::{ActionView, TrackerView};
use crate::umbriel;
use crate::umbriel::{LineView, WindowView};

verus! {

/// The first member of a name counts, wherever it stands; a value that is no
/// object has no members.
pub proof fn first_member_counts(
    before: Seq<(Seq<char>, Seq<char>)>,
    key: Seq<char>,
    v: Seq<char>,
    after: Seq<(Seq<char>, Seq<char>)>,
    j: JsonView,
)
    requires
        forall|i: int| 0 <= i < before.len() ==> (#[trigger] before[i]).0 != key,
    ensures
        json::field(JsonView::Object(before.push((key, v)) + after), key) == Some(v),
        json::field(JsonView::Object(before), key) is None,
        !(j is Object) ==> json::field(j, key) is None,
    decreases before.len(),
{
    let all = before.push((key, v)) + after;
    if before.len() == 0 {
        assert(all[0] == (key, v));
    } else {
        let rest = before.skip(1);
        assert forall|i: int| 0 <= i < rest.len() implies (#[trigger] rest[i]).0 != key by {
            assert(rest[i] == before[i + 1]);
        }
        first_member_counts(rest, key, v, after, j);
        assert(all.skip(1) == rest.push((key, v)) + after);
        assert(all[0] == before[0]);
        assert(before[0].0 != key);
    }
}

/// What a line of the stream says: nothing where reading failed, the stream has
/// ended, the line does not, or it is not JSON. Of a message, `err` comes
/// first, if it is a text, and else a `windows` event brings its `data`.
pub proof fn lines_say_what_their_members_say(line: Seq<char>, j: JsonView, m: Seq<char>)
    ensures
        umbriel::line_meaning(false, line) is Failed,
        umbriel::line_meaning(true, Seq::empty()) is Closed,
        line.len() > 0 && line.last() != '\n' ==> umbriel::line_meaning(true, line) is Unterminated,
        line.len() > 0 && line.last() == '\n' && json::parsed(line) is None
            ==> umbriel::line_meaning(true, line) is Ignored,
        line.len() > 0 && line.last() == '\n' && json::parsed(line) == Some(j) ==> {
            let err = json::field(j, "err"@);
            let event = json::field(j, "event"@);
            let said = umbriel::line_meaning(true, line);
            &&& said == LineView::Rejected(m) <==> err is Some && json::parsed(err->0) == Some(
                JsonView::Str(m),
            )
            &&& said is Snapshot ==> said == LineView::Snapshot(json::field(j, "data"@))
            &&& said is Snapshot <==> !(said is Rejected) && event is Some && json::parsed(event->0)
                == Some(JsonView::Str("windows"@))
            &&& said is Ignored <==> !(said is Rejected) && !(said is Snapshot)
        },
        umbriel::MAX_LINE == 1024 * 1024,
{
}

/// What a member of a window says: `true` and a text or a number that fits, or
/// nothing.
pub proof fn members_of_another_type_say_nothing(
    active: Option<JsonView>,
    pid: Option<JsonView>,
    xwayland: Option<JsonView>,
    app_id: Option<JsonView>,
    n: i64,
    s: Seq<char>,
)
    ensures
        ({
            let w = umbriel::window(active, pid, xwayland, app_id);
            &&& w.active <==> active == Some(JsonView::Bool(true))
            &&& w.xwayland <==> xwayland == Some(JsonView::Bool(true))
            &&& w.pid == Some(n) <==> pid == Some(JsonView::Number(Some(n)))
            &&& app_id == Some(JsonView::Str(s)) ==> w.app_id == s
            &&& !(app_id is Some && app_id->0 is Str) ==> w.app_id.len() == 0
        }),
{
}

/// The member `key` of a JSON text that is an object.
pub open spec fn told(item: Seq<char>, key: Seq<char>) -> Option<JsonView> {
    match json::parsed(item) {
        Some(j) => match json::field(j, key) {
            Some(t) => json::parsed(t),
            None => None,
        },
        None => None,
    }
}

/// A snapshot lists a window for each item of its array, in the same order,
/// whatever the item is. What is no array lists none.
pub proof fn every_item_is_a_window(data: Seq<char>, items: Seq<Seq<char>>, i: int)
    ensures
        json::parsed(data) == Some(JsonView::Array(items)) ==> {
            let ws = umbriel::windows_in(Some(data));
            &&& ws is Some
            &&& ws->0.len() == items.len()
            &&& 0 <= i < items.len() ==> ws->0[i] == umbriel::window(
                told(items[i], "active"@),
                told(items[i], "pid"@),
                told(items[i], "xwayland"@),
                told(items[i], "app_id"@),
            )
        },
        !(json::parsed(data) is Some && json::parsed(data)->0 is Array) ==> umbriel::windows_in(
            Some(data),
        ) is None,
        umbriel::windows_in(None) is None,
{
}

/// The first active window decides, whatever follows it, and none before it
/// does. Its pid counts if it is a native one above zero that fits, and without
/// one it is taken by its app id, if it has that. Without an active window
/// nothing is taken.
pub proof fn first_active_window_decides(
    before: Seq<WindowView>,
    w: WindowView,
    after: Seq<WindowView>,
)
    requires
        forall|i: int| 0 <= i < before.len() ==> !(#[trigger] before[i]).active,
    ensures
        umbriel::picked(Some(before)) is None,
        umbriel::picked(None) is None,
        w.active ==> {
            let got = umbriel::picked(Some(before.push(w) + after));
            &&& !w.xwayland && w.pid is Some && 1 <= w.pid->0 <= 0xffff_ffff ==> got == Some(
                (Some(w.pid->0 as u32), w.app_id),
            )
            &&& w.xwayland || w.pid is None || w.pid->0 < 1 || w.pid->0 > 0xffff_ffff ==> got == (
            if w.app_id.len() > 0 {
                Some((None::<u32>, w.app_id))
            } else {
                None
            })
        },
    decreases before.len(),
{
    let all = before.push(w) + after;
    if before.len() == 0 {
        assert(all[0] == w);
    } else {
        let rest = before.skip(1);
        assert forall|i: int| 0 <= i < rest.len() implies !(#[trigger] rest[i]).active by {
            assert(rest[i] == before[i + 1]);
        }
        first_active_window_decides(rest, w, after);
        assert(all.skip(1) == rest.push(w) + after);
        assert(all[0] == before[0]);
        assert(!before[0].active);
    }
}

/// What a snapshot calls for, by the marks: a boosted window is left alone
/// before its time and checked from then on, every five seconds. Any other is
/// boosted, unless it failed and its time has not come.
pub proof fn marks_decide(
    t: TrackerView,
    pid: Option<u32>,
    app_id: Seq<char>,
    now: u64,
    until: u64,
)
    requires
        now + 5_000_000_000 <= u64::MAX,
    ensures
        ({
            let key = tracker::window_key(pid, app_id);
            let did = tracker::decided(t, Some((pid, app_id)), now);
            let boosted = t.boosted == Some((key, until));
            let other = t.boosted is None || exists|k: Seq<char>, u: u64| #[trigger]
                same_mark(t.boosted, k, u) && k != key;
            let failed = t.failed == Some((key, until));
            let other_failed = t.failed is None || exists|k: Seq<char>, u: u64| #[trigger]
                same_mark(t.failed, k, u) && k != key;
            let boost = ActionView::Boost { pid, app_id, key };
            &&& boosted && now < until ==> did == (t, ActionView::Skip)
            &&& boosted && now >= until ==> did == (
                TrackerView {
                    boosted: Some((key, (now + 5_000_000_000) as u64)),
                    failed: t.failed,
                },
                ActionView::Verify { key },
            )
            &&& other && failed && now < until ==> did == (t, ActionView::Skip)
            &&& other && failed && now >= until ==> did == (t, boost)
            &&& other && other_failed ==> did == (t, boost)
        }),
{
}

/// The mark is on `key` and ends at `until`.
pub open spec fn same_mark(m: Option<(Seq<char>, u64)>, key: Seq<char>, until: u64) -> bool {
    m == Some((key, until))
}

/// What is remembered of a boost: of one that was made, that it is due for a
/// check in five seconds, and of one that was not, that it is due for another
/// attempt in two; and nothing else.
pub proof fn outcomes_are_remembered(key: Seq<char>, now: u64)
    requires
        now + 5_000_000_000 <= u64::MAX,
    ensures
        tracker::recorded(key, true, now) == (TrackerView {
            boosted: Some((key, (now + 5_000_000_000) as u64)),
            failed: None,
        }),
        tracker::recorded(key, false, now) == (TrackerView {
            boosted: None,
            failed: Some((key, (now + 2_000_000_000) as u64)),
        }),
        tracker::fresh() == (TrackerView { boosted: None, failed: None }),
{
}

} // verus!
