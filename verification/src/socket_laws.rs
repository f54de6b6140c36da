//! Which socket is followed, and how long to wait for it.

use vstd::prelude::*;
use vstd::utf8::*;

use crate::follower;
use crate::follower::{Attempt, FollowerView, Pause};
use crate::sockets;
use crate::sockets::{FileView, PlanView};

verus! {

/// A path that is set is taken as it is. Else the runtime dir is looked into,
/// for the display's own socket first, where the display has a name without a
/// slash; and without a runtime dir there is nowhere to look.
pub proof fn settings_come_first(
    path: Seq<char>,
    dir: Seq<char>,
    name: Seq<char>,
    runtime_dir: Option<Seq<char>>,
    display: Option<Seq<char>>,
)
    ensures
        sockets::plan(Some(path), runtime_dir, display) == PlanView::At(path),
        sockets::plan(None, None, display) is Nowhere,
        name.len() > 0 && !name.contains('/') ==> sockets::plan(None, Some(dir), Some(name)) == (
        PlanView::In { dir, derived: Some("umbriel-"@ + name + ".sock"@) }),
        name.len() == 0 || name.contains('/') ==> sockets::plan(None, Some(dir), Some(name)) == (
        PlanView::In { dir, derived: None }),
        sockets::plan(None, Some(dir), None) == (PlanView::In { dir, derived: None }),
{
}

/// A file is a socket of Umbriel's if its name begins with `umbriel-` and ends
/// in `.sock`, whatever is between them.
pub proof fn sockets_are_named_so(middle: Seq<u8>, name: Seq<u8>)
    ensures
        sockets::is_socket_name(encode_utf8("umbriel-"@) + middle + encode_utf8(".sock"@)),
        sockets::is_socket_name(name) ==> (exists|rest: Seq<u8>|
            name == #[trigger] (encode_utf8("umbriel-"@) + rest)) && (exists|rest: Seq<u8>|
            name == #[trigger] (rest + encode_utf8(".sock"@))),
{
    let (first, last) = (encode_utf8("umbriel-"@), encode_utf8(".sock"@));
    let whole = first + middle + last;
    assert(whole.take(first.len() as int) == first);
    assert(whole.skip(whole.len() - last.len()) == last);
    if sockets::is_socket_name(name) {
        assert(name == first + name.skip(first.len() as int));
        assert(name == name.take(name.len() - last.len()) + last);
    }
}

/// The file `g` is a socket that is newer than `f`. What cannot be told is
/// older than any time.
pub open spec fn newer(g: FileView, f: FileView) -> bool {
    sockets::is_socket_name(g.name) && match (g.modified, f.modified) {
        (Some(a), Some(b)) => a > b,
        (Some(a), None) => true,
        (None, _) => false,
    }
}

/// The file `g` is a socket that is as new as `f`, or newer.
pub open spec fn as_new(g: FileView, f: FileView) -> bool {
    sockets::is_socket_name(g.name) && (g.modified == f.modified || newer(g, f))
}

proof fn lemma_newest(before: Seq<FileView>, f: FileView, after: Seq<FileView>)
    requires
        sockets::is_socket_name(f.name),
        forall|i: int| 0 <= i < before.len() ==> !newer(#[trigger] before[i], f),
        forall|i: int| 0 <= i < after.len() ==> !as_new(#[trigger] after[i], f),
    ensures
        sockets::newest(before.push(f) + after) == Some(f),
    decreases after.len(),
{
    let all = before.push(f) + after;
    if after.len() == 0 {
        assert(all.drop_last() == before);
        assert(all.last() == f);
        sockets::newest_is_newest(before);
        if let Some(b) = sockets::newest(before) {
            let i = choose|i: int| 0 <= i < before.len() && before[i] == b;
            assert(!newer(before[i], f));
        }
    } else {
        let front = after.drop_last();
        assert forall|i: int| 0 <= i < front.len() implies !as_new(#[trigger] front[i], f) by {
            assert(front[i] == after[i]);
        }
        lemma_newest(before, f, front);
        assert(all.drop_last() == before.push(f) + front);
        assert(all.last() == after[after.len() - 1]);
    }
}

/// The newest socket is taken, of several as new the one that is listed last,
/// and where the display's own exists, that. What is no socket is passed over,
/// and without a socket, or a listing, none is taken.
pub proof fn newest_socket_is_taken(
    before: Seq<FileView>,
    f: FileView,
    after: Seq<FileView>,
    own: Seq<char>,
    listed: Option<Seq<FileView>>,
)
    requires
        sockets::is_socket_name(f.name),
        forall|i: int| 0 <= i < before.len() ==> !newer(#[trigger] before[i], f),
        forall|i: int| 0 <= i < after.len() ==> !as_new(#[trigger] after[i], f),
    ensures
        sockets::chosen(None, true, Some(before.push(f) + after)) == Some(f.name),
        sockets::chosen(None, false, Some(before.push(f) + after)) == Some(f.name),
        sockets::chosen(Some(own), false, Some(before.push(f) + after)) == Some(f.name),
        sockets::chosen(Some(own), true, listed) == Some(encode_utf8(own)),
        sockets::chosen(None, false, None) is None,
        sockets::chosen(None, true, None) is None,
        sockets::chosen(Some(own), false, None) is None,
{
    lemma_newest(before, f, after);
}

/// Where no file is a socket, none is taken.
pub proof fn other_files_are_no_sockets(fs: Seq<FileView>)
    requires
        forall|i: int| 0 <= i < fs.len() ==> !sockets::is_socket_name((#[trigger] fs[i]).name),
    ensures
        sockets::chosen(None, false, Some(fs)) is None,
{
    sockets::newest_is_newest(fs);
    if let Some(f) = sockets::newest(fs) {
        let i = choose|i: int| 0 <= i < fs.len() && fs[i] == f;
        assert(!sockets::is_socket_name(fs[i].name));
    }
}

/// What each attempt leads to. One that found no socket, or none to connect to,
/// is warned about only if none before it was; one that could not subscribe
/// always is, and does not count as such a miss. After each of them the wait is
/// doubled, up to a minute. A stream that was followed and closed is waited for
/// anew, for three seconds, and for a minute where the subscription was
/// rejected, which alone is warned about.
pub proof fn attempts_lead_to_these_waits(f: FollowerView)
    requires
        3 <= f.retry <= 60,
    ensures
        ({
            let doubled = if f.retry >= 30 {
                60u64
            } else {
                (f.retry * 2) as u64
            };
            let missed = (
                FollowerView { retry: doubled, waiting: true },
                Pause { wait: f.retry, warn: !f.waiting },
            );
            &&& follower::attempted(f, Attempt::NoSocket) == missed
            &&& follower::attempted(f, Attempt::NotConnected) == missed
            &&& follower::attempted(f, Attempt::NotSubscribed) == (
                FollowerView { retry: doubled, waiting: f.waiting },
                Pause { wait: f.retry, warn: true },
            )
        }),
        follower::attempted(f, Attempt::Closed { rejected: false }) == (
            FollowerView { retry: 6, waiting: false },
            Pause { wait: 3, warn: false },
        ),
        follower::attempted(f, Attempt::Closed { rejected: true }) == (
            FollowerView { retry: 60, waiting: false },
            Pause { wait: 60, warn: true },
        ),
        follower::fresh() == (FollowerView { retry: 3, waiting: false }),
{
}

} // verus!
