//! What holds of the boost over any run of operations.

use vstd::prelude::*;

use crate::booster;
use crate::booster::{Reply, RequestView, State, TaskView};
use crate::dmem;
use crate::dmem::WriteOutcome;
use crate::scope;

verus! {

/// What can happen to a booster.
pub enum Event {
    Focus(Option<Seq<char>>),
    Verify,
    Clear,
    Answer(Reply),
}

/// The state and the request that an event leads to.
pub open spec fn step(s: State, e: Event) -> (State, RequestView) {
    match e {
        Event::Focus(c) => booster::focus(s, c),
        Event::Verify => booster::verify(s),
        Event::Clear => booster::clear(s, None),
        Event::Answer(reply) => booster::resume(s, reply),
    }
}

/// The events that can come: an operation starts when none is under way, and
/// an answer is one to the outstanding request.
pub open spec fn can_come(s: State, e: Event) -> bool {
    match e {
        Event::Answer(Reply::Written(_)) => booster::outstanding(s) is Write,
        Event::Answer(Reply::Checked(_)) => booster::outstanding(s) is Check,
        _ => s.task is Idle,
    }
}

/// The cgroups that may hold the boost after an event, if those in `held` may
/// before it. Writes land in the order they were asked for, so one that timed
/// out counts as if it had landed. A cgroup without the file holds nothing,
/// and one that was read and does not hold the boost does not hold it.
pub open spec fn held_after(s: State, held: Set<Seq<char>>, e: Event) -> Set<Seq<char>> {
    match (e, booster::outstanding(s)) {
        (Event::Answer(Reply::Written(outcome)), RequestView::Write { cgroup, bytes }) => {
            match outcome {
                WriteOutcome::Wrote | WriteOutcome::TimedOut => if bytes == 0 {
                    held.remove(cgroup)
                } else {
                    held.insert(cgroup)
                },
                WriteOutcome::Missing => held.remove(cgroup),
                WriteOutcome::Failed => held,
            }
        },
        (Event::Answer(Reply::Checked(false)), RequestView::Check { cgroup, bytes }) => held.remove(
            cgroup,
        ),
        _ => held,
    }
}

/// A failed write to a cgroup that may hold the boost: what the cgroup holds
/// afterwards is anybody's guess.
pub open spec fn loses_track(s: State, held: Set<Seq<char>>, e: Event) -> bool {
    match (e, booster::outstanding(s)) {
        (
            Event::Answer(Reply::Written(WriteOutcome::Failed)),
            RequestView::Write { cgroup, bytes },
        ) => held.contains(cgroup),
        _ => false,
    }
}

/// The booster remembers the cgroup `c`, or is about to deal with it.
pub open spec fn remembers(s: State, c: Seq<char>) -> bool {
    ||| s.boosted == Some(c)
    ||| s.unconfirmed == Some(c)
    ||| s.task matches TaskView::Clearing { cgroup, next, then } && (cgroup == c || next == Some(c)
        || then == Some(c))
}

/// Every cgroup that may hold the boost is remembered.
pub open spec fn tracks(s: State, held: Set<Seq<char>>) -> bool {
    forall|c: Seq<char>| held.contains(c) ==> #[trigger] remembers(s, c)
}

/// Whatever happens, the state stays valid and no cgroup that may hold the
/// boost is forgotten.
pub proof fn boost_stays_tracked(s: State, held: Set<Seq<char>>, e: Event)
    requires
        booster::valid(s),
        tracks(s, held),
        can_come(s, e),
        !loses_track(s, held, e),
    ensures
        booster::valid(step(s, e).0),
        tracks(step(s, e).0, held_after(s, held, e)),
{
    let s2 = step(s, e).0;
    let after = held_after(s, held, e);
    assert forall|c: Seq<char>| after.contains(c) implies #[trigger] remembers(s2, c) by {
        if held.contains(c) {
            assert(remembers(s, c));
        }
    }
}

/// The state after the events `es`.
pub open spec fn run(s: State, es: Seq<Event>) -> State
    decreases es.len(),
{
    if es.len() == 0 {
        s
    } else {
        step(run(s, es.drop_last()), es.last()).0
    }
}

/// The cgroups that may hold the boost after the events `es`, if none did.
pub open spec fn held_after_run(s: State, es: Seq<Event>) -> Set<Seq<char>>
    decreases es.len(),
{
    if es.len() == 0 {
        Set::empty()
    } else {
        held_after(run(s, es.drop_last()), held_after_run(s, es.drop_last()), es.last())
    }
}

/// Every one of the events `es` can come when it does, and none of them makes
/// the booster lose track.
pub open spec fn orderly(s: State, es: Seq<Event>) -> bool
    decreases es.len(),
{
    es.len() > 0 ==> {
        let before = run(s, es.drop_last());
        &&& orderly(s, es.drop_last())
        &&& can_come(before, es.last())
        &&& !loses_track(before, held_after_run(s, es.drop_last()), es.last())
    }
}

/// However the focus moves and however its writes go: whenever no operation
/// is under way, at most one cgroup may hold the boost, the booster knows it,
/// and a cgroup that is reported as boosted is the only one.
pub proof fn at_most_one_boost(start: State, es: Seq<Event>)
    requires
        booster::valid(start),
        start.task is Idle,
        orderly(start, es),
    ensures
        booster::valid(run(start, es)),
        tracks(run(start, es), held_after_run(start, es)),
        run(start, es).task is Idle ==> {
            let s = run(start, es);
            let held = held_after_run(start, es);
            &&& forall|c: Seq<char>, d: Seq<char>|
                held.contains(c) && held.contains(d) ==> c == d
            &&& forall|c: Seq<char>|
                held.contains(c) ==> s.boosted == Some(c) || s.unconfirmed == Some(c)
            &&& forall|c: Seq<char>|
                held.contains(c) && s.boosted is Some ==> s.boosted == Some(c)
        },
    decreases es.len(),
{
    if es.len() > 0 {
        at_most_one_boost(start, es.drop_last());
        boost_stays_tracked(
            run(start, es.drop_last()),
            held_after_run(start, es.drop_last()),
            es.last(),
        );
    }
    let s = run(start, es);
    let held = held_after_run(start, es);
    if s.task is Idle {
        assert forall|c: Seq<char>, d: Seq<char>| held.contains(c) && held.contains(d) implies c
            == d by {
            assert(remembers(s, c));
            assert(remembers(s, d));
        }
        assert forall|c: Seq<char>| held.contains(c) implies s.boosted == Some(c) || s.unconfirmed
            == Some(c) by {
            assert(remembers(s, c));
        }
        assert forall|c: Seq<char>| held.contains(c) && s.boosted is Some implies s.boosted == Some(
            c,
        ) by {
            assert(remembers(s, c));
        }
    }
}

/// Clearing takes the boost off whichever cgroup may hold it: at most one
/// write, after which nothing is boosted, reported or held.
pub proof fn clearing_leaves_no_boost(s: State, held: Set<Seq<char>>, outcome: WriteOutcome)
    requires
        booster::valid(s),
        s.task is Idle,
        tracks(s, held),
        outcome != WriteOutcome::Failed,
    ensures
        ({
            let (s1, q1) = booster::clear(s, None);
            let (s2, q2) = booster::resume(s1, Reply::Written(outcome));
            match q1 {
                RequestView::Done { boosted } => {
                    &&& !boosted
                    &&& nothing_boosted(s1)
                    &&& held == Set::<Seq<char>>::empty()
                },
                RequestView::Write { cgroup, bytes } => {
                    &&& bytes == 0
                    &&& s.boosted == Some(cgroup) || s.unconfirmed == Some(cgroup)
                    &&& q2 == RequestView::Done { boosted: false }
                    &&& nothing_boosted(s2)
                    &&& held_after(s1, held, Event::Answer(Reply::Written(outcome))) == Set::<
                        Seq<char>,
                    >::empty()
                },
                RequestView::Check { .. } => false,
            }
        }),
{
    let (s1, q1) = booster::clear(s, None);
    let after = held_after(s1, held, Event::Answer(Reply::Written(outcome)));
    if q1 is Done {
        assert forall|c: Seq<char>| !held.contains(c) by {
            if held.contains(c) {
                assert(remembers(s, c));
            }
        }
        assert(held =~= Set::<Seq<char>>::empty());
    } else {
        assert forall|c: Seq<char>| !after.contains(c) by {
            if held.contains(c) {
                assert(remembers(s, c));
            }
        }
        assert(after =~= Set::<Seq<char>>::empty());
    }
}

/// Nothing is boosted, about to be, or reported.
pub open spec fn nothing_boosted(s: State) -> bool {
    &&& s.boosted is None
    &&& s.unconfirmed is None
    &&& s.unit == Seq::<char>::empty()
    &&& s.task is Idle
}

/// When the focus moves from one cgroup to another, the boost is first taken
/// off the one that had it, however that goes, and then put on the other; it
/// is reported if and only if its write was.
pub proof fn focus_moves_the_boost(
    s: State,
    a: Seq<char>,
    c: Seq<char>,
    off: WriteOutcome,
    on: WriteOutcome,
)
    requires
        booster::valid(s),
        s.task is Idle,
        s.boosted == Some(a),
        a != c,
    ensures
        ({
            let (s1, q1) = booster::focus(s, Some(c));
            let (s2, q2) = booster::resume(s1, Reply::Written(off));
            let (s3, q3) = booster::resume(s2, Reply::Written(on));
            let done = on == WriteOutcome::Wrote;
            &&& q1 == RequestView::Write { cgroup: a, bytes: 0 }
            &&& q2 == RequestView::Write { cgroup: c, bytes: s.boost }
            &&& q3 == RequestView::Done { boosted: done }
            &&& s3.boosted == (if done { Some(c) } else { None })
            &&& s3.unit == (if done { scope::label(c) } else { Seq::<char>::empty() })
            &&& s3.unconfirmed == (if on == WriteOutcome::TimedOut { Some(c) } else { None })
        }),
{
}

/// A boost whose write timed out is not reported, but the next clear goes to
/// its cgroup.
pub proof fn timed_out_boost_is_cleared(s: State, c: Seq<char>)
    requires
        booster::valid(s),
        s.task == (TaskView::Boosting { cgroup: c }),
    ensures
        ({
            let (s1, q1) = booster::resume(s, Reply::Written(WriteOutcome::TimedOut));
            let (s2, q2) = booster::clear(s1, None);
            &&& q1 == RequestView::Done { boosted: false }
            &&& s1.boosted is None
            &&& s1.unit == Seq::<char>::empty()
            &&& s1.unconfirmed == Some(c)
            &&& q2 == RequestView::Write { cgroup: c, bytes: 0 }
        }),
{
}

/// While the focus stays on a cgroup whose boost is intact, nothing is
/// written and nothing changes.
pub proof fn intact_boost_is_left_alone(s: State, c: Seq<char>)
    requires
        booster::valid(s),
        s.task is Idle,
        s.boosted == Some(c),
    ensures
        ({
            let (s1, q1) = booster::focus(s, Some(c));
            &&& q1 == RequestView::Check { cgroup: c, bytes: s.boost }
            &&& booster::resume(s1, Reply::Checked(true)) == (
                s,
                RequestView::Done { boosted: true },
            )
        }),
        ({
            let (s1, q1) = booster::verify(s);
            &&& q1 == RequestView::Check { cgroup: c, bytes: s.boost }
            &&& booster::resume(s1, Reply::Checked(true)) == (
                s,
                RequestView::Done { boosted: true },
            )
        }),
{
}

/// While a boost is being written, its cgroup is already remembered as the
/// boosted one, so an interruption leaves nothing unknown.
pub proof fn boost_is_remembered_before_it_is_written(s: State)
    requires
        booster::valid(s),
    ensures
        booster::outstanding(s) matches RequestView::Write { cgroup, bytes } ==> (bytes != 0
            ==> s.boosted == Some(cgroup)),
{
}

/// Every cgroup that the booster knows is one of `ours`.
pub open spec fn knows_only(s: State, ours: Set<Seq<char>>) -> bool {
    forall|c: Seq<char>| #[trigger] remembers(s, c) || s.task == (TaskView::Verifying { cgroup: c })
        || s.task == (TaskView::Reapplying { cgroup: c }) || s.task == (TaskView::Confirming {
        cgroup: c,
    }) || s.task == (TaskView::Boosting { cgroup: c }) ==> ours.contains(c)
}

/// The booster asks for nothing but what concerns the cgroups it was given,
/// and writes nothing but its boost or zero.
pub proof fn requests_stay_with_ours(s: State, e: Event, ours: Set<Seq<char>>)
    requires
        knows_only(s, ours),
        e matches Event::Focus(Some(c)) ==> ours.contains(c),
    ensures
        knows_only(step(s, e).0, ours),
        match step(s, e).1 {
            RequestView::Write { cgroup, bytes } => ours.contains(cgroup) && (bytes == 0 || bytes
                == s.boost),
            RequestView::Check { cgroup, bytes } => ours.contains(cgroup) && bytes == s.boost,
            RequestView::Done { .. } => true,
        },
        step(s, e).0.boost == s.boost,
{
    let (s2, q) = step(s, e);
    assert forall|c: Seq<char>| #[trigger] remembers(s2, c) || s2.task == (TaskView::Verifying {
        cgroup: c,
    }) || s2.task == (TaskView::Reapplying { cgroup: c }) || s2.task == (TaskView::Confirming {
        cgroup: c,
    }) || s2.task == (TaskView::Boosting { cgroup: c }) implies ours.contains(c) by {
        let _ = remembers(s, c);
    }
    match q {
        RequestView::Write { cgroup, bytes } => {
            let _ = remembers(s, cgroup);
            let _ = remembers(s2, cgroup);
        },
        RequestView::Check { cgroup, bytes } => {
            let _ = remembers(s, cgroup);
            let _ = remembers(s2, cgroup);
        },
        RequestView::Done { .. } => {},
    }
}

/// The cgroups at or below `root`.
pub open spec fn below(root: Seq<char>) -> Set<Seq<char>> {
    Set::new(|c: Seq<char>| scope::lies_in(c, root))
}

/// If the focus is only ever given cgroups of the user's own slice, every
/// file that is written is a `dmem.low` below that slice, and its path does
/// not climb out of it.
pub proof fn writes_stay_in_the_users_slice(s: State, e: Event, uid: u32)
    requires
        knows_only(s, below(scope::user_root(uid))),
        e matches Event::Focus(Some(c)) ==> scope::lies_in(c, scope::user_root(uid)),
    ensures
        knows_only(step(s, e).0, below(scope::user_root(uid))),
        step(s, e).1 matches RequestView::Write { cgroup, bytes } ==> (dmem::writable_dir(
            cgroup,
        ) ==> {
            let file = cgroup + "/"@ + "dmem.low"@;
            &&& scope::lies_in(file, scope::user_root(uid))
            &&& !scope::components(file).contains(".."@)
        }),
{
    let root = scope::user_root(uid);
    requests_stay_with_ours(s, e, below(root));
    if let RequestView::Write { cgroup, bytes } = step(s, e).1 {
        if dmem::writable_dir(cgroup) {
            reveal_strlit("dmem.low");
            reveal_strlit(".");
            reveal_strlit("..");
            reveal_strlit("/sys/fs/cgroup/user.slice/user-");
            assert(below(root).contains(cgroup));
            assert(scope::is_absolute(root)) by {
                assert(root[0] == "/sys/fs/cgroup/user.slice/user-"@[0]);
            }
            assert forall|i: int| 0 <= i < "dmem.low"@.len() implies "dmem.low"@[i] != '/' by {}
            scope::written_file_lies_in(cgroup, "dmem.low"@, root);
        }
    }
}

/// A request stays outstanding until it is answered, and an operation is over
/// exactly when nothing is left to be done.
pub proof fn requests_are_outstanding(s: State, e: Event)
    requires
        booster::valid(s),
        can_come(s, e),
    ensures
        ({
            let (s2, q) = step(s, e);
            match q {
                RequestView::Done { .. } => s2.task is Idle,
                _ => !(s2.task is Idle) && booster::outstanding(s2) == q,
            }
        }),
{
}

/// A boost is reported only on the strength of the last answer about that very
/// cgroup: that it was read and holds the boost, or that the boost was written
/// to it; and each such answer does report it.
pub proof fn boost_is_reported_only_when_seen(s: State, q: RequestView, e: Event)
    requires
        booster::valid(s),
        can_come(s, e),
        s.boost > 0,
        !(s.task is Idle) ==> booster::outstanding(s) == q,
    ensures
        ({
            let (s2, next) = step(s, e);
            let seen = !(s.task is Idle) && match (q, e) {
                (
                    RequestView::Check { cgroup, bytes },
                    Event::Answer(Reply::Checked(true)),
                ) => s2.boosted == Some(cgroup) && bytes == s.boost,
                (
                    RequestView::Write { cgroup, bytes },
                    Event::Answer(Reply::Written(WriteOutcome::Wrote)),
                ) => s2.boosted == Some(cgroup) && bytes == s.boost,
                _ => false,
            };
            &&& next == (RequestView::Done { boosted: true }) ==> seen && s2.unit == scope::label(
                s2.boosted->0,
            )
            &&& seen && !(s.task is Clearing) ==> next == (RequestView::Done { boosted: true })
        }),
{
}

/// What became of writing the boost to `c`: it is boosted if and only if the
/// write went through; if that took too long, it is remembered for the next
/// clear; else nothing is.
pub open spec fn write_settled(s: State, c: Seq<char>, outcome: WriteOutcome, end: (State,
    RequestView)) -> bool {
    let wrote = outcome == WriteOutcome::Wrote;
    &&& end.1 == RequestView::Done { boosted: wrote }
    &&& end.0.boosted == (if wrote { Some(c) } else { None })
    &&& end.0.unit == (if wrote { scope::label(c) } else { Seq::<char>::empty() })
    &&& end.0.unconfirmed == (if outcome == WriteOutcome::TimedOut { Some(c) } else { None })
    &&& end.0.task is Idle
    &&& end.0.boost == s.boost
    &&& end.0.following == s.following
    &&& end.0.announced == s.announced
}

/// Where the boosted cgroup turns out not to hold the boost, whether the focus
/// stayed on it or it was only looked at, the boost is written to it again, and
/// it counts as boosted only if that write goes through.
pub proof fn reverted_boost_is_applied_again(s: State, c: Seq<char>, outcome: WriteOutcome)
    requires
        booster::valid(s),
        s.task is Idle,
        s.boosted == Some(c),
    ensures
        ({
            let (s1, q1) = booster::focus(s, Some(c));
            let (s2, q2) = booster::resume(s1, Reply::Checked(false));
            &&& q1 == RequestView::Check { cgroup: c, bytes: s.boost }
            &&& q2 == RequestView::Write { cgroup: c, bytes: s.boost }
            &&& write_settled(s, c, outcome, booster::resume(s2, Reply::Written(outcome)))
        }),
        ({
            let (s1, q1) = booster::verify(s);
            let (s2, q2) = booster::resume(s1, Reply::Checked(false));
            &&& q1 == RequestView::Check { cgroup: c, bytes: s.boost }
            &&& q2 == RequestView::Write { cgroup: c, bytes: s.boost }
            &&& write_settled(s, c, outcome, booster::resume(s2, Reply::Written(outcome)))
        }),
{
}

/// A focus where nothing is boosted writes the boost: at once if nothing, or
/// only this very cgroup, waits to be cleared, else after clearing that.
pub proof fn focus_boosts(s: State, c: Seq<char>, off: WriteOutcome, on: WriteOutcome)
    requires
        booster::valid(s),
        s.task is Idle,
        s.boosted is None,
    ensures
        ({
            let (s1, q1) = booster::focus(s, Some(c));
            match s.unconfirmed {
                Some(u) if u != c => {
                    let (s2, q2) = booster::resume(s1, Reply::Written(off));
                    &&& q1 == RequestView::Write { cgroup: u, bytes: 0 }
                    &&& q2 == RequestView::Write { cgroup: c, bytes: s.boost }
                    &&& write_settled(s, c, on, booster::resume(s2, Reply::Written(on)))
                },
                _ => {
                    &&& q1 == RequestView::Write { cgroup: c, bytes: s.boost }
                    &&& write_settled(s, c, on, booster::resume(s1, Reply::Written(on)))
                },
            }
        }),
{
}

/// A focus on nothing is a clear, a clear writes zero to whichever cgroup is
/// boosted or waits to be cleared, and looking at the boost where there is none
/// asks for nothing and changes nothing.
pub proof fn focus_on_nothing_clears(s: State, outcome: WriteOutcome)
    requires
        booster::valid(s),
        s.task is Idle,
    ensures
        booster::focus(s, None) == booster::clear(s, None),
        ({
            let (s1, q1) = booster::clear(s, None);
            let (s2, q2) = booster::resume(s1, Reply::Written(outcome));
            match (s.boosted, s.unconfirmed) {
                (Some(c), _) | (None, Some(c)) => {
                    &&& q1 == RequestView::Write { cgroup: c, bytes: 0 }
                    &&& q2 == RequestView::Done { boosted: false }
                    &&& nothing_boosted(s2)
                },
                (None, None) => q1 == (RequestView::Done { boosted: false }) && nothing_boosted(s1),
            }
        }),
        s.boosted is None ==> booster::verify(s) == (s, RequestView::Done { boosted: false }),
{
}

/// Clients are told of each of the three facts exactly when it differs from
/// what they last heard, and told what it is.
pub proof fn announcements_are_the_changes(s: State, p: booster::Property, v: Seq<char>)
    ensures
        booster::changes(s).contains((p, v)) <==> match p {
            booster::Property::CurrentUnit => v == s.unit && s.unit != s.announced.unit,
            booster::Property::BoostedCgroup => v == (match s.boosted {
                Some(c) => c,
                None => Seq::empty(),
            }) && v != s.announced.cgroup,
            booster::Property::Following => v == s.following && s.following
                != s.announced.following,
        },
{
    let all = booster::changes(s);
    if all.contains((p, v)) {
        let i = choose|i: int| 0 <= i < all.len() && all[i] == (p, v);
        assert(all[i] == (p, v));
    }
    let unit = (booster::Property::CurrentUnit, s.unit);
    let cgroup = (booster::Property::BoostedCgroup, booster::facts(s).cgroup);
    let following = (booster::Property::Following, s.following);
    if s.unit != s.announced.unit {
        assert(all[0] == unit);
    }
    if booster::facts(s).cgroup != s.announced.cgroup {
        assert(all[0] == cgroup || all[1] == cgroup);
    }
    if s.following != s.announced.following {
        assert(all[all.len() - 1] == following);
    }
}

/// No operation touches what is not its own: the followed socket, what clients
/// were told and the size of the boost stay, whatever happens.
pub proof fn operations_keep_to_the_boost(s: State, e: Event)
    ensures
        step(s, e).0.following == s.following,
        step(s, e).0.announced == s.announced,
        step(s, e).0.boost == s.boost,
{
}

/// An answer to another question changes nothing, and the request is made
/// again.
pub proof fn other_answers_change_nothing(s: State, reply: Reply)
    requires
        match reply {
            Reply::Written(_) => !(booster::outstanding(s) is Write),
            Reply::Checked(_) => !(booster::outstanding(s) is Check),
        },
    ensures
        booster::resume(s, reply) == (s, booster::outstanding(s)),
        s.task is Idle ==> booster::outstanding(s) == (RequestView::Done {
            boosted: s.boosted is Some,
        }),
{
}

/// Where one cgroup is boosted and another may be, both are cleared, in that
/// order and however it goes, before the next is boosted.
pub proof fn both_are_cleared(
    s: State,
    a: Seq<char>,
    b: Seq<char>,
    c: Option<Seq<char>>,
    off: WriteOutcome,
    out: WriteOutcome,
)
    requires
        s.boosted == Some(a),
        s.unconfirmed == Some(b),
    ensures
        ({
            let (s1, q1) = booster::clear(s, c);
            let (s2, q2) = booster::resume(s1, Reply::Written(off));
            let (s3, q3) = booster::resume(s2, Reply::Written(out));
            &&& q1 == RequestView::Write { cgroup: a, bytes: 0 }
            &&& q2 == RequestView::Write { cgroup: b, bytes: 0 }
            &&& match c {
                Some(c) => q3 == (RequestView::Write { cgroup: c, bytes: s.boost }) && s3.boosted
                    == Some(c) && s3.unit == scope::label(c) && s3.unconfirmed is None,
                None => q3 == (RequestView::Done { boosted: false }) && nothing_boosted(s3),
            }
        }),
{
}

/// Where a property stands in an announcement.
pub open spec fn rank(p: booster::Property) -> int {
    match p {
        booster::Property::CurrentUnit => 0,
        booster::Property::BoostedCgroup => 1,
        booster::Property::Following => 2,
    }
}

/// Each property is announced at most once at a time, the unit before the
/// cgroup and the cgroup before the socket.
pub proof fn announcements_come_in_order(s: State, i: int, j: int)
    requires
        0 <= i < j < booster::changes(s).len(),
    ensures
        rank(booster::changes(s)[i].0) < rank(booster::changes(s)[j].0),
{
}

/// Clients know each property by its own name.
pub proof fn properties_are_told_apart(p: booster::Property, q: booster::Property)
    ensures
        booster::property_name(p) == booster::property_name(q) <==> p == q,
        booster::property_name(p) == "CurrentUnit"@ <==> p is CurrentUnit,
        booster::property_name(p) == "BoostedCgroup"@ <==> p is BoostedCgroup,
        booster::property_name(p) == "Following"@ <==> p is Following,
{
    reveal_strlit("CurrentUnit");
    reveal_strlit("BoostedCgroup");
    reveal_strlit("Following");
    assert("CurrentUnit"@.len() == 11);
    assert("BoostedCgroup"@.len() == 13);
    assert("Following"@.len() == 9);
}

} // verus!
