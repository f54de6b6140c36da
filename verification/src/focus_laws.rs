//! How a window comes to its unit, from beginning to end.

use vstd::prelude::*;

use crate::app_search;
use crate::display;
use crate::focus;
use crate::focus::Lookup;
use crate::pid_search;
use crate::resolve;
use crate::resolve::{QueryView, ReplyView, ResolverView, StageView};
use crate::scope;
use crate::text;
use crate::text_laws;

verus! {

/// How a window is resolved: by its process, if it has one whose cgroup file
/// names a place; else by its app id, if it has that; else not at all.
pub proof fn windows_are_resolved_by_what_they_have(
    pid: u32,
    cgroup: Seq<char>,
    any: Option<Seq<char>>,
    app_id: Seq<char>,
)
    ensures
        scope::unified(cgroup) is Some ==> focus::lookup(Some(pid), Some(cgroup), app_id)
            == Lookup::Pid(pid),
        scope::unified(cgroup) is None && app_id.len() > 0 ==> focus::lookup(
            Some(pid),
            Some(cgroup),
            app_id,
        ) is AppId,
        app_id.len() > 0 ==> focus::lookup(Some(pid), None, app_id) is AppId && focus::lookup(
            None,
            any,
            app_id,
        ) is AppId,
        scope::unified(cgroup) is None ==> focus::lookup(Some(pid), Some(cgroup), Seq::empty())
            is Nothing,
        focus::lookup(Some(pid), None, Seq::empty()) is Nothing,
        focus::lookup(None, any, Seq::empty()) is Nothing,
        focus::SEARCH_DEPTH == 3,
        focus::LOOKUP_BUDGET == 800,
        focus::HANDOFF_BUDGET == 200,
{
}

/// A unit is boosted if and only if it lies in the user's slice; one that does
/// not is told of instead.
pub proof fn units_of_others_are_told_of(unit: Seq<char>, root: Seq<char>)
    ensures
        scope::lies_in(unit, root) ==> focus::owned(Some(unit), root) == Some(unit)
            && resolve::outside(Some(unit), root) is None,
        !scope::lies_in(unit, root) ==> focus::owned(Some(unit), root) is None && resolve::outside(
            Some(unit),
            root,
        ) == Some(unit),
        focus::owned(None, root) is None,
        resolve::outside(None, root) is None,
{
}

/// A pid is read whatever white space is around it; zero, a number that does
/// not fit and what is no number are none.
pub proof fn pids_are_read(before: Seq<char>, pid: u32, after: Seq<char>, raw: Seq<char>)
    requires
        text_laws::blank(before),
        text_laws::blank(after),
    ensures
        pid > 0 ==> focus::written_pid(before + text::decimal(pid as nat) + after) == Some(pid),
        focus::written_pid(before + text::decimal(0) + after) is None,
        text::number(text::trim(raw), 0xffff_ffff) is None ==> focus::written_pid(raw) is None,
{
    text::lemma_decimal_value(pid as nat);
    text::lemma_decimal_value(0);
    text::lemma_decimal_number(pid as nat, u32::MAX as nat);
    text::lemma_decimal_number(0, u32::MAX as nat);
    let d = text::decimal(pid as nat);
    let z = text::decimal(0);
    assert(!text::is_white(d[0]) && !text::is_white(d[d.len() - 1]));
    assert(!text::is_white(z[0]) && !text::is_white(z[z.len() - 1]));
    text_laws::trimming_takes_off_blanks(before, d, after);
    text_laws::trimming_takes_off_blanks(before, z, after);
}

/// What the log calls a process is what its file says, less the white space
/// around it; and nothing, where it cannot be read.
pub proof fn processes_are_called_so(before: Seq<char>, name: Seq<char>, after: Seq<char>)
    requires
        text_laws::blank(before),
        text_laws::blank(after),
        name.len() > 0,
        !text::is_white(name[0]),
        !text::is_white(name.last()),
    ensures
        focus::comm_name(Some(before + name + after)) == name,
        focus::comm_name(None).len() == 0,
{
    text_laws::trimming_takes_off_blanks(before, name, after);
}

/// Where the resolving of a window begins: at the file of its process, or at
/// its app id, or it is over at once.
pub proof fn resolving_begins(
    root: Seq<char>,
    slice: Seq<char>,
    pid: u32,
    app_id: Seq<char>,
)
    ensures
        resolve::query(resolve::start(root, slice, Some(pid), app_id)) == (QueryView::Cgroup {
            pid,
        }),
        app_id.len() > 0 ==> resolve::start(root, slice, None, app_id).stage == (StageView::AppId {
            search: app_search::start(slice, app_id),
        }),
        resolve::query(resolve::start(root, slice, None, Seq::empty())) == (QueryView::Done {
            unit: None,
            foreign: None,
            matches: 0,
            source: "app_id="@ + display::logged(Seq::empty()),
        }),
        ({
            let s = resolve::start(root, slice, Some(pid), app_id);
            s.user_root == root && s.app_slice == slice && s.pid == Some(pid) && s.app_id == app_id
                && s.comm.len() == 0
        }),
        ({
            let s = resolve::start(root, slice, None, app_id);
            s.user_root == root && s.app_slice == slice && s.pid is None && s.app_id == app_id
                && s.comm.len() == 0
        }),
{
}

/// A live process is asked for its name, and then searched from, three
/// generations down. One that is gone leaves the app id to search by, or
/// nothing.
pub proof fn processes_come_before_app_ids(
    s: ResolverView,
    pid: u32,
    cgroup: Option<Seq<char>>,
    comm: Option<Seq<char>>,
)
    requires
        s.stage == (StageView::Cgroup { pid }),
    ensures
        ({
            let next = resolve::answered(s, ReplyView::Content(cgroup));
            let live = cgroup is Some && scope::unified(cgroup->0) is Some;
            let named = resolve::answered(next, ReplyView::Content(comm));
            &&& live ==> next == ResolverView { stage: StageView::Comm { pid }, ..s }
            &&& live ==> resolve::query(next) == (QueryView::Comm { pid })
            &&& live ==> named == ResolverView {
                comm: match comm {
                    Some(c) => text::trim(c),
                    None => Seq::empty(),
                },
                stage: StageView::Process { search: pid_search::start(pid, 3) },
                ..s
            }
            &&& !live && s.app_id.len() > 0 ==> next == ResolverView {
                stage: StageView::AppId { search: app_search::start(s.app_slice, s.app_id) },
                ..s
            }
            &&& !live && s.app_id.len() == 0 ==> next == ResolverView {
                stage: StageView::Done { found: None, matches: 0 },
                ..s
            }
        }),
{
}

/// A search hands its queries out and its answers in, and what it finds is the
/// outcome. Until then the window stays what it is.
pub proof fn searches_find_the_unit(
    s: ResolverView,
    p: pid_search::ReplyView,
    a: app_search::ReplyView,
)
    ensures
        s.stage is Process ==> {
            let search = s.stage->Process_search;
            let next = pid_search::answered(search, p);
            let after = resolve::answered(s, ReplyView::Process(p));
            &&& resolve::query(s) == QueryView::Process(search.query)
            &&& !(next.query is Done) ==> after == ResolverView {
                stage: StageView::Process { search: next },
                ..s
            }
            &&& next.query is Done ==> after == ResolverView {
                stage: StageView::Done { found: next.query->Done_unit, matches: 0 },
                ..s
            }
        },
        s.stage is AppId ==> {
            let search = s.stage->AppId_search;
            let next = app_search::answered(search, a);
            let after = resolve::answered(s, ReplyView::AppId(a));
            &&& resolve::query(s) == QueryView::AppId(app_search::query(search))
            &&& !(app_search::query(next) is Done) ==> after == ResolverView {
                stage: StageView::AppId { search: next },
                ..s
            }
            &&& app_search::query(next) is Done ==> after == ResolverView {
                stage: StageView::Done {
                    found: app_search::query(next)->unit,
                    matches: app_search::query(next)->matches,
                },
                ..s
            }
        },
{
}

/// What was found is reported: as the unit to boost where it lies in the user's
/// slice, and else as a foreign one. The log names the window by its process,
/// if it has one, and its app id.
pub proof fn outcomes_are_reported(
    s: ResolverView,
    found: Seq<char>,
    matches: nat,
    reply: ReplyView,
)
    requires
        s.stage == (StageView::Done { found: Some(found), matches }),
    ensures
        resolve::query(s) == (QueryView::Done {
            unit: if scope::lies_in(found, s.user_root) {
                Some(found)
            } else {
                None
            },
            foreign: if scope::lies_in(found, s.user_root) {
                None
            } else {
                Some(found)
            },
            matches,
            source: match s.pid {
                Some(p) => "pid="@ + text::decimal(p as nat) + " ("@ + display::logged(s.comm)
                    + ") app_id="@ + display::logged(s.app_id),
                None => "app_id="@ + display::logged(s.app_id),
            },
        }),
        resolve::answered(s, reply) == s,
{
}

/// Where no answer comes in time, nothing is found, and nothing is said of the
/// process; what is over stays as it is.
pub proof fn giving_up_finds_nothing(s: ResolverView)
    ensures
        !(s.stage is Done) ==> resolve::query(resolve::answered(s, ReplyView::GivenUp)) == (
        QueryView::Done {
            unit: None,
            foreign: None,
            matches: 0,
            source: focus::source_text(s.pid, Seq::empty(), s.app_id),
        }),
        s.stage is Done ==> resolve::answered(s, ReplyView::GivenUp) == s,
{
}

/// An answer to another question changes nothing.
pub proof fn other_answers_change_nothing(s: ResolverView, reply: ReplyView)
    requires
        !(reply is GivenUp),
        s.stage is Cgroup || s.stage is Comm ==> !(reply is Content),
        s.stage is Process ==> !(reply is Process),
        s.stage is AppId ==> !(reply is AppId),
    ensures
        resolve::answered(s, reply) == s,
{
}

} // verus!
