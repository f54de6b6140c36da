//! The way from a focused window to the unit to boost, as one conversation:
//! whether its process is live, what that is called, and the search by process
//! or by app id.

use vstd::prelude::*;

use crate::app_search;
use crate::app_search::{AppIdQuery, AppIdReply, AppIdSearch};
use crate::focus;
use crate::focus::Lookup;
use crate::pid_search;
use crate::pid_search::{PidQuery, PidReply, PidSearch};
use crate::scope;
use crate::text;

verus! {

/// What resolving a window needs to know next.
pub enum ResolveQuery {
    /// The body of `/proc/<pid>/cgroup`.
    Cgroup { pid: u32 },
    /// The body of `/proc/<pid>/comm`.
    Comm { pid: u32 },
    /// What the search by process needs.
    Process(PidQuery),
    /// What the search by app id needs.
    AppId(AppIdQuery),
    /// Nothing: the window is resolved.
    Done {
        /// The unit to boost.
        unit: Option<String>,
        /// A unit that was found outside the user's slice.
        foreign: Option<String>,
        /// How many units matched the app id.
        matches: usize,
        /// What the log calls the window.
        source: String,
    },
}

/// The answer to a [`ResolveQuery`].
pub enum ResolveReply {
    /// The body of the file; None if it cannot be read.
    Content(Option<String>),
    Process(PidReply),
    AppId(AppIdReply),
    /// No answer came in time.
    GivenUp,
}

/// A [`ResolveQuery`] with its texts.
pub enum QueryView {
    Cgroup { pid: u32 },
    Comm { pid: u32 },
    Process(pid_search::QueryView),
    AppId(app_search::QueryView),
    Done {
        unit: Option<Seq<char>>,
        foreign: Option<Seq<char>>,
        matches: nat,
        source: Seq<char>,
    },
}

/// A [`ResolveReply`] with its texts.
pub enum ReplyView {
    Content(Option<Seq<char>>),
    Process(pid_search::ReplyView),
    AppId(app_search::ReplyView),
    GivenUp,
}

impl View for ResolveQuery {
    type V = QueryView;

    open spec fn view(&self) -> QueryView {
        match self {
            ResolveQuery::Cgroup { pid } => QueryView::Cgroup { pid: *pid },
            ResolveQuery::Comm { pid } => QueryView::Comm { pid: *pid },
            ResolveQuery::Process(q) => QueryView::Process(q@),
            ResolveQuery::AppId(q) => QueryView::AppId(q@),
            ResolveQuery::Done { unit, foreign, matches, source } => QueryView::Done {
                unit: text::opt(*unit),
                foreign: text::opt(*foreign),
                matches: *matches as nat,
                source: source@,
            },
        }
    }
}

impl View for ResolveReply {
    type V = ReplyView;

    open spec fn view(&self) -> ReplyView {
        match self {
            ResolveReply::Content(c) => ReplyView::Content(text::opt(*c)),
            ResolveReply::Process(r) => ReplyView::Process(r@),
            ResolveReply::AppId(r) => ReplyView::AppId(r@),
            ResolveReply::GivenUp => ReplyView::GivenUp,
        }
    }
}

enum Stage {
    Cgroup { pid: u32 },
    Comm { pid: u32 },
    Process { search: PidSearch },
    AppId { search: AppIdSearch },
    Done { found: Option<String>, matches: usize },
}

/// A window on the way to its unit.
pub struct Resolver {
    user_root: String,
    app_slice: String,
    pid: Option<u32>,
    app_id: String,
    /// The name of its process, once that is known.
    comm: String,
    stage: Stage,
}

/// Where resolving a window stands.
pub enum StageView {
    Cgroup { pid: u32 },
    Comm { pid: u32 },
    Process { search: pid_search::SearchView },
    AppId { search: app_search::SearchView },
    Done { found: Option<Seq<char>>, matches: nat },
}

/// A [`Resolver`] with its texts.
pub struct ResolverView {
    pub user_root: Seq<char>,
    pub app_slice: Seq<char>,
    pub pid: Option<u32>,
    pub app_id: Seq<char>,
    pub comm: Seq<char>,
    pub stage: StageView,
}

impl View for Stage {
    type V = StageView;

    closed spec fn view(&self) -> StageView {
        match self {
            Stage::Cgroup { pid } => StageView::Cgroup { pid: *pid },
            Stage::Comm { pid } => StageView::Comm { pid: *pid },
            Stage::Process { search } => StageView::Process { search: search@ },
            Stage::AppId { search } => StageView::AppId { search: search@ },
            Stage::Done { found, matches } => StageView::Done {
                found: text::opt(*found),
                matches: *matches as nat,
            },
        }
    }
}

impl View for Resolver {
    type V = ResolverView;

    closed spec fn view(&self) -> ResolverView {
        ResolverView {
            user_root: self.user_root@,
            app_slice: self.app_slice@,
            pid: self.pid,
            app_id: self.app_id@,
            comm: self.comm@,
            stage: self.stage@,
        }
    }
}

/// What holds of every state: the searches are in one that they can be in.
pub open spec fn valid(s: ResolverView) -> bool {
    match s.stage {
        StageView::Process { search } => pid_search::valid(search),
        StageView::AppId { search } => app_search::valid(search),
        _ => true,
    }
}

/// The search by app id, where there is one.
pub open spec fn by_app_id(s: ResolverView) -> StageView {
    if s.app_id.len() > 0 {
        StageView::AppId { search: app_search::start(s.app_slice, s.app_id) }
    } else {
        StageView::Done { found: None, matches: 0 }
    }
}

/// A window at the start of its way.
pub open spec fn start(
    user_root: Seq<char>,
    app_slice: Seq<char>,
    pid: Option<u32>,
    app_id: Seq<char>,
) -> ResolverView {
    let s = ResolverView {
        user_root,
        app_slice,
        pid,
        app_id,
        comm: Seq::empty(),
        stage: StageView::Done { found: None, matches: 0 },
    };
    ResolverView {
        stage: match pid {
            Some(p) => StageView::Cgroup { pid: p },
            None => by_app_id(s),
        },
        ..s
    }
}

/// The unit that was found is outside the user's slice.
pub open spec fn outside(found: Option<Seq<char>>, user_root: Seq<char>) -> Option<Seq<char>> {
    match found {
        Some(c) => if scope::lies_in(c, user_root) {
            None
        } else {
            Some(c)
        },
        None => None,
    }
}

/// What has to be known next.
pub open spec fn query(s: ResolverView) -> QueryView {
    match s.stage {
        StageView::Cgroup { pid } => QueryView::Cgroup { pid },
        StageView::Comm { pid } => QueryView::Comm { pid },
        StageView::Process { search } => QueryView::Process(search.query),
        StageView::AppId { search } => QueryView::AppId(app_search::query(search)),
        StageView::Done { found, matches } => QueryView::Done {
            unit: focus::owned(found, s.user_root),
            foreign: outside(found, s.user_root),
            matches,
            source: focus::source_text(s.pid, s.comm, s.app_id),
        },
    }
}

/// What the answer `reply` leads to. An answer of the wrong kind leaves
/// everything as it is.
pub open spec fn answered(s: ResolverView, reply: ReplyView) -> ResolverView {
    match (s.stage, reply) {
        (StageView::Done { .. }, _) => s,
        (_, ReplyView::GivenUp) => ResolverView {
            comm: Seq::empty(),
            stage: StageView::Done { found: None, matches: 0 },
            ..s
        },
        (StageView::Cgroup { pid }, ReplyView::Content(content)) => ResolverView {
            stage: match focus::lookup(Some(pid), content, s.app_id) {
                Lookup::Pid(p) => StageView::Comm { pid: p },
                Lookup::AppId => by_app_id(s),
                Lookup::Nothing => StageView::Done { found: None, matches: 0 },
            },
            ..s
        },
        (StageView::Comm { pid }, ReplyView::Content(content)) => ResolverView {
            comm: focus::comm_name(content),
            stage: StageView::Process {
                search: pid_search::start(pid, focus::SEARCH_DEPTH as nat),
            },
            ..s
        },
        (StageView::Process { search }, ReplyView::Process(r)) => {
            let next = pid_search::answered(search, r);
            ResolverView {
                stage: match next.query {
                    pid_search::QueryView::Done { unit } => StageView::Done {
                        found: unit,
                        matches: 0,
                    },
                    _ => StageView::Process { search: next },
                },
                ..s
            }
        },
        (StageView::AppId { search }, ReplyView::AppId(r)) => {
            let next = app_search::answered(search, r);
            ResolverView {
                stage: match app_search::query(next) {
                    app_search::QueryView::Done { unit, matches } => StageView::Done {
                        found: unit,
                        matches,
                    },
                    _ => StageView::AppId { search: next },
                },
                ..s
            }
        },
        _ => s,
    }
}

/// Start resolving a window for the user whose slices these are.
pub fn apply_focus(user_root: &str, app_slice: &str, pid: Option<u32>, app_id: &str) -> (r:
    Resolver)
    ensures
        r.wf(),
        r@ == start(user_root@, app_slice@, pid, app_id@),
{
    let stage = match pid {
        Some(p) => Stage::Cgroup { pid: p },
        None => search_by_app_id(app_slice, app_id),
    };
    let comm = String::new();
    proof { assert(comm@ == Seq::<char>::empty()); }
    Resolver {
        user_root: user_root.to_string(),
        app_slice: app_slice.to_string(),
        pid,
        app_id: app_id.to_string(),
        comm,
        stage,
    }
}

fn search_by_app_id(app_slice: &str, app_id: &str) -> (r: Stage)
    ensures
        r@ == (if app_id@.len() > 0 {
            StageView::AppId { search: app_search::start(app_slice@, app_id@) }
        } else {
            StageView::Done { found: None, matches: 0 }
        }),
        r matches Stage::AppId { search } ==> search.wf(),
{
    if app_id.is_empty() {
        Stage::Done { found: None, matches: 0 }
    } else {
        Stage::AppId { search: app_search::find_app_scope_for_app_id(app_slice, app_id) }
    }
}

impl Resolver {
    /// The state is one that resolving a window can be in.
    pub open spec fn wf(&self) -> bool {
        valid(self@)
    }

    /// What has to be known next, or the unit to boost.
    pub fn next(&self) -> (r: ResolveQuery)
        requires
            self.wf(),
        ensures
            r@ == query(self@),
    {
        match &self.stage {
            Stage::Cgroup { pid } => ResolveQuery::Cgroup { pid: *pid },
            Stage::Comm { pid } => ResolveQuery::Comm { pid: *pid },
            Stage::Process { search } => ResolveQuery::Process(search.next()),
            Stage::AppId { search } => ResolveQuery::AppId(search.next()),
            Stage::Done { found, matches } => {
                let unit = focus::own_unit(found.clone(), self.user_root.as_str());
                let foreign = if unit.is_some() {
                    None
                } else {
                    found.clone()
                };
                ResolveQuery::Done {
                    unit,
                    foreign,
                    matches: *matches,
                    source: focus::source(self.pid, self.comm.as_str(), self.app_id.as_str()),
                }
            },
        }
    }

    /// Go on with the answer to the last query.
    pub fn answer(&mut self, reply: ResolveReply)
        requires
            old(self).wf(),
        ensures
            final(self).wf(),
            final(self)@ == answered(old(self)@, reply@),
    {
        let mut stage = Stage::Done { found: None, matches: 0 };
        core::mem::swap(&mut stage, &mut self.stage);
        match (stage, reply) {
            (Stage::Done { found, matches }, _) => {
                self.stage = Stage::Done { found, matches };
            },
            (_, ResolveReply::GivenUp) => {
                self.comm = String::new();
                proof { assert(self@.comm == Seq::<char>::empty()); }
            },
            (Stage::Cgroup { pid }, ResolveReply::Content(content)) => {
                self.stage = match focus::plan_focus(Some(pid), content, self.app_id.as_str()) {
                    Lookup::Pid(p) => Stage::Comm { pid: p },
                    Lookup::AppId => search_by_app_id(
                        self.app_slice.as_str(),
                        self.app_id.as_str(),
                    ),
                    Lookup::Nothing => Stage::Done { found: None, matches: 0 },
                };
            },
            (Stage::Comm { pid }, ResolveReply::Content(content)) => {
                self.comm = focus::pid_comm(content);
                self.stage = Stage::Process {
                    search: pid_search::find_app_scope_for_pid(pid, focus::SEARCH_DEPTH),
                };
            },
            (Stage::Process { mut search }, ResolveReply::Process(r)) => {
                search.answer(r);
                self.stage = match search.next() {
                    PidQuery::Done { unit } => Stage::Done { found: unit, matches: 0 },
                    _ => Stage::Process { search },
                };
            },
            (Stage::AppId { mut search }, ResolveReply::AppId(r)) => {
                search.answer(r);
                self.stage = match search.next() {
                    AppIdQuery::Done { unit, matches } => Stage::Done { found: unit, matches },
                    _ => Stage::AppId { search },
                };
            },
            (stage, _) => {
                self.stage = stage;
            },
        }
    }
}

/// Whatever was found, the unit to boost lies in the user's own slice.
pub proof fn resolved_unit_is_the_users(s: ResolverView)
    ensures
        query(s) matches QueryView::Done { unit, foreign, matches, source } ==> (unit matches Some(
            u,
        ) ==> scope::lies_in(u, s.user_root) && foreign is None),
{
}

/// A live process decides alone: neither what it is called nor the app id of
/// the window plays a part in which unit is found, and the app id is never
/// searched by.
pub proof fn live_process_decides(s: ResolverView, pid: u32, cgroup: Seq<char>, comm: Option<
    Seq<char>,
>)
    requires
        s.stage == (StageView::Cgroup { pid }),
        scope::unified(cgroup) is Some,
    ensures
        answered(answered(s, ReplyView::Content(Some(cgroup))), ReplyView::Content(comm)).stage
            == (StageView::Process {
            search: pid_search::start(pid, focus::SEARCH_DEPTH as nat),
        }),
{
}

/// The search by process never turns into one by app id.
pub proof fn process_search_is_final(s: ResolverView, reply: ReplyView)
    requires
        s.stage is Process,
    ensures
        answered(s, reply).stage is Process || answered(s, reply).stage is Done,
{
}

} // verus!
