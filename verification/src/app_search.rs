//! From a Wayland `app_id` to a unit under `app.slice`: for a game by the game
//! id in the processes' environment first, then by unit name, then by the
//! processes' command names.
//!
//! The game id comes before the name because the window of a game shares the
//! token `steam` with the unit of the Steam client. Like the search for the
//! unit of a process, this one reads one thing at a time:
//! [`AppIdSearch::next`] names it and [`AppIdSearch::answer`] takes it.

use vstd::prelude::*;

use crate::matcher;
use crate::text;
use crate::tree;
use crate::tree::{Entry, EntryView, Place};
use crate::units;
use crate::units::{UnitWalk, WalkView};

verus! {

/// How many processes of a unit have their environment read.
pub const MAX_ENVIRONS: usize = 256;

/// How many processes of a unit have their command name read.
pub const MAX_COMMS: usize = 64;

/// What the processes of the units are looked at for.
#[derive(Clone, Copy, Debug, PartialEq, Eq, Structural)]
pub enum Look {
    /// The game id in their environment.
    Environ,
    /// Their command name.
    Comm,
}

/// What a search needs to know next.
pub enum AppIdQuery {
    /// What the directory `place` below `app.slice` holds.
    List { place: Place },
    /// The body of `cgroup.procs` of the unit `place` below `app.slice`.
    Procs { place: Place },
    /// The bytes of `/proc/<pid>/environ`.
    Environ { pid: String },
    /// The body of `/proc/<pid>/comm`.
    Comm { pid: String },
    /// Nothing: this is the unit, if there is one, and how many matched.
    Done { unit: Option<String>, matches: usize },
}

/// The answer to an [`AppIdQuery`]. What cannot be read is None.
pub enum AppIdReply {
    /// The time is up.
    Expired,
    List(Option<Vec<Entry>>),
    Procs(Option<String>),
    Environ(Option<Vec<u8>>),
    Comm(Option<String>),
}

/// An [`AppIdQuery`] with its texts.
pub enum QueryView {
    List { place: Seq<Seq<u8>> },
    Procs { place: Seq<Seq<u8>> },
    Environ { pid: Seq<char> },
    Comm { pid: Seq<char> },
    Done { unit: Option<Seq<char>>, matches: nat },
}

/// An [`AppIdReply`] with its texts.
pub enum ReplyView {
    Expired,
    List(Option<Seq<EntryView>>),
    Procs(Option<Seq<char>>),
    Environ(Option<Seq<u8>>),
    Comm(Option<Seq<char>>),
}

impl View for AppIdQuery {
    type V = QueryView;

    open spec fn view(&self) -> QueryView {
        match self {
            AppIdQuery::List { place } => QueryView::List { place: place@ },
            AppIdQuery::Procs { place } => QueryView::Procs { place: place@ },
            AppIdQuery::Environ { pid } => QueryView::Environ { pid: pid@ },
            AppIdQuery::Comm { pid } => QueryView::Comm { pid: pid@ },
            AppIdQuery::Done { unit, matches } => QueryView::Done {
                unit: text::opt(*unit),
                matches: *matches as nat,
            },
        }
    }
}

impl View for AppIdReply {
    type V = ReplyView;

    open spec fn view(&self) -> ReplyView {
        match self {
            AppIdReply::Expired => ReplyView::Expired,
            AppIdReply::List(es) => ReplyView::List(tree::listing(*es)),
            AppIdReply::Procs(c) => ReplyView::Procs(text::opt(*c)),
            AppIdReply::Environ(b) => ReplyView::Environ(
                match b {
                    Some(b) => Some(b@),
                    None => None,
                },
            ),
            AppIdReply::Comm(c) => ReplyView::Comm(text::opt(*c)),
        }
    }
}

enum Stage {
    Walk { walk: UnitWalk },
    Procs { look: Look, i: usize },
    Process { look: Look, i: usize, pids: Vec<Vec<char>>, k: usize },
    Done,
}

/// A search for the unit of a window by its app id.
pub struct AppIdSearch {
    app_slice: String,
    app_id: String,
    /// The units, once the walk is over.
    units: Vec<Place>,
    /// Those that match.
    hits: Vec<Place>,
    stage: Stage,
}

/// Where a search stands.
pub enum StageView {
    /// The units are being listed.
    Walk { walk: WalkView },
    /// The processes of the `i`th unit are to be listed.
    Procs { look: Look, i: int },
    /// The `k`th of the processes `pids` of the `i`th unit is to be looked at.
    Process { look: Look, i: int, pids: Seq<Seq<char>>, k: int },
    Done,
}

/// An [`AppIdSearch`] with its texts and places.
pub struct SearchView {
    pub app_slice: Seq<char>,
    pub app_id: Seq<char>,
    pub units: Seq<Seq<Seq<u8>>>,
    pub hits: Seq<Seq<Seq<u8>>>,
    pub stage: StageView,
}

impl View for Stage {
    type V = StageView;

    closed spec fn view(&self) -> StageView {
        match self {
            Stage::Walk { walk } => StageView::Walk { walk: walk@ },
            Stage::Procs { look, i } => StageView::Procs { look: *look, i: *i as int },
            Stage::Process { look, i, pids, k } => StageView::Process {
                look: *look,
                i: *i as int,
                pids: text::views(pids@),
                k: *k as int,
            },
            Stage::Done => StageView::Done,
        }
    }
}

impl View for AppIdSearch {
    type V = SearchView;

    closed spec fn view(&self) -> SearchView {
        SearchView {
            app_slice: self.app_slice@,
            app_id: self.app_id@,
            units: tree::places(self.units@),
            hits: tree::places(self.hits@),
            stage: self.stage@,
        }
    }
}

/// What holds of every state of a search.
pub open spec fn valid(s: SearchView) -> bool {
    match s.stage {
        StageView::Walk { walk } => walk.pending.len() > 0 && s.units.len() == 0 && s.hits.len()
            == 0,
        StageView::Procs { look, i } => 0 <= i < s.units.len() && s.hits.len() <= i && (look
            is Environ ==> matcher::game_id(s.app_id) is Some),
        StageView::Process { look, i, pids, k } => 0 <= i < s.units.len() && s.hits.len() <= i && 0
            <= k < pids.len() && (look is Environ ==> matcher::game_id(s.app_id) is Some),
        StageView::Done => s.hits.len() <= s.units.len(),
    }
}

/// What has to be known next.
pub open spec fn query(s: SearchView) -> QueryView {
    match s.stage {
        StageView::Walk { walk } => QueryView::List { place: walk.pending.last() },
        StageView::Procs { look, i } => QueryView::Procs { place: s.units[i] },
        StageView::Process { look, i, pids, k } => match look {
            Look::Environ => QueryView::Environ { pid: pids[k] },
            Look::Comm => QueryView::Comm { pid: pids[k] },
        },
        StageView::Done => QueryView::Done {
            unit: if s.hits.len() == 0 {
                None
            } else {
                Some(tree::path_text(s.app_slice, s.hits[0]))
            },
            matches: s.hits.len(),
        },
    }
}

/// How many processes of a unit are looked at.
pub open spec fn limit(look: Look) -> nat {
    match look {
        Look::Environ => MAX_ENVIRONS as nat,
        Look::Comm => MAX_COMMS as nat,
    }
}

/// The processes that are looked at, of those that a `cgroup.procs` file lists.
pub open spec fn listed_pids(look: Look, content: Seq<char>) -> Seq<Seq<char>> {
    let all = text::lines(content);
    if all.len() > limit(look) {
        all.take(limit(look) as int)
    } else {
        all
    }
}

/// The name of the unit `p` identifies `app_id`.
pub open spec fn named_after(p: Seq<Seq<u8>>, app_id: Seq<char>) -> bool {
    matcher::name_identifies(matcher::plain_name(tree::label_text(p)), app_id)
}

/// Those of the units whose name identifies `app_id`.
pub open spec fn by_name(units: Seq<Seq<Seq<u8>>>, app_id: Seq<char>) -> Seq<Seq<Seq<u8>>> {
    units.filter(|p: Seq<Seq<u8>>| named_after(p, app_id))
}

/// Begin looking at the processes of the units.
pub open spec fn begin(s: SearchView, look: Look) -> SearchView {
    SearchView {
        stage: if s.units.len() > 0 {
            StageView::Procs { look, i: 0 }
        } else {
            StageView::Done
        },
        ..s
    }
}

/// Match by name, and failing that by command name.
pub open spec fn match_names(s: SearchView) -> SearchView {
    let named = by_name(s.units, s.app_id);
    if named.len() > 0 {
        SearchView { hits: named, stage: StageView::Done, ..s }
    } else {
        begin(s, Look::Comm)
    }
}

/// Go on with the unit after the `i`th, or with what comes after the last.
pub open spec fn next_unit(s: SearchView, look: Look, i: int) -> SearchView {
    if i + 1 < s.units.len() {
        SearchView { stage: StageView::Procs { look, i: i + 1 }, ..s }
    } else if s.hits.len() > 0 || look is Comm {
        SearchView { stage: StageView::Done, ..s }
    } else {
        match_names(s)
    }
}

/// Go on with the `k`th process of the `i`th unit, or with the next unit.
pub open spec fn at_process(
    s: SearchView,
    look: Look,
    i: int,
    pids: Seq<Seq<char>>,
    k: int,
) -> SearchView {
    if k < pids.len() {
        SearchView { stage: StageView::Process { look, i, pids, k }, ..s }
    } else {
        next_unit(s, look, i)
    }
}

/// The process that was looked at identifies the app, or not.
pub open spec fn looked(
    s: SearchView,
    look: Look,
    i: int,
    pids: Seq<Seq<char>>,
    k: int,
    hit: bool,
) -> SearchView {
    if hit {
        next_unit(SearchView { hits: s.hits.push(s.units[i]), ..s }, look, i)
    } else {
        at_process(s, look, i, pids, k + 1)
    }
}

/// What the units that the walk found lead to.
pub open spec fn with_units(s: SearchView, found: Seq<Seq<Seq<u8>>>) -> SearchView {
    let s = SearchView { units: units::ordered(found), ..s };
    if matcher::game_id(s.app_id) is Some {
        begin(s, Look::Environ)
    } else {
        match_names(s)
    }
}

/// An environment carries the game id of `app_id`.
pub open spec fn environ_hit(environ: Option<Seq<u8>>, app_id: Seq<char>) -> bool {
    match (environ, matcher::game_id(app_id)) {
        (Some(b), Some(id)) => matcher::names_game(b, id),
        _ => false,
    }
}

/// A command name identifies `app_id`.
pub open spec fn comm_hit(comm: Option<Seq<char>>, app_id: Seq<char>) -> bool {
    match comm {
        Some(c) => matcher::command_identifies(c, app_id),
        None => false,
    }
}

/// The search at its start.
pub open spec fn start(app_slice: Seq<char>, app_id: Seq<char>) -> SearchView {
    SearchView {
        app_slice,
        app_id,
        units: Seq::empty(),
        hits: Seq::empty(),
        stage: StageView::Walk { walk: units::walk_start() },
    }
}

/// What the answer `reply` leads to. An answer of the wrong kind leaves the
/// search as it is; once the time is up nothing is found.
pub open spec fn answered(s: SearchView, reply: ReplyView) -> SearchView {
    match (s.stage, reply) {
        (StageView::Done, _) => s,
        (_, ReplyView::Expired) => SearchView {
            hits: Seq::empty(),
            stage: StageView::Done,
            ..s
        },
        (StageView::Walk { walk }, ReplyView::List(es)) => {
            let next = units::walk_on(walk, es);
            if next.pending.len() > 0 {
                SearchView { stage: StageView::Walk { walk: next }, ..s }
            } else {
                with_units(s, next.found)
            }
        },
        (StageView::Procs { look, i }, ReplyView::Procs(content)) => match content {
            Some(c) => at_process(s, look, i, listed_pids(look, c), 0),
            None => next_unit(s, look, i),
        },
        (StageView::Process { look: Look::Environ, i, pids, k }, ReplyView::Environ(b)) => looked(
            s,
            Look::Environ,
            i,
            pids,
            k,
            environ_hit(b, s.app_id),
        ),
        (StageView::Process { look: Look::Comm, i, pids, k }, ReplyView::Comm(c)) => looked(
            s,
            Look::Comm,
            i,
            pids,
            k,
            comm_hit(c, s.app_id),
        ),
        _ => s,
    }
}

/// Every answer leads from one state of a search to another.
pub proof fn answers_keep_it_valid(s: SearchView, reply: ReplyView)
    requires
        valid(s),
    ensures
        valid(answered(s, reply)),
{
    if let StageView::Walk { walk } = s.stage {
        if let ReplyView::List(es) = reply {
            let found = units::walk_on(walk, es).found;
            units::ordered(found).lemma_filter_len(
                |p: Seq<Seq<u8>>| named_after(p, s.app_id),
            );
        }
    } else {
        s.units.lemma_filter_len(|p: Seq<Seq<u8>>| named_after(p, s.app_id));
    }
}

/// The units in `v` whose name identifies `app_id`.
fn named_units(v: &Vec<Place>, app_id: &str) -> (r: Vec<Place>)
    ensures
        tree::places(r@) == by_name(tree::places(v@), app_id@),
{
    let ghost all = tree::places(v@);
    let ghost f = |p: Seq<Seq<u8>>| named_after(p, app_id@);
    let mut r: Vec<Place> = Vec::new();
    let mut i: usize = 0;
    proof { assert(tree::places(r@) == all.take(0).filter(f)); }
    while i < v.len()
        invariant
            i <= v.len(),
            all == tree::places(v@),
            f == |p: Seq<Seq<u8>>| named_after(p, app_id@),
            tree::places(r@) == all.take(i as int).filter(f),
        decreases v.len() - i,
    {
        let ghost before = r@;
        proof {
            reveal(Seq::filter);
            assert(all.take(i + 1).drop_last() == all.take(i as int));
            assert(all.take(i + 1).last() == v@[i as int]@);
        }
        if matcher::unit_matches_app_id(v[i].label().as_str(), app_id) {
            let p = v[i].copy();
            r.push(p);
            proof { assert(tree::places(r@) == tree::places(before).push(p@)); }
        }
        i += 1;
    }
    proof { assert(all.take(i as int) == all); }
    r
}

/// The processes that are looked at.
fn pids_of(look: Look, content: &str) -> (r: Vec<Vec<char>>)
    ensures
        text::views(r@) == listed_pids(look, content@),
{
    let mut r = text::lines_of(text::chars_of(content).as_slice());
    let n: usize = match look {
        Look::Environ => MAX_ENVIRONS,
        Look::Comm => MAX_COMMS,
    };
    let ghost all = text::views(r@);
    if r.len() > n {
        r.truncate(n);
        proof { assert(text::views(r@) == all.take(n as int)); }
    }
    r
}

/// Start looking for the unit below `app_slice` that a Wayland `app_id`
/// belongs to.
pub fn find_app_scope_for_app_id(app_slice: &str, app_id: &str) -> (r: AppIdSearch)
    ensures
        r.wf(),
        r@ == start(app_slice@, app_id@),
{
    let r = AppIdSearch {
        app_slice: app_slice.to_string(),
        app_id: app_id.to_string(),
        units: Vec::new(),
        hits: Vec::new(),
        stage: Stage::Walk { walk: units::app_slice_units() },
    };
    proof {
        assert(r@.units == Seq::<Seq<Seq<u8>>>::empty());
        assert(r@.hits == Seq::<Seq<Seq<u8>>>::empty());
    }
    r
}

impl AppIdSearch {
    /// The state is one that a search can be in.
    pub open spec fn wf(&self) -> bool {
        valid(self@)
    }

    /// What has to be known next, or the unit that was found.
    pub fn next(&self) -> (r: AppIdQuery)
        requires
            self.wf(),
        ensures
            r@ == query(self@),
    {
        match &self.stage {
            Stage::Walk { walk } => match walk.next() {
                Some(place) => AppIdQuery::List { place },
                None => AppIdQuery::Done { unit: None, matches: 0 },
            },
            Stage::Procs { look, i } => AppIdQuery::Procs { place: self.units[*i].copy() },
            Stage::Process { look, i, pids, k } => {
                let pid = text::string_of(pids[*k].as_slice());
                match look {
                    Look::Environ => AppIdQuery::Environ { pid },
                    Look::Comm => AppIdQuery::Comm { pid },
                }
            },
            Stage::Done => {
                let unit = if self.hits.len() == 0 {
                    None
                } else {
                    Some(self.hits[0].path_below(self.app_slice.as_str()))
                };
                AppIdQuery::Done { unit, matches: self.hits.len() }
            },
        }
    }

    fn begin(&mut self, look: Look)
        ensures
            final(self)@ == begin(old(self)@, look),
    {
        if self.units.len() > 0 {
            self.stage = Stage::Procs { look, i: 0 };
        } else {
            self.stage = Stage::Done;
        }
    }

    fn match_names(&mut self)
        ensures
            final(self)@ == match_names(old(self)@),
    {
        let named = named_units(&self.units, self.app_id.as_str());
        if named.len() > 0 {
            self.hits = named;
            self.stage = Stage::Done;
        } else {
            self.begin(Look::Comm);
        }
    }

    fn next_unit(&mut self, look: Look, i: usize)
        requires
            i < old(self)@.units.len(),
        ensures
            final(self)@ == next_unit(old(self)@, look, i as int),
    {
        let n: usize = self.units.len();
        if i + 1 < n {
            self.stage = Stage::Procs { look, i: i + 1 };
        } else if self.hits.len() > 0 || look == Look::Comm {
            self.stage = Stage::Done;
        } else {
            self.match_names();
        }
    }

    fn at_process(&mut self, look: Look, i: usize, pids: Vec<Vec<char>>, k: usize)
        requires
            i < old(self)@.units.len(),
        ensures
            final(self)@ == at_process(
                old(self)@,
                look,
                i as int,
                text::views(pids@),
                k as int,
            ),
    {
        if k < pids.len() {
            self.stage = Stage::Process { look, i, pids, k };
        } else {
            self.next_unit(look, i);
        }
    }

    fn looked(&mut self, look: Look, i: usize, pids: Vec<Vec<char>>, k: usize, hit: bool)
        requires
            i < old(self)@.units.len(),
            k < pids@.len(),
        ensures
            final(self)@ == looked(
                old(self)@,
                look,
                i as int,
                text::views(pids@),
                k as int,
                hit,
            ),
    {
        if hit {
            let ghost before = self@;
            let p = self.units[i].copy();
            self.hits.push(p);
            proof {
                assert(self@.hits == before.hits.push(before.units[i as int]));
            }
            self.next_unit(look, i);
        } else {
            let n: usize = pids.len();
            proof { assert(k < n); }
            self.at_process(look, i, pids, k + 1);
        }
    }

    /// Go on with the answer to the last query.
    pub fn answer(&mut self, reply: AppIdReply)
        requires
            old(self).wf(),
        ensures
            final(self).wf(),
            final(self)@ == answered(old(self)@, reply@),
    {
        let ghost before = self@;
        let mut stage = Stage::Done;
        core::mem::swap(&mut stage, &mut self.stage);
        proof { answers_keep_it_valid(before, reply@); }
        match (stage, reply) {
            (Stage::Done, _) => {},
            (_, AppIdReply::Expired) => {
                self.hits = Vec::new();
                proof { assert(self@.hits == Seq::<Seq<Seq<u8>>>::empty()); }
            },
            (Stage::Walk { mut walk }, AppIdReply::List(es)) => {
                walk.answer(es);
                match walk.next() {
                    Some(_) => {
                        self.stage = Stage::Walk { walk };
                    },
                    None => {
                        self.units = walk.units();
                        if matcher::steam_app_id(self.app_id.as_str()).is_some() {
                            self.begin(Look::Environ);
                        } else {
                            self.match_names();
                        }
                    },
                }
            },
            (Stage::Procs { look, i }, AppIdReply::Procs(content)) => match content {
                Some(c) => {
                    let pids = pids_of(look, c.as_str());
                    self.at_process(look, i, pids, 0);
                },
                None => {
                    self.next_unit(look, i);
                },
            },
            (
                Stage::Process { look: Look::Environ, i, pids, k },
                AppIdReply::Environ(b),
            ) => {
                let hit = match (b, matcher::steam_app_id(self.app_id.as_str())) {
                    (Some(b), Some(id)) => matcher::environ_has_game_id(b.as_slice(), id),
                    _ => false,
                };
                self.looked(Look::Environ, i, pids, k, hit);
            },
            (Stage::Process { look: Look::Comm, i, pids, k }, AppIdReply::Comm(c)) => {
                let hit = match c {
                    Some(c) => matcher::comm_matches_app_id(c.as_str(), self.app_id.as_str()),
                    None => false,
                };
                self.looked(Look::Comm, i, pids, k, hit);
            },
            (stage, _) => {
                self.stage = stage;
            },
        }
    }
}

} // verus!
