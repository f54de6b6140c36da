//! From a process to the `app.slice` unit it runs in.
//!
//! Launchers commonly sit outside `app.slice` and put the app they started
//! into a scope of its own, so the search goes on to the descendants of the
//! process. It reads one `/proc` file at a time: [`PidSearch::next`] names
//! the file and [`PidSearch::answer`] takes what it holds.

use vstd::prelude::*;

use std::collections::VecDeque;

use crate::scope;
use crate::text;

verus! {

/// How many children of one process are looked at.
pub const MAX_CHILDREN: usize = 64;

/// What a search needs to know next.
pub enum PidQuery {
    /// The body of `/proc/<pid>/cgroup`, unless the time is up.
    Cgroup { pid: u32 },
    /// The names in `/proc/<pid>/task`.
    Tasks { pid: u32 },
    /// The body of `/proc/<pid>/task/<tid>/children`.
    Children { pid: u32, tid: u32 },
    /// Nothing: this is the unit, if there is one.
    Done { unit: Option<String> },
}

/// The answer to a [`PidQuery`]. What cannot be read is None.
pub enum PidReply {
    /// The time is up.
    Expired,
    Cgroup(Option<String>),
    Tasks(Option<Vec<String>>),
    Children(Option<String>),
}

/// A process whose children are being looked at.
struct Frame {
    pid: u32,
    /// Threads whose children have not been read yet.
    tids: VecDeque<u32>,
    /// Children that have not been looked at yet.
    kids: VecDeque<u32>,
    /// How many children have been looked at.
    visited: usize,
}

enum Stage {
    Cgroup { pid: u32 },
    Tasks { pid: u32 },
    Children { pid: u32, tid: u32 },
    Done { unit: Option<String> },
}

/// A search for the unit of a process or of one of its descendants.
pub struct PidSearch {
    max_depth: usize,
    /// The ancestors of the process that is being looked at.
    stack: Vec<Frame>,
    stage: Stage,
}

/// A [`PidQuery`] with its texts.
pub enum QueryView {
    Cgroup { pid: u32 },
    Tasks { pid: u32 },
    Children { pid: u32, tid: u32 },
    Done { unit: Option<Seq<char>> },
}

/// A [`PidReply`] with its texts.
pub enum ReplyView {
    Expired,
    Cgroup(Option<Seq<char>>),
    Tasks(Option<Seq<Seq<char>>>),
    Children(Option<Seq<char>>),
}

/// A process whose children are being looked at.
pub struct FrameView {
    pub pid: u32,
    pub tids: Seq<u32>,
    pub kids: Seq<u32>,
    pub visited: nat,
}

/// The state of a [`PidSearch`]: the ancestors of the process that is being
/// looked at, and what has to be known next.
pub struct SearchView {
    pub max_depth: nat,
    pub stack: Seq<FrameView>,
    pub query: QueryView,
}

impl View for PidQuery {
    type V = QueryView;

    open spec fn view(&self) -> QueryView {
        match self {
            PidQuery::Cgroup { pid } => QueryView::Cgroup { pid: *pid },
            PidQuery::Tasks { pid } => QueryView::Tasks { pid: *pid },
            PidQuery::Children { pid, tid } => QueryView::Children { pid: *pid, tid: *tid },
            PidQuery::Done { unit } => QueryView::Done { unit: text::opt(*unit) },
        }
    }
}

impl View for PidReply {
    type V = ReplyView;

    open spec fn view(&self) -> ReplyView {
        match self {
            PidReply::Expired => ReplyView::Expired,
            PidReply::Cgroup(c) => ReplyView::Cgroup(text::opt(*c)),
            PidReply::Tasks(t) => ReplyView::Tasks(
                match t {
                    Some(names) => Some(text::strings(names@)),
                    None => None,
                },
            ),
            PidReply::Children(c) => ReplyView::Children(text::opt(*c)),
        }
    }
}

impl View for Frame {
    type V = FrameView;

    closed spec fn view(&self) -> FrameView {
        FrameView {
            pid: self.pid,
            tids: self.tids@,
            kids: self.kids@,
            visited: self.visited as nat,
        }
    }
}

impl View for Stage {
    type V = QueryView;

    closed spec fn view(&self) -> QueryView {
        match self {
            Stage::Cgroup { pid } => QueryView::Cgroup { pid: *pid },
            Stage::Tasks { pid } => QueryView::Tasks { pid: *pid },
            Stage::Children { pid, tid } => QueryView::Children { pid: *pid, tid: *tid },
            Stage::Done { unit } => QueryView::Done { unit: text::opt(*unit) },
        }
    }
}

impl View for PidSearch {
    type V = SearchView;

    closed spec fn view(&self) -> SearchView {
        SearchView {
            max_depth: self.max_depth as nat,
            stack: Seq::new(self.stack@.len(), |i: int| self.stack@[i]@),
            query: self.stage@,
        }
    }
}

/// The process ids among `names`; what is not a number is left out.
pub open spec fn ids(names: Seq<Seq<char>>) -> Seq<u32>
    decreases names.len(),
{
    if names.len() == 0 {
        Seq::<u32>::empty()
    } else {
        match text::number(names.last(), u32::MAX as nat) {
            Some(n) => ids(names.drop_last()).push(n as u32),
            None => ids(names.drop_last()),
        }
    }
}

/// The unit that the body of `/proc/<pid>/cgroup` puts a process in.
pub open spec fn unit_in_proc(content: Option<Seq<char>>) -> Option<Seq<char>> {
    match content {
        Some(c) => match scope::unified(c) {
            Some(path) => scope::unit_of(path),
            None => None,
        },
        None => None,
    }
}

/// The process below `stack` is in no unit, nor is any descendant of it.
pub open spec fn failed(max_depth: nat, stack: Seq<FrameView>) -> SearchView
    decreases stack.len(), 0nat,
{
    if stack.len() == 0 {
        SearchView { max_depth, stack, query: QueryView::Done { unit: None } }
    } else {
        let f = stack.last();
        if f.visited + 1 >= MAX_CHILDREN {
            failed(max_depth, stack.drop_last())
        } else {
            onward(max_depth, stack.drop_last(), FrameView { visited: f.visited + 1, ..f })
        }
    }
}

/// Go on with the next child of the process `f`.
pub open spec fn onward(max_depth: nat, above: Seq<FrameView>, f: FrameView) -> SearchView
    decreases above.len(), 1nat,
{
    if f.kids.len() > 0 {
        SearchView {
            max_depth,
            stack: above.push(FrameView { kids: f.kids.skip(1), ..f }),
            query: QueryView::Cgroup { pid: f.kids[0] },
        }
    } else if f.tids.len() > 0 {
        SearchView {
            max_depth,
            stack: above.push(FrameView { tids: f.tids.skip(1), ..f }),
            query: QueryView::Children { pid: f.pid, tid: f.tids[0] },
        }
    } else {
        failed(max_depth, above)
    }
}

/// The search at its start.
pub open spec fn start(pid: u32, max_depth: nat) -> SearchView {
    SearchView { max_depth, stack: Seq::empty(), query: QueryView::Cgroup { pid } }
}

/// What the answer `reply` leads to. An answer of the wrong kind leaves the
/// search as it is.
pub open spec fn answered(s: SearchView, reply: ReplyView) -> SearchView {
    match (s.query, reply) {
        (QueryView::Cgroup { pid }, ReplyView::Expired) => failed(s.max_depth, s.stack),
        (QueryView::Cgroup { pid }, ReplyView::Cgroup(content)) => match unit_in_proc(content) {
            Some(u) => SearchView { query: QueryView::Done { unit: Some(u) }, ..s },
            None => if s.stack.len() >= s.max_depth {
                failed(s.max_depth, s.stack)
            } else {
                SearchView {
                    stack: s.stack.push(
                        FrameView { pid, tids: Seq::empty(), kids: Seq::empty(), visited: 0 },
                    ),
                    query: QueryView::Tasks { pid },
                    ..s
                }
            },
        },
        (QueryView::Tasks { pid }, ReplyView::Tasks(names)) => match names {
            Some(names) => onward(
                s.max_depth,
                s.stack.drop_last(),
                FrameView { tids: ids(names), ..s.stack.last() },
            ),
            None => failed(s.max_depth, s.stack.drop_last()),
        },
        (QueryView::Children { pid, tid }, ReplyView::Children(content)) => {
            let f = s.stack.last();
            match content {
                Some(c) => onward(
                    s.max_depth,
                    s.stack.drop_last(),
                    FrameView { kids: ids(text::words(text::trim(c))), ..f },
                ),
                None => onward(s.max_depth, s.stack.drop_last(), f),
            }
        },
        _ => s,
    }
}

/// What holds of every state of a search: each process on the stack still has
/// a child to go, and one that is being listed has a place there.
pub open spec fn valid(s: SearchView) -> bool {
    &&& forall|i: int| 0 <= i < s.stack.len() ==> (#[trigger] s.stack[i]).visited < MAX_CHILDREN
    &&& s.query is Tasks || s.query is Children ==> s.stack.len() > 0
    &&& s.stack.len() <= s.max_depth
}

proof fn lemma_failed_valid(max_depth: nat, stack: Seq<FrameView>)
    requires
        valid(SearchView { max_depth, stack, query: QueryView::Done { unit: None } }),
    ensures
        valid(failed(max_depth, stack)),
        failed(max_depth, stack).max_depth == max_depth,
    decreases stack.len(), 0nat,
{
    if stack.len() > 0 {
        let f = stack.last();
        let above = stack.drop_last();
        assert forall|i: int| 0 <= i < above.len() implies (#[trigger] above[i]).visited
            < MAX_CHILDREN by {
            assert(above[i] == stack[i]);
        }
        if f.visited + 1 >= MAX_CHILDREN {
            lemma_failed_valid(max_depth, above);
        } else {
            lemma_onward_valid(max_depth, above, FrameView { visited: f.visited + 1, ..f });
        }
    }
}

proof fn lemma_onward_valid(max_depth: nat, above: Seq<FrameView>, f: FrameView)
    requires
        valid(SearchView { max_depth, stack: above, query: QueryView::Done { unit: None } }),
        above.len() < max_depth,
        f.visited < MAX_CHILDREN,
    ensures
        valid(onward(max_depth, above, f)),
        onward(max_depth, above, f).max_depth == max_depth,
    decreases above.len(), 1nat,
{
    if f.kids.len() == 0 && f.tids.len() == 0 {
        lemma_failed_valid(max_depth, above);
    }
}

/// The process ids among `names`.
fn ids_of(names: &Vec<Vec<char>>) -> (r: VecDeque<u32>)
    ensures
        r@ == ids(text::views(names@)),
{
    let ghost ns = text::views(names@);
    let mut r: VecDeque<u32> = VecDeque::new();
    let mut i: usize = 0;
    proof { assert(r@ == ids(ns.take(0))); }
    while i < names.len()
        invariant
            i <= names.len(),
            ns == text::views(names@),
            r@ == ids(ns.take(i as int)),
        decreases names.len() - i,
    {
        proof {
            assert(ns.take(i + 1).drop_last() == ns.take(i as int));
            assert(ns.take(i + 1).last() == names@[i as int]@);
        }
        match text::parse_u32(names[i].as_slice()) {
            Some(n) => {
                r.push_back(n);
            },
            None => {},
        }
        i += 1;
    }
    proof { assert(ns.take(i as int) == ns); }
    r
}

/// The characters of each of the texts in `v`.
fn chars_of_all(v: &Vec<String>) -> (r: Vec<Vec<char>>)
    ensures
        text::views(r@) == text::strings(v@),
{
    let mut r: Vec<Vec<char>> = Vec::new();
    let mut i: usize = 0;
    while i < v.len()
        invariant
            i <= v.len(),
            text::views(r@) == text::strings(v@).take(i as int),
        decreases v.len() - i,
    {
        let ghost before = r@;
        r.push(text::chars_of(v[i].as_str()));
        proof {
            assert(text::views(r@) == text::views(before).push(v@[i as int]@));
        }
        i += 1;
    }
    r
}

/// Start looking for the `app.slice` unit of `pid`, or of one of its
/// descendants down to `max_depth` generations.
///
/// The search is bounded three ways: by depth, by [`MAX_CHILDREN`] per
/// process, and by the time after which it is told `Expired`.
pub fn find_app_scope_for_pid(pid: u32, max_depth: usize) -> (r: PidSearch)
    ensures
        r.wf(),
        r@ == start(pid, max_depth as nat),
{
    let r = PidSearch { max_depth, stack: Vec::new(), stage: Stage::Cgroup { pid } };
    proof { assert(r@.stack == Seq::<FrameView>::empty()); }
    r
}

impl PidSearch {
    /// The state is one that a search can be in.
    pub open spec fn wf(&self) -> bool {
        valid(self@)
    }

    /// What has to be known next, or the unit that was found.
    pub fn next(&self) -> (r: PidQuery)
        ensures
            r@ == self@.query,
    {
        match &self.stage {
            Stage::Cgroup { pid } => PidQuery::Cgroup { pid: *pid },
            Stage::Tasks { pid } => PidQuery::Tasks { pid: *pid },
            Stage::Children { pid, tid } => PidQuery::Children { pid: *pid, tid: *tid },
            Stage::Done { unit } => PidQuery::Done { unit: unit.clone() },
        }
    }

    fn fail(&mut self)
        requires
            forall|i: int|
                0 <= i < old(self)@.stack.len() ==> (#[trigger] old(self)@.stack[i]).visited
                    < MAX_CHILDREN,
        ensures
            final(self)@ == failed(old(self)@.max_depth, old(self)@.stack),
        decreases old(self)@.stack.len(), 0nat,
    {
        let ghost before = self@;
        match self.stack.pop() {
            None => {
                self.stage = Stage::Done { unit: None };
                proof { assert(self@.stack == before.stack); }
            },
            Some(mut f) => {
                proof {
                    assert(self@.stack == before.stack.drop_last());
                    assert(before.stack[before.stack.len() - 1] == f@);
                }
                if f.visited + 1 >= MAX_CHILDREN {
                    self.fail();
                } else {
                    f.visited = f.visited + 1;
                    self.onward(f);
                }
            },
        }
    }

    fn onward(&mut self, mut f: Frame)
        requires
            forall|i: int|
                0 <= i < old(self)@.stack.len() ==> (#[trigger] old(self)@.stack[i]).visited
                    < MAX_CHILDREN,
        ensures
            final(self)@ == onward(old(self)@.max_depth, old(self)@.stack, f@),
        decreases old(self)@.stack.len(), 1nat,
    {
        let ghost before = self@;
        let ghost frame = f@;
        match f.kids.pop_front() {
            Some(kid) => {
                self.stage = Stage::Cgroup { pid: kid };
                self.stack.push(f);
                proof {
                    assert(self@.stack == before.stack.push(
                        FrameView { kids: frame.kids.skip(1), ..frame },
                    ));
                }
            },
            None => match f.tids.pop_front() {
                Some(tid) => {
                    self.stage = Stage::Children { pid: f.pid, tid };
                    self.stack.push(f);
                    proof {
                        assert(self@.stack == before.stack.push(
                            FrameView { tids: frame.tids.skip(1), ..frame },
                        ));
                    }
                },
                None => self.fail(),
            },
        }
    }

    /// Go on with the answer to the last query.
    pub fn answer(&mut self, reply: PidReply)
        requires
            old(self).wf(),
        ensures
            final(self).wf(),
            final(self)@ == answered(old(self)@, reply@),
    {
        let ghost before = self@;
        proof {
            lemma_failed_valid(before.max_depth, before.stack);
        }
        let mut stage = Stage::Done { unit: None };
        core::mem::swap(&mut stage, &mut self.stage);
        match (stage, reply) {
            (Stage::Cgroup { pid: _ }, PidReply::Expired) => self.fail(),
            (Stage::Cgroup { pid }, PidReply::Cgroup(content)) => {
                let path = match content {
                    Some(c) => scope::cgroup_path(c.as_str()),
                    None => None,
                };
                let unit = match path {
                    Some(p) => scope::app_unit_cgroup(p.as_str()),
                    None => None,
                };
                if unit.is_some() {
                    self.stage = Stage::Done { unit };
                    proof { assert(self@.stack == before.stack); }
                } else if self.stack.len() >= self.max_depth {
                    self.fail();
                } else {
                    self.stage = Stage::Tasks { pid };
                    let f = Frame {
                        pid,
                        tids: VecDeque::new(),
                        kids: VecDeque::new(),
                        visited: 0,
                    };
                    self.stack.push(f);
                    proof {
                        assert(self@.stack == before.stack.push(f@));
                        assert(f@ == FrameView {
                            pid,
                            tids: Seq::empty(),
                            kids: Seq::empty(),
                            visited: 0,
                        });
                    }
                }
            },
            (Stage::Tasks { pid: _ }, PidReply::Tasks(names)) => {
                let popped = self.stack.pop();
                proof {
                    assert(self@.stack == before.stack.drop_last());
                    assert(before.stack[before.stack.len() - 1] == popped->0@);
                    lemma_failed_valid(before.max_depth, before.stack.drop_last());
                }
                match (names, popped) {
                    (Some(names), Some(mut f)) => {
                        f.tids = ids_of(&chars_of_all(&names));
                        proof {
                            lemma_onward_valid(
                                before.max_depth,
                                before.stack.drop_last(),
                                f@,
                            );
                        }
                        self.onward(f);
                    },
                    _ => self.fail(),
                }
            },
            (Stage::Children { pid: _, tid: _ }, PidReply::Children(content)) => {
                let popped = self.stack.pop();
                proof {
                    assert(self@.stack == before.stack.drop_last());
                    assert(before.stack[before.stack.len() - 1] == popped->0@);
                }
                match popped {
                    Some(mut f) => {
                        match content {
                            Some(c) => {
                                let cs = text::chars_of(c.as_str());
                                f.kids = ids_of(&text::words_of(text::trimmed(cs.as_slice())));
                            },
                            None => {},
                        }
                        proof {
                            lemma_onward_valid(
                                before.max_depth,
                                before.stack.drop_last(),
                                f@,
                            );
                        }
                        self.onward(f);
                    },
                    None => {},
                }
            },
            (stage, _) => {
                self.stage = stage;
                proof { assert(self@.stack == before.stack); }
            },
        }
    }
}

} // verus!
