//! Which cgroup holds the boost, and how it gets there.
//!
//! Moving the boost takes writes and reads that can fail or hang, so each
//! operation is a conversation: it starts by naming a first [`Request`], the
//! caller carries it out and hands the [`Reply`] back, and so on until the
//! request is `Done`.

use vstd::prelude::*;

use crate::dmem::WriteOutcome;
use crate::scope;
use crate::text;

verus! {

/// What the booster needs done next.
pub enum Request {
    /// Set `dmem.low` of the cgroup to this many bytes.
    Write { cgroup: String, bytes: u64 },
    /// Read whether `dmem.low` of the cgroup is this many bytes.
    Check { cgroup: String, bytes: u64 },
    /// Nothing: the operation is over. Tells whether the boost is in place.
    Done { boosted: bool },
}

/// The answer to a [`Request`].
#[derive(Clone, Copy, Debug, PartialEq, Eq, Structural)]
pub enum Reply {
    /// How the write went.
    Written(WriteOutcome),
    /// Whether the cgroup holds the value.
    Checked(bool),
}

/// A [`Request`] with its texts.
pub enum RequestView {
    Write { cgroup: Seq<char>, bytes: u64 },
    Check { cgroup: Seq<char>, bytes: u64 },
    Done { boosted: bool },
}

impl View for Request {
    type V = RequestView;

    open spec fn view(&self) -> RequestView {
        match self {
            Request::Write { cgroup, bytes } => RequestView::Write {
                cgroup: cgroup@,
                bytes: *bytes,
            },
            Request::Check { cgroup, bytes } => RequestView::Check {
                cgroup: cgroup@,
                bytes: *bytes,
            },
            Request::Done { boosted } => RequestView::Done { boosted: *boosted },
        }
    }
}

/// What an operation is waiting for.
enum Task {
    Idle,
    /// Writing zero to `cgroup`, then to `next`; after that, boosting `then`.
    Clearing { cgroup: String, next: Option<String>, then: Option<String> },
    /// Reading whether the cgroup that was boosted still is.
    Verifying { cgroup: String },
    /// Writing the boost again after something else reverted it.
    Reapplying { cgroup: String },
    /// Reading whether the newly focused cgroup is boosted already.
    Confirming { cgroup: String },
    /// Writing the boost to the newly focused cgroup.
    Boosting { cgroup: String },
}

/// A task of the booster with its texts.
pub enum TaskView {
    Idle,
    Clearing { cgroup: Seq<char>, next: Option<Seq<char>>, then: Option<Seq<char>> },
    Verifying { cgroup: Seq<char> },
    Reapplying { cgroup: Seq<char> },
    Confirming { cgroup: Seq<char> },
    Boosting { cgroup: Seq<char> },
}

impl View for Task {
    type V = TaskView;

    closed spec fn view(&self) -> TaskView {
        match self {
            Task::Idle => TaskView::Idle,
            Task::Clearing { cgroup, next, then } => TaskView::Clearing {
                cgroup: cgroup@,
                next: text::opt(*next),
                then: text::opt(*then),
            },
            Task::Verifying { cgroup } => TaskView::Verifying { cgroup: cgroup@ },
            Task::Reapplying { cgroup } => TaskView::Reapplying { cgroup: cgroup@ },
            Task::Confirming { cgroup } => TaskView::Confirming { cgroup: cgroup@ },
            Task::Boosting { cgroup } => TaskView::Boosting { cgroup: cgroup@ },
        }
    }
}

/// What clients are told of: the unit, the cgroup and the followed socket.
pub struct Facts {
    pub unit: Seq<char>,
    pub cgroup: Seq<char>,
    pub following: Seq<char>,
}

/// The state of a [`Booster`].
pub struct State {
    pub boosted: Option<Seq<char>>,
    pub unconfirmed: Option<Seq<char>>,
    pub unit: Seq<char>,
    pub following: Seq<char>,
    pub boost: u64,
    pub announced: Facts,
    pub task: TaskView,
}

/// The boost: which cgroup holds it and what clients know of it.
pub struct Booster {
    /// Cgroup that currently holds the boost.
    boosted_cgroup: Option<String>,
    /// Cgroup whose boost write did not finish in time. It is not reported as
    /// boosted, but the write can still land, so the next clear covers it too.
    unconfirmed: Option<String>,
    /// Unit label of the boosted cgroup.
    current_unit: String,
    /// The socket that is being followed; empty while there is none.
    following: String,
    /// How many bytes a boosted cgroup is protected for.
    boost_bytes: u64,
    /// The unit, cgroup and socket as clients last heard them.
    announced_unit: String,
    announced_cgroup: String,
    announced_following: String,
    task: Task,
}

impl View for Booster {
    type V = State;

    closed spec fn view(&self) -> State {
        State {
            boosted: text::opt(self.boosted_cgroup),
            unconfirmed: text::opt(self.unconfirmed),
            unit: self.current_unit@,
            following: self.following@,
            boost: self.boost_bytes,
            announced: Facts {
                unit: self.announced_unit@,
                cgroup: self.announced_cgroup@,
                following: self.announced_following@,
            },
            task: self.task@,
        }
    }
}

/// Write the boost to `c`, which is remembered before the write, not after:
/// whatever interrupts the write, it is known which cgroup to clear.
pub open spec fn apply(s: State, c: Seq<char>) -> (State, RequestView) {
    (
        State {
            boosted: Some(c),
            unit: scope::label(c),
            task: TaskView::Boosting { cgroup: c },
            ..s
        },
        RequestView::Write { cgroup: c, bytes: s.boost },
    )
}

/// Everything has been cleared: go on to boost `then`, or end.
pub open spec fn cleared(s: State, then: Option<Seq<char>>) -> (State, RequestView) {
    let clean = State { unit: Seq::<char>::empty(), task: TaskView::Idle, ..s };
    match then {
        Some(c) => apply(clean, c),
        None => (clean, RequestView::Done { boosted: false }),
    }
}

/// Clear the boosted cgroup, then the unconfirmed one, then boost `then`.
pub open spec fn clear(s: State, then: Option<Seq<char>>) -> (State, RequestView) {
    let taken = State { boosted: None, unconfirmed: None, ..s };
    match (s.boosted, s.unconfirmed) {
        (Some(a), next) => (
            State { task: TaskView::Clearing { cgroup: a, next, then }, ..taken },
            RequestView::Write { cgroup: a, bytes: 0 },
        ),
        (None, Some(b)) => (
            State { task: TaskView::Clearing { cgroup: b, next: None, then }, ..taken },
            RequestView::Write { cgroup: b, bytes: 0 },
        ),
        (None, None) => cleared(taken, then),
    }
}

/// Look whether the boosted cgroup still holds the boost.
pub open spec fn verify(s: State) -> (State, RequestView) {
    match s.boosted {
        Some(c) => (
            State { task: TaskView::Verifying { cgroup: c }, ..s },
            RequestView::Check { cgroup: c, bytes: s.boost },
        ),
        None => (s, RequestView::Done { boosted: false }),
    }
}

/// Move the boost to `cgroup`, or drop it if there is none.
pub open spec fn focus(s: State, cgroup: Option<Seq<char>>) -> (State, RequestView) {
    match cgroup {
        None => clear(s, None),
        Some(c) => {
            // A timed-out write to this very cgroup needs no clear: it is
            // about to be written again, behind that write.
            let s = if s.unconfirmed == Some(c) {
                State { unconfirmed: None, ..s }
            } else {
                s
            };
            if s.boosted == Some(c) {
                (
                    State { task: TaskView::Confirming { cgroup: c }, ..s },
                    RequestView::Check { cgroup: c, bytes: s.boost },
                )
            } else {
                clear(s, Some(c))
            }
        },
    }
}

/// The boost is not in place after all.
pub open spec fn unboosted(s: State, unconfirmed: Option<Seq<char>>) -> (State, RequestView) {
    (
        State {
            boosted: None,
            unconfirmed,
            unit: Seq::<char>::empty(),
            task: TaskView::Idle,
            ..s
        },
        RequestView::Done { boosted: false },
    )
}

/// The boost is in place.
pub open spec fn in_place(s: State) -> (State, RequestView) {
    (State { task: TaskView::Idle, ..s }, RequestView::Done { boosted: true })
}

/// The request that a task waits for the answer to.
pub open spec fn outstanding(s: State) -> RequestView {
    match s.task {
        TaskView::Idle => RequestView::Done { boosted: s.boosted is Some },
        TaskView::Clearing { cgroup, .. } => RequestView::Write { cgroup, bytes: 0 },
        TaskView::Verifying { cgroup } => RequestView::Check { cgroup, bytes: s.boost },
        TaskView::Reapplying { cgroup } => RequestView::Write { cgroup, bytes: s.boost },
        TaskView::Confirming { cgroup } => RequestView::Check { cgroup, bytes: s.boost },
        TaskView::Boosting { cgroup } => RequestView::Write { cgroup, bytes: s.boost },
    }
}

/// What the answer `reply` to the outstanding request leads to. An answer of
/// the wrong kind leaves the request outstanding.
pub open spec fn resume(s: State, reply: Reply) -> (State, RequestView) {
    match (s.task, reply) {
        (TaskView::Clearing { cgroup, next, then }, Reply::Written(_)) => match next {
            Some(b) => (
                State { task: TaskView::Clearing { cgroup: b, next: None, then }, ..s },
                RequestView::Write { cgroup: b, bytes: 0 },
            ),
            None => cleared(s, then),
        },
        (TaskView::Verifying { cgroup }, Reply::Checked(intact)) => if intact {
            in_place(s)
        } else {
            (
                State { task: TaskView::Reapplying { cgroup }, ..s },
                RequestView::Write { cgroup, bytes: s.boost },
            )
        },
        (TaskView::Reapplying { cgroup }, Reply::Written(outcome)) => match outcome {
            WriteOutcome::Wrote => in_place(s),
            WriteOutcome::TimedOut => unboosted(s, s.boosted),
            _ => unboosted(s, s.unconfirmed),
        },
        (TaskView::Confirming { cgroup }, Reply::Checked(intact)) => if intact {
            in_place(s)
        } else {
            apply(s, cgroup)
        },
        (TaskView::Boosting { cgroup }, Reply::Written(outcome)) => match outcome {
            WriteOutcome::Wrote => in_place(s),
            WriteOutcome::TimedOut => unboosted(s, Some(cgroup)),
            _ => unboosted(s, s.unconfirmed),
        },
        _ => (s, outstanding(s)),
    }
}

/// What holds of every state. Nothing is both boosted and unconfirmed, so at
/// most one cgroup is known to hold the boost or about to; the unit that is
/// reported is the boosted cgroup's.
pub open spec fn valid(s: State) -> bool {
    match s.task {
        TaskView::Clearing { cgroup, next, then } => {
            &&& s.boosted is None
            &&& s.unconfirmed is None
        },
        TaskView::Idle => {
            &&& s.boosted is None || s.unconfirmed is None
            &&& s.unit == unit_of_boosted(s)
        },
        TaskView::Verifying { cgroup } | TaskView::Reapplying { cgroup } | TaskView::Confirming {
            cgroup,
        } | TaskView::Boosting { cgroup } => {
            &&& s.boosted == Some(cgroup)
            &&& s.unconfirmed is None
            &&& s.unit == unit_of_boosted(s)
        },
    }
}

/// The name of the boosted unit; empty if there is none.
pub open spec fn unit_of_boosted(s: State) -> Seq<char> {
    match s.boosted {
        Some(c) => scope::label(c),
        None => Seq::<char>::empty(),
    }
}

impl Booster {
    /// The state is one that operations keep to.
    pub open spec fn wf(&self) -> bool {
        valid(self@)
    }

    /// A booster that has boosted nothing, announced nothing and follows
    /// nothing, with boosts of `boost_bytes` bytes.
    pub fn new(boost_bytes: u64) -> (r: Self)
        ensures
            r.wf(),
            r@ == (State {
                boosted: None,
                unconfirmed: None,
                unit: Seq::<char>::empty(),
                following: Seq::<char>::empty(),
                boost: boost_bytes,
                announced: Facts {
                    unit: Seq::<char>::empty(),
                    cgroup: Seq::<char>::empty(),
                    following: Seq::<char>::empty(),
                },
                task: TaskView::Idle,
            }),
    {
        Booster {
            boosted_cgroup: None,
            unconfirmed: None,
            current_unit: String::new(),
            following: String::new(),
            boost_bytes,
            announced_unit: String::new(),
            announced_cgroup: String::new(),
            announced_following: String::new(),
            task: Task::Idle,
        }
    }

    fn apply(&mut self, cgroup: String) -> (r: Request)
        ensures
            (final(self)@, r@) == apply(old(self)@, cgroup@),
    {
        self.current_unit = scope::unit_label(cgroup.as_str()).to_string();
        self.boosted_cgroup = Some(cgroup.clone());
        self.task = Task::Boosting { cgroup: cgroup.clone() };
        Request::Write { cgroup, bytes: self.boost_bytes }
    }

    fn cleared(&mut self, then: Option<String>) -> (r: Request)
        ensures
            (final(self)@, r@) == cleared(old(self)@, text::opt(then)),
    {
        self.current_unit = String::new();
        self.task = Task::Idle;
        match then {
            Some(cgroup) => self.apply(cgroup),
            None => Request::Done { boosted: false },
        }
    }

    fn clear(&mut self, then: Option<String>) -> (r: Request)
        ensures
            (final(self)@, r@) == clear(old(self)@, text::opt(then)),
    {
        let boosted = self.boosted_cgroup.take();
        let unconfirmed = self.unconfirmed.take();
        match boosted {
            Some(cgroup) => {
                self.task = Task::Clearing { cgroup: cgroup.clone(), next: unconfirmed, then };
                Request::Write { cgroup, bytes: 0 }
            },
            None => match unconfirmed {
                Some(cgroup) => {
                    self.task = Task::Clearing { cgroup: cgroup.clone(), next: None, then };
                    Request::Write { cgroup, bytes: 0 }
                },
                None => self.cleared(then),
            },
        }
    }

    /// Start taking the boost back from whichever cgroup has it or may get it.
    pub fn clear_boost(&mut self) -> (r: Request)
        requires
            old(self).wf(),
            old(self)@.task is Idle,
        ensures
            final(self).wf(),
            (final(self)@, r@) == clear(old(self)@, None),
    {
        self.clear(None)
    }

    /// Start re-applying the boost if something else reverted it. One read
    /// while it is intact, and no window resolution: the cgroup is already
    /// known. A boost that is not in place at the end means that the window
    /// has to be resolved again.
    pub fn verify_boost(&mut self) -> (r: Request)
        requires
            old(self).wf(),
            old(self)@.task is Idle,
        ensures
            final(self).wf(),
            (final(self)@, r@) == verify(old(self)@),
    {
        match &self.boosted_cgroup {
            Some(c) => {
                let cgroup = c.clone();
                self.task = Task::Verifying { cgroup: cgroup.clone() };
                Request::Check { cgroup, bytes: self.boost_bytes }
            },
            None => Request::Done { boosted: false },
        }
    }

    /// Start moving the boost to `cgroup`, or dropping it if there is none.
    pub fn handle_focus(&mut self, cgroup: Option<String>) -> (r: Request)
        requires
            old(self).wf(),
            old(self)@.task is Idle,
        ensures
            final(self).wf(),
            (final(self)@, r@) == focus(old(self)@, text::opt(cgroup)),
    {
        let cgroup = match cgroup {
            Some(c) => c,
            None => {
                return self.clear(None);
            },
        };
        let same_unconfirmed = match &self.unconfirmed {
            Some(u) => text::same_text(u.as_str(), cgroup.as_str()),
            None => false,
        };
        if same_unconfirmed {
            self.unconfirmed = None;
        }
        let same_boosted = match &self.boosted_cgroup {
            Some(b) => text::same_text(b.as_str(), cgroup.as_str()),
            None => false,
        };
        if same_boosted {
            self.task = Task::Confirming { cgroup: cgroup.clone() };
            Request::Check { cgroup, bytes: self.boost_bytes }
        } else {
            self.clear(Some(cgroup))
        }
    }

    /// Go on with the answer to the outstanding request.
    pub fn resume(&mut self, reply: Reply) -> (r: Request)
        requires
            old(self).wf(),
        ensures
            final(self).wf(),
            (final(self)@, r@) == resume(old(self)@, reply),
    {
        let mut task = Task::Idle;
        core::mem::swap(&mut task, &mut self.task);
        match (task, reply) {
            (Task::Clearing { cgroup: _, next, then }, Reply::Written(_)) => match next {
                Some(cgroup) => {
                    self.task = Task::Clearing { cgroup: cgroup.clone(), next: None, then };
                    Request::Write { cgroup, bytes: 0 }
                },
                None => self.cleared(then),
            },
            (Task::Verifying { cgroup }, Reply::Checked(intact)) => if intact {
                Request::Done { boosted: true }
            } else {
                self.task = Task::Reapplying { cgroup: cgroup.clone() };
                Request::Write { cgroup, bytes: self.boost_bytes }
            },
            (Task::Reapplying { cgroup: _ }, Reply::Written(outcome)) => match outcome {
                WriteOutcome::Wrote => Request::Done { boosted: true },
                WriteOutcome::TimedOut => {
                    self.unconfirmed = self.boosted_cgroup.take();
                    self.current_unit = String::new();
                    Request::Done { boosted: false }
                },
                _ => {
                    self.boosted_cgroup = None;
                    self.current_unit = String::new();
                    Request::Done { boosted: false }
                },
            },
            (Task::Confirming { cgroup }, Reply::Checked(intact)) => if intact {
                Request::Done { boosted: true }
            } else {
                self.apply(cgroup)
            },
            (Task::Boosting { cgroup }, Reply::Written(outcome)) => match outcome {
                WriteOutcome::Wrote => Request::Done { boosted: true },
                WriteOutcome::TimedOut => {
                    self.unconfirmed = Some(cgroup);
                    self.boosted_cgroup = None;
                    self.current_unit = String::new();
                    Request::Done { boosted: false }
                },
                _ => {
                    self.boosted_cgroup = None;
                    self.current_unit = String::new();
                    Request::Done { boosted: false }
                },
            },
            (task, _) => {
                self.task = task;
                self.outstanding()
            },
        }
    }

    /// The request that an answer is waited for; `Done` if there is none.
    pub fn outstanding(&self) -> (r: Request)
        ensures
            r@ == outstanding(self@),
    {
        match &self.task {
            Task::Idle => Request::Done { boosted: self.boosted_cgroup.is_some() },
            Task::Clearing { cgroup, .. } => Request::Write { cgroup: cgroup.clone(), bytes: 0 },
            Task::Verifying { cgroup } => Request::Check {
                cgroup: cgroup.clone(),
                bytes: self.boost_bytes,
            },
            Task::Reapplying { cgroup } => Request::Write {
                cgroup: cgroup.clone(),
                bytes: self.boost_bytes,
            },
            Task::Confirming { cgroup } => Request::Check {
                cgroup: cgroup.clone(),
                bytes: self.boost_bytes,
            },
            Task::Boosting { cgroup } => Request::Write {
                cgroup: cgroup.clone(),
                bytes: self.boost_bytes,
            },
        }
    }

    /// Cgroup that currently holds the boost.
    pub fn boosted_cgroup(&self) -> (r: Option<&str>)
        ensures
            match r {
                Some(c) => self@.boosted == Some(c@),
                None => self@.boosted is None,
            },
    {
        match &self.boosted_cgroup {
            Some(c) => Some(c.as_str()),
            None => None,
        }
    }

    /// Cgroup whose boost write did not finish in time.
    pub fn unconfirmed(&self) -> (r: Option<&str>)
        ensures
            match r {
                Some(c) => self@.unconfirmed == Some(c@),
                None => self@.unconfirmed is None,
            },
    {
        match &self.unconfirmed {
            Some(c) => Some(c.as_str()),
            None => None,
        }
    }

    /// The name of the boosted unit; empty if there is none.
    pub fn current_unit(&self) -> (r: &str)
        ensures
            r@ == self@.unit,
    {
        self.current_unit.as_str()
    }

    /// The socket that is being followed; empty while there is none.
    pub fn following(&self) -> (r: &str)
        ensures
            r@ == self@.following,
    {
        self.following.as_str()
    }

    /// How many bytes a boosted cgroup is protected for.
    pub fn boost_bytes(&self) -> (r: u64)
        ensures
            r == self@.boost,
    {
        self.boost_bytes
    }

    /// Whether no operation is under way, so that one can start.
    pub fn is_idle(&self) -> (r: bool)
        ensures
            r == (self@.task is Idle),
    {
        match &self.task {
            Task::Idle => true,
            _ => false,
        }
    }

    /// The socket at `path` is being followed from now on; none if it is empty.
    pub fn set_following(&mut self, path: &str)
        requires
            old(self).wf(),
        ensures
            final(self).wf(),
            final(self)@ == (State { following: path@, ..old(self)@ }),
    {
        self.following = path.to_string();
    }

    /// The properties that changed since the last call, with their values.
    /// Called once a change is complete, so a switch from one unit to another
    /// is announced once rather than as a clear and a boost.
    pub fn announce(&mut self) -> (r: Vec<(Property, String)>)
        requires
            old(self).wf(),
        ensures
            final(self).wf(),
            properties(r@) == changes(old(self)@),
            final(self)@ == (State { announced: facts(old(self)@), ..old(self)@ }),
    {
        let mut r: Vec<(Property, String)> = Vec::new();
        let cgroup = match &self.boosted_cgroup {
            Some(c) => c.clone(),
            None => String::new(),
        };
        if !text::same_text(self.current_unit.as_str(), self.announced_unit.as_str()) {
            r.push((Property::CurrentUnit, self.current_unit.clone()));
        }
        let ghost first = properties(r@);
        if !text::same_text(cgroup.as_str(), self.announced_cgroup.as_str()) {
            r.push((Property::BoostedCgroup, cgroup.clone()));
        }
        let ghost second = properties(r@);
        if !text::same_text(self.following.as_str(), self.announced_following.as_str()) {
            r.push((Property::Following, self.following.clone()));
        }
        proof {
            let s = old(self)@;
            assert(first == (if s.unit != s.announced.unit {
                seq![(Property::CurrentUnit, s.unit)]
            } else {
                Seq::empty()
            }));
            assert(second == first + (if facts(s).cgroup != s.announced.cgroup {
                seq![(Property::BoostedCgroup, facts(s).cgroup)]
            } else {
                Seq::empty()
            }));
            assert(properties(r@) == second + (if s.following != s.announced.following {
                seq![(Property::Following, s.following)]
            } else {
                Seq::empty()
            }));
        }
        self.announced_unit = self.current_unit.clone();
        self.announced_cgroup = cgroup;
        self.announced_following = self.following.clone();
        r
    }
}

/// A property of the booster that clients can watch.
#[derive(Clone, Copy, Debug, PartialEq, Eq, Structural)]
pub enum Property {
    CurrentUnit,
    BoostedCgroup,
    Following,
}

/// The name by which clients know a property.
pub open spec fn property_name(p: Property) -> Seq<char> {
    match p {
        Property::CurrentUnit => "CurrentUnit"@,
        Property::BoostedCgroup => "BoostedCgroup"@,
        Property::Following => "Following"@,
    }
}

impl Property {
    /// The name by which clients know the property.
    pub fn name(&self) -> (r: &'static str)
        ensures
            r@ == property_name(*self),
    {
        match self {
            Property::CurrentUnit => "CurrentUnit",
            Property::BoostedCgroup => "BoostedCgroup",
            Property::Following => "Following",
        }
    }
}

/// The properties and values in `v`.
pub open spec fn properties(v: Seq<(Property, String)>) -> Seq<(Property, Seq<char>)> {
    Seq::new(v.len(), |i: int| (v[i].0, v[i].1@))
}

/// What clients can know of a state.
pub open spec fn facts(s: State) -> Facts {
    Facts {
        unit: s.unit,
        cgroup: match s.boosted {
            Some(c) => c,
            None => Seq::<char>::empty(),
        },
        following: s.following,
    }
}

/// What clients have not heard of yet.
pub open spec fn changes(s: State) -> Seq<(Property, Seq<char>)> {
    let now = facts(s);
    let unit = if now.unit != s.announced.unit {
        seq![(Property::CurrentUnit, now.unit)]
    } else {
        Seq::empty()
    };
    let cgroup = if now.cgroup != s.announced.cgroup {
        seq![(Property::BoostedCgroup, now.cgroup)]
    } else {
        Seq::empty()
    };
    let following = if now.following != s.announced.following {
        seq![(Property::Following, now.following)]
    } else {
        Seq::empty()
    };
    unit + cgroup + following
}

/// What has been announced is not announced again.
pub proof fn announced_once(s: State)
    ensures
        changes(State { announced: facts(s), ..s }).len() == 0,
{
}

} // verus!
