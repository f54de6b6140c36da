//! Clearing the boosts that a killed daemon left behind.
//!
//! The sweep goes through the daemon's own user slice and clears every
//! `dmem.low` under `app.slice` that holds exactly the boost value for the
//! selected GPU; any other value is left alone. It does one thing at a time:
//! [`Sweep::next`] names it and [`Sweep::answer`] takes how it went.

use vstd::prelude::*;
use vstd::string::*;
use vstd::utf8::*;

use crate::bytes;
use crate::dmem;
use crate::scope;
use crate::text;
use crate::tree;
use crate::tree::{Entry, EntryView, Place};

verus! {

/// What a sweep needs done next. Places lie below the swept directory.
pub enum SweepRequest {
    /// List the directory `place`.
    List { place: Place },
    /// Read the file `place`.
    Read { place: Place },
    /// Write `body` to the file `place`.
    Clear { place: Place, body: String },
    /// Nothing: the sweep is over, and this many values were cleared.
    Done { cleared: usize },
}

/// The answer to a [`SweepRequest`]. What cannot be read is None.
pub enum SweepReply {
    List(Option<Vec<Entry>>),
    Read(Option<String>),
    /// Whether the file was written.
    Cleared(bool),
}

/// A [`SweepRequest`] with its texts and places.
pub enum RequestView {
    List { place: Seq<Seq<u8>> },
    Read { place: Seq<Seq<u8>> },
    Clear { place: Seq<Seq<u8>>, body: Seq<char> },
    Done { cleared: nat },
}

/// A [`SweepReply`] with its texts and places.
pub enum ReplyView {
    List(Option<Seq<EntryView>>),
    Read(Option<Seq<char>>),
    Cleared(bool),
}

impl View for SweepRequest {
    type V = RequestView;

    open spec fn view(&self) -> RequestView {
        match self {
            SweepRequest::List { place } => RequestView::List { place: place@ },
            SweepRequest::Read { place } => RequestView::Read { place: place@ },
            SweepRequest::Clear { place, body } => RequestView::Clear {
                place: place@,
                body: body@,
            },
            SweepRequest::Done { cleared } => RequestView::Done { cleared: *cleared as nat },
        }
    }
}

impl View for SweepReply {
    type V = ReplyView;

    open spec fn view(&self) -> ReplyView {
        match self {
            SweepReply::List(es) => ReplyView::List(tree::listing(*es)),
            SweepReply::Read(c) => ReplyView::Read(text::opt(*c)),
            SweepReply::Cleared(ok) => ReplyView::Cleared(*ok),
        }
    }
}

/// A directory to list, or a file to look at.
struct Work {
    place: Place,
    is_dir: bool,
}

/// A directory to list, or a file to look at.
pub struct WorkView {
    pub place: Seq<Seq<u8>>,
    pub is_dir: bool,
}

impl View for Work {
    type V = WorkView;

    closed spec fn view(&self) -> WorkView {
        WorkView { place: self.place@, is_dir: self.is_dir }
    }
}

/// A sweep through a directory.
pub struct Sweep {
    root: String,
    drm_key: String,
    boost_bytes: u64,
    pending: Vec<Work>,
    /// The file that is being cleared.
    clearing: Option<Place>,
    cleared: Vec<Place>,
}

/// A [`Sweep`] with its texts and places.
pub struct SweepView {
    pub root: Seq<char>,
    pub key: Seq<char>,
    pub boost: u64,
    pub pending: Seq<WorkView>,
    pub clearing: Option<Seq<Seq<u8>>>,
    pub cleared: Seq<Seq<Seq<u8>>>,
}

spec fn works(v: Seq<Work>) -> Seq<WorkView> {
    Seq::new(v.len(), |i: int| v[i]@)
}

impl View for Sweep {
    type V = SweepView;

    closed spec fn view(&self) -> SweepView {
        SweepView {
            root: self.root@,
            key: self.drm_key@,
            boost: self.boost_bytes,
            pending: works(self.pending@),
            clearing: match self.clearing {
                Some(p) => Some(p@),
                None => None,
            },
            cleared: tree::places(self.cleared@),
        }
    }
}

/// The sweep through `root` at its start.
pub open spec fn start(root: Seq<char>, key: Seq<char>, boost: u64) -> SweepView {
    SweepView {
        root,
        key,
        boost,
        pending: seq![WorkView { place: Seq::empty(), is_dir: true }],
        clearing: None,
        cleared: Seq::empty(),
    }
}

/// The file `place` below `root` is a `dmem.low` under `app.slice`.
pub open spec fn may_hold_boost(root: Seq<char>, place: Seq<Seq<u8>>) -> bool {
    place.last() == encode_utf8("dmem.low"@) && scope::in_app_slice(tree::path_text(root, place))
}

/// What an entry of the directory `dir` gives to do.
pub open spec fn work_for(root: Seq<char>, dir: Seq<Seq<u8>>, e: EntryView) -> Option<WorkView> {
    let place = dir.push(e.name);
    match e.is_dir {
        Some(true) => Some(WorkView { place, is_dir: true }),
        Some(false) => if may_hold_boost(root, place) {
            Some(WorkView { place, is_dir: false })
        } else {
            None
        },
        None => None,
    }
}

/// What the entries `es` of the directory `dir` give to do.
pub open spec fn work_in(root: Seq<char>, dir: Seq<Seq<u8>>, es: Seq<EntryView>) -> Seq<WorkView>
    decreases es.len(),
{
    if es.len() == 0 {
        Seq::empty()
    } else {
        let before = work_in(root, dir, es.drop_last());
        match work_for(root, dir, es.last()) {
            Some(w) => before.push(w),
            None => before,
        }
    }
}

/// What has to be done next.
pub open spec fn request(s: SweepView) -> RequestView {
    match s.clearing {
        Some(place) => RequestView::Clear { place, body: dmem::entry_line(s.key, "0"@) },
        None => if s.pending.len() == 0 {
            RequestView::Done { cleared: s.cleared.len() }
        } else if s.pending.last().is_dir {
            RequestView::List { place: s.pending.last().place }
        } else {
            RequestView::Read { place: s.pending.last().place }
        },
    }
}

/// The body of a file holds the boost.
pub open spec fn boosted(s: SweepView, content: Option<Seq<char>>) -> bool {
    content matches Some(c) && dmem::holds(c, s.key, s.boost)
}

/// What the answer `reply` leads to. An answer of the wrong kind leaves the
/// sweep as it is.
pub open spec fn answered(s: SweepView, reply: ReplyView) -> SweepView {
    match (request(s), reply) {
        (RequestView::List { place }, ReplyView::List(es)) => SweepView {
            pending: s.pending.drop_last() + match es {
                Some(es) => work_in(s.root, place, es),
                None => Seq::empty(),
            },
            ..s
        },
        (RequestView::Read { place }, ReplyView::Read(content)) => SweepView {
            pending: s.pending.drop_last(),
            clearing: if boosted(s, content) {
                Some(place)
            } else {
                None
            },
            ..s
        },
        (RequestView::Clear { place, body }, ReplyView::Cleared(ok)) => SweepView {
            clearing: None,
            cleared: if ok {
                s.cleared.push(place)
            } else {
                s.cleared
            },
            ..s
        },
        _ => s,
    }
}

/// Start clearing `dmem.low` values left behind by a crashed or SIGKILLed
/// daemon. Only app.slice scopes whose value for the selected `drm_key` equals
/// the boost value are cleared; unrelated values are left untouched. Scoped to
/// `root` (the own user-<uid>.slice) to avoid touching other users' cgroups.
pub fn cleanup_stale_boosts(root: &str, drm_key: &str, boost_bytes: u64) -> (r: Sweep)
    ensures
        r@ == start(root@, drm_key@, boost_bytes),
{
    let mut pending: Vec<Work> = Vec::new();
    pending.push(Work { place: Place::top(), is_dir: true });
    let r = Sweep {
        root: root.to_string(),
        drm_key: drm_key.to_string(),
        boost_bytes,
        pending,
        clearing: None,
        cleared: Vec::new(),
    };
    proof {
        let s = start(root@, drm_key@, boost_bytes);
        assert(r@.pending[0].place == s.pending[0].place);
        assert(r@.pending == s.pending);
        assert(r@.cleared == s.cleared);
    }
    r
}

impl Sweep {
    /// What has to be done next, or how many values were cleared.
    pub fn next(&self) -> (r: SweepRequest)
        ensures
            r@ == request(self@),
    {
        if let Some(place) = &self.clearing {
            return SweepRequest::Clear {
                place: place.copy(),
                body: dmem::entry_body(self.drm_key.as_str(), "0"),
            };
        }
        let n: usize = self.pending.len();
        if n == 0 {
            return SweepRequest::Done { cleared: self.cleared.len() };
        }
        let place = self.pending[n - 1].place.copy();
        proof { assert(self@.pending.last() == self.pending@[n - 1]@); }
        if self.pending[n - 1].is_dir {
            SweepRequest::List { place }
        } else {
            SweepRequest::Read { place }
        }
    }

    fn add_work(&mut self, dir: &Place, e: &Entry)
        ensures
            final(self)@ == (SweepView {
                pending: match work_for(old(self)@.root, dir@, e@) {
                    Some(w) => old(self)@.pending.push(w),
                    None => old(self)@.pending,
                },
                ..old(self)@
            }),
    {
        let ghost before = self@;
        let is_dir = match e.is_dir {
            Some(d) => d,
            None => {
                return;
            },
        };
        let place = dir.child(e.name.as_slice());
        let wanted = is_dir || {
            let path = place.path_below(self.root.as_str());
            bytes::same_bytes(e.name.as_slice(), "dmem.low".as_bytes()) && scope::is_app_scope(
                path.as_str(),
            )
        };
        proof { assert(dir@.push(e.name@).last() == e.name@); }
        if wanted {
            self.pending.push(Work { place, is_dir });
            proof {
                assert(self@.pending == before.pending.push(WorkView { place: place@, is_dir }));
            }
        }
    }

    /// Go on with the answer to the last request.
    pub fn answer(&mut self, reply: SweepReply)
        ensures
            final(self)@ == answered(old(self)@, reply@),
    {
        let ghost before = self@;
        match (self.next(), reply) {
            (SweepRequest::List { place }, SweepReply::List(es)) => {
                let _ = self.pending.pop();
                proof { assert(self@.pending == before.pending.drop_last()); }
                if let Some(es) = es {
                    let ghost all = tree::entries(es@);
                    let ghost rest = self@.pending;
                    let mut i: usize = 0;
                    proof {
                        assert(self@.pending == rest + work_in(before.root, place@, all.take(0)));
                    }
                    while i < es.len()
                        invariant
                            i <= es.len(),
                            all == tree::entries(es@),
                            self@ == (SweepView {
                                pending: rest + work_in(before.root, place@, all.take(i as int)),
                                ..before
                            }),
                        decreases es.len() - i,
                    {
                        proof {
                            assert(all.take(i + 1).drop_last() == all.take(i as int));
                            assert(all.take(i + 1).last() == es@[i as int]@);
                        }
                        self.add_work(&place, &es[i]);
                        proof {
                            assert(self@.pending == rest + work_in(
                                before.root,
                                place@,
                                all.take(i + 1),
                            ));
                        }
                        i += 1;
                    }
                    proof { assert(all.take(i as int) == all); }
                } else {
                    proof { assert(self@.pending == before.pending.drop_last() + Seq::empty()); }
                }
            },
            (SweepRequest::Read { place }, SweepReply::Read(content)) => {
                let _ = self.pending.pop();
                proof { assert(self@.pending == before.pending.drop_last()); }
                let stale = match content {
                    Some(c) => dmem::dmem_low_has_value(
                        c.as_str(),
                        self.drm_key.as_str(),
                        self.boost_bytes,
                    ),
                    None => false,
                };
                if stale {
                    self.clearing = Some(place);
                }
            },
            (SweepRequest::Clear { place, body }, SweepReply::Cleared(ok)) => {
                self.clearing = None;
                if ok {
                    self.cleared.push(place);
                    proof { assert(self@.cleared == before.cleared.push(place@)); }
                }
            },
            _ => {},
        }
    }
}

} // verus!
