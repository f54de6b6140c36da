//! What a sweep comes to, for any state of the directory that it goes through.

use vstd::prelude::*;
use vstd::utf8::*;

use crate::dmem;
use crate::scope;
use crate::seqs;
use crate::sweep;
use crate::sweep::{ReplyView, RequestView, SweepView, WorkView};
use crate::text;
use crate::tree;
use crate::tree::EntryView;
use crate::units;
use crate::units::Listings;

verus! {

/// What the sweep meets: the directories, what the files hold, and which of
/// them can be written.
pub struct Disk {
    pub listings: Listings,
    pub content: spec_fn(Seq<Seq<u8>>) -> Option<Seq<char>>,
    pub writable: spec_fn(Seq<Seq<u8>>) -> bool,
}

/// `p` is a directory below the swept one, or that one itself.
pub open spec fn reached(d: Disk, p: Seq<Seq<u8>>) -> bool
    decreases p.len(),
{
    p.len() == 0 || (reached(d, p.drop_last()) && units::holds_dir(
        d.listings,
        p.drop_last(),
        p.last(),
    ))
}

/// `p` is listed below the swept directory as something else than a directory.
pub open spec fn is_file(d: Disk, p: Seq<Seq<u8>>) -> bool {
    p.len() > 0 && reached(d, p.drop_last()) && match (d.listings.of)(p.drop_last()) {
        Some(es) => es.contains(EntryView { name: p.last(), is_dir: Some(false) }),
        None => false,
    }
}

/// `p` is a boost that was left behind.
pub open spec fn stale(d: Disk, s: SweepView, p: Seq<Seq<u8>>) -> bool {
    is_file(d, p) && sweep::may_hold_boost(s.root, p) && sweep::boosted(s, (d.content)(p))
}

/// What the disk answers.
pub open spec fn reply(d: Disk, s: SweepView) -> ReplyView {
    match sweep::request(s) {
        RequestView::List { place } => ReplyView::List((d.listings.of)(place)),
        RequestView::Read { place } => ReplyView::Read((d.content)(place)),
        RequestView::Clear { place, body } => ReplyView::Cleared((d.writable)(place)),
        RequestView::Done { .. } => ReplyView::Cleared(false),
    }
}

/// The sweep one answer later.
pub open spec fn step(d: Disk, s: SweepView) -> SweepView {
    sweep::answered(s, reply(d, s))
}

/// The sweep `k` answers later.
pub open spec fn after(d: Disk, s: SweepView, k: nat) -> SweepView
    decreases k,
{
    if k == 0 {
        s
    } else {
        after(d, step(d, s), (k - 1) as nat)
    }
}

/// The file `p` is still to be looked at, or lies below a directory that is
/// still to be listed.
pub open spec fn ahead(s: SweepView, p: Seq<Seq<u8>>) -> bool {
    ||| s.pending.contains(WorkView { place: p, is_dir: false })
    ||| exists|n: int|
        0 <= n < p.len() && s.pending.contains(
            WorkView { place: #[trigger] p.take(n), is_dir: true },
        )
}

/// What is pending is there.
pub open spec fn sound(d: Disk, s: SweepView, w: WorkView) -> bool {
    if w.is_dir {
        reached(d, w.place)
    } else {
        is_file(d, w.place) && sweep::may_hold_boost(s.root, w.place)
    }
}

/// What holds at every point of a sweep: it touches only boosts that were left
/// behind, and every one that can be cleared is cleared, in hand or ahead.
pub open spec fn covers(d: Disk, s: SweepView) -> bool {
    &&& forall|w: WorkView| #[trigger] s.pending.contains(w) ==> sound(d, s, w)
    &&& s.clearing matches Some(p) ==> stale(d, s, p)
    &&& forall|p: Seq<Seq<u8>>| #[trigger]
        s.cleared.contains(p) ==> stale(d, s, p) && (d.writable)(p)
    &&& forall|p: Seq<Seq<u8>>|
        stale(d, s, p) && (d.writable)(p) ==> #[trigger] s.cleared.contains(p) || s.clearing
            == Some(p) || ahead(s, p)
}

proof fn lemma_work_in(root: Seq<char>, dir: Seq<Seq<u8>>, es: Seq<EntryView>, w: WorkView)
    ensures
        sweep::work_in(root, dir, es).contains(w) <==> w.place.len() > 0 && w.place.drop_last()
            == dir && es.contains(EntryView { name: w.place.last(), is_dir: Some(w.is_dir) }) && (
        w.is_dir || sweep::may_hold_boost(root, w.place)),
    decreases es.len(),
{
    if es.len() > 0 {
        let front = es.drop_last();
        let e = es.last();
        let before = sweep::work_in(root, dir, front);
        lemma_work_in(root, dir, front, w);
        let wanted = EntryView { name: w.place.last(), is_dir: Some(w.is_dir) };
        assert(es == front.push(e));
        seqs::lemma_contains_push(front, e, wanted);
        let q = dir.push(e.name);
        assert(q.drop_last() == dir);
        if w.place.len() > 0 && w.place.drop_last() == dir && w.place.last() == e.name {
            assert(w.place == q);
        }
        match sweep::work_for(root, dir, e) {
            Some(x) => {
                seqs::lemma_contains_push(before, x, w);
                assert(x.place == q);
            },
            None => {},
        }
    }
}

proof fn lemma_reached_prefix(d: Disk, p: Seq<Seq<u8>>, n: int)
    requires
        reached(d, p),
        0 <= n < p.len(),
    ensures
        units::holds_dir(d.listings, p.take(n), p[n]),
    decreases p.len(),
{
    let front = p.drop_last();
    if n == p.len() - 1 {
        assert(p.take(n) == front);
    } else {
        lemma_reached_prefix(d, front, n);
        assert(front.take(n) == p.take(n));
        assert(front[n] == p[n]);
    }
}

proof fn lemma_stale_same(d: Disk, s: SweepView, t: SweepView)
    requires
        s.root == t.root,
        s.key == t.key,
        s.boost == t.boost,
    ensures
        forall|p: Seq<Seq<u8>>| stale(d, s, p) == #[trigger] stale(d, t, p),
        forall|w: WorkView| sound(d, s, w) == #[trigger] sound(d, t, w),
{
}

proof fn lemma_listed(d: Disk, s: SweepView)
    requires
        covers(d, s),
        s.clearing is None,
        s.pending.len() > 0,
        s.pending.last().is_dir,
    ensures
        covers(d, step(d, s)),
{
    let t = step(d, s);
    let top = s.pending.last();
    let dir = top.place;
    let rest = s.pending.drop_last();
    let new = match (d.listings.of)(dir) {
        Some(es) => sweep::work_in(s.root, dir, es),
        None => Seq::empty(),
    };
    assert(t.pending == rest + new);
    assert(s.pending == rest.push(top));
    lemma_stale_same(d, s, t);
    seqs::lemma_contains_push(rest, top, top);
    assert(sound(d, s, top));
    assert forall|w: WorkView| #[trigger] t.pending.contains(w) implies sound(d, t, w) by {
        seqs::lemma_contains_add(rest, new, w);
        seqs::lemma_contains_push(rest, top, w);
        assert(s.pending.contains(w) ==> sound(d, s, w));
        if new.contains(w) {
            lemma_work_in(s.root, dir, (d.listings.of)(dir)->0, w);
        }
        assert(sound(d, s, w));
    }
    assert forall|p: Seq<Seq<u8>>| #[trigger] t.cleared.contains(p) implies stale(d, t, p)
        && (d.writable)(p) by {
        assert(s.cleared.contains(p));
        assert(stale(d, s, p));
    }
    assert forall|p: Seq<Seq<u8>>| stale(d, t, p) && (d.writable)(p) implies #[trigger]
    t.cleared.contains(p) || t.clearing == Some(p) || ahead(t, p) by {
        assert(stale(d, s, p));
        if !s.cleared.contains(p) {
            assert(ahead(s, p));
            let file = WorkView { place: p, is_dir: false };
            if s.pending.contains(file) {
                seqs::lemma_contains_push(rest, top, file);
                seqs::lemma_contains_add(rest, new, file);
            } else {
                let n = choose|n: int|
                    0 <= n < p.len() && s.pending.contains(
                        WorkView { place: #[trigger] p.take(n), is_dir: true },
                    );
                let w = WorkView { place: p.take(n), is_dir: true };
                seqs::lemma_contains_push(rest, top, w);
                seqs::lemma_contains_add(rest, new, w);
                if !rest.contains(w) {
                    assert(w == top);
                    let es = (d.listings.of)(dir)->0;
                    if n == p.len() - 1 {
                        assert(p.take(n) == p.drop_last());
                        lemma_work_in(s.root, dir, es, file);
                        seqs::lemma_contains_add(rest, new, file);
                    } else {
                        let front = p.drop_last();
                        lemma_reached_prefix(d, front, n);
                        assert(front.take(n) == p.take(n));
                        assert(front[n] == p[n]);
                        let q = p.take(n + 1);
                        assert(q.drop_last() == dir);
                        assert(q.last() == p[n]);
                        let below = WorkView { place: q, is_dir: true };
                        lemma_work_in(s.root, dir, es, below);
                        seqs::lemma_contains_add(rest, new, below);
                        assert(t.pending.contains(
                            WorkView { place: p.take(n + 1), is_dir: true },
                        ));
                    }
                } else {
                    assert(t.pending.contains(WorkView { place: p.take(n), is_dir: true }));
                }
            }
        }
    }
}

proof fn lemma_read(d: Disk, s: SweepView)
    requires
        covers(d, s),
        s.clearing is None,
        s.pending.len() > 0,
        !s.pending.last().is_dir,
    ensures
        covers(d, step(d, s)),
{
    let t = step(d, s);
    let top = s.pending.last();
    let rest = s.pending.drop_last();
    assert(t.pending == rest);
    assert(s.pending == rest.push(top));
    lemma_stale_same(d, s, t);
    seqs::lemma_contains_push(rest, top, top);
    assert(sound(d, s, top));
    assert forall|w: WorkView| #[trigger] t.pending.contains(w) implies sound(d, t, w) by {
        seqs::lemma_contains_push(rest, top, w);
        assert(s.pending.contains(w));
        assert(sound(d, s, w));
    }
    assert forall|p: Seq<Seq<u8>>| #[trigger] t.cleared.contains(p) implies stale(d, t, p)
        && (d.writable)(p) by {
        assert(s.cleared.contains(p));
        assert(stale(d, s, p));
    }
    if let Some(p) = t.clearing {
        assert(p == top.place);
        assert(stale(d, s, p));
        assert(stale(d, t, p));
    }
    assert forall|p: Seq<Seq<u8>>| stale(d, t, p) && (d.writable)(p) implies #[trigger]
    t.cleared.contains(p) || t.clearing == Some(p) || ahead(t, p) by {
        assert(stale(d, s, p));
        if !s.cleared.contains(p) {
            assert(ahead(s, p));
            let file = WorkView { place: p, is_dir: false };
            if s.pending.contains(file) {
                seqs::lemma_contains_push(rest, top, file);
            } else {
                let n = choose|n: int|
                    0 <= n < p.len() && s.pending.contains(
                        WorkView { place: #[trigger] p.take(n), is_dir: true },
                    );
                let w = WorkView { place: p.take(n), is_dir: true };
                seqs::lemma_contains_push(rest, top, w);
                assert(t.pending.contains(WorkView { place: p.take(n), is_dir: true }));
            }
        }
    }
}

proof fn lemma_cleared(d: Disk, s: SweepView)
    requires
        covers(d, s),
        s.clearing is Some,
    ensures
        covers(d, step(d, s)),
{
    let t = step(d, s);
    let done = s.clearing->0;
    lemma_stale_same(d, s, t);
    assert forall|w: WorkView| #[trigger] t.pending.contains(w) implies sound(d, t, w) by {
        assert(s.pending.contains(w));
        assert(sound(d, s, w));
    }
    assert forall|p: Seq<Seq<u8>>| #[trigger] t.cleared.contains(p) implies stale(d, t, p)
        && (d.writable)(p) by {
        seqs::lemma_contains_push(s.cleared, done, p);
        assert(s.cleared.contains(p) ==> stale(d, s, p));
        assert(stale(d, s, p));
    }
    assert forall|p: Seq<Seq<u8>>| stale(d, t, p) && (d.writable)(p) implies #[trigger]
    t.cleared.contains(p) || t.clearing == Some(p) || ahead(t, p) by {
        assert(stale(d, s, p));
        seqs::lemma_contains_push(s.cleared, done, p);
        if !s.cleared.contains(p) && p != done {
            assert(ahead(s, p));
            if !s.pending.contains(WorkView { place: p, is_dir: false }) {
                let n = choose|n: int|
                    0 <= n < p.len() && s.pending.contains(
                        WorkView { place: #[trigger] p.take(n), is_dir: true },
                    );
                assert(t.pending.contains(WorkView { place: p.take(n), is_dir: true }));
            }
        }
    }
}

proof fn lemma_covers_after(d: Disk, s: SweepView, k: nat)
    requires
        covers(d, s),
    ensures
        covers(d, after(d, s, k)),
        after(d, s, k).root == s.root,
        after(d, s, k).key == s.key,
        after(d, s, k).boost == s.boost,
    decreases k,
{
    if k > 0 {
        if s.clearing is Some {
            lemma_cleared(d, s);
        } else if s.pending.len() > 0 {
            if s.pending.last().is_dir {
                lemma_listed(d, s);
            } else {
                lemma_read(d, s);
            }
        }
        lemma_covers_after(d, step(d, s), (k - 1) as nat);
    }
}

proof fn lemma_start_covers(d: Disk, s: SweepView)
    requires
        s == sweep::start(s.root, s.key, s.boost),
    ensures
        covers(d, s),
{
    let top = WorkView { place: Seq::empty(), is_dir: true };
    assert(s.pending[0] == top);
    assert forall|p: Seq<Seq<u8>>| stale(d, s, p) implies ahead(s, p) by {
        assert(p.take(0) == top.place);
        assert(s.pending.contains(WorkView { place: p.take(0), is_dir: true }));
    }
}

/// A sweep that is over has cleared every boost left behind under `app.slice`
/// that could be written, and nothing else.
pub proof fn sweep_clears_what_is_stale(
    d: Disk,
    root: Seq<char>,
    key: Seq<char>,
    boost: u64,
    k: nat,
    p: Seq<Seq<u8>>,
)
    requires
        sweep::request(after(d, sweep::start(root, key, boost), k)) is Done,
    ensures
        after(d, sweep::start(root, key, boost), k).cleared.contains(p) <==> stale(
            d,
            sweep::start(root, key, boost),
            p,
        ) && (d.writable)(p),
{
    let s = sweep::start(root, key, boost);
    lemma_start_covers(d, s);
    lemma_covers_after(d, s, k);
    let t = after(d, s, k);
    lemma_stale_same(d, s, t);
    assert(stale(d, s, p) == stale(d, t, p));
    assert(!ahead(t, p));
}

/// Whatever a sweep writes, it writes to a file called `dmem.low` that is
/// listed under `app.slice` and held exactly the boost for the GPU, and sets
/// the GPU to zero there.
pub proof fn sweep_leaves_other_values_alone(
    d: Disk,
    root: Seq<char>,
    key: Seq<char>,
    boost: u64,
    k: nat,
)
    ensures
        sweep::request(after(d, sweep::start(root, key, boost), k)) matches RequestView::Clear {
            place,
            body,
        } ==> {
            &&& is_file(d, place) && place.last() == encode_utf8("dmem.low"@)
            &&& scope::in_app_slice(tree::path_text(root, place))
            &&& (d.content)(place) matches Some(c) && dmem::holds(c, key, boost)
            &&& body == dmem::entry_line(key, "0"@)
            &&& key.len() > 0 && text::no_white(key) ==> dmem::holds(body, key, 0)
        },
{
    let s = sweep::start(root, key, boost);
    lemma_start_covers(d, s);
    lemma_covers_after(d, s, k);
    reveal_strlit("0");
    assert(text::decimal(0) =~= "0"@);
    if key.len() > 0 && text::no_white(key) {
        dmem::bytes_read_after_write(key, 0, 0);
    }
}

/// The places that are pending.
pub open spec fn pending_places(s: SweepView) -> Seq<Seq<Seq<u8>>> {
    work_places(s.pending)
}

/// What holds at every point of a sweep through directories that list each
/// name once: it is not about to come to a place again.
pub open spec fn once(s: SweepView) -> bool {
    &&& seqs::apart(pending_places(s))
    &&& seqs::clear_of(pending_places(s), s.cleared)
    &&& s.clearing matches Some(p) ==> !s.cleared.contains(p) && seqs::clear_of(
        pending_places(s),
        seq![p],
    )
    &&& s.cleared.no_duplicates()
}

/// The places of the work in `ws`.
pub open spec fn work_places(ws: Seq<WorkView>) -> Seq<Seq<Seq<u8>>> {
    ws.map_values(|w: WorkView| w.place)
}

proof fn lemma_work_once(root: Seq<char>, dir: Seq<Seq<u8>>, es: Seq<EntryView>)
    requires
        units::names_once(es),
    ensures
        seqs::distinct_kids(dir, work_places(sweep::work_in(root, dir, es))),
    decreases es.len(),
{
    let ws = sweep::work_in(root, dir, es);
    let places = work_places(ws);
    assert forall|i: int| 0 <= i < places.len() implies (#[trigger] places[i]).len() > 0
        && places[i].drop_last() == dir by {
        assert(ws.contains(ws[i]));
        lemma_work_in(root, dir, es, ws[i]);
    }
    if es.len() > 0 {
        let front = es.drop_last();
        let e = es.last();
        assert(units::names_once(front)) by {
            assert forall|i: int, j: int|
                0 <= i < front.len() && 0 <= j < front.len() && i != j implies (
            #[trigger] front[i]).name != (#[trigger] front[j]).name by {
                assert(front[i] == es[i] && front[j] == es[j]);
            }
        }
        lemma_work_once(root, dir, front);
        let before = sweep::work_in(root, dir, front);
        let earlier = work_places(before);
        assert forall|i: int| 0 <= i < earlier.len() implies #[trigger] earlier[i] != dir.push(
            e.name,
        ) by {
            let w = before[i];
            assert(before.contains(w));
            lemma_work_in(root, dir, front, w);
            let listed = EntryView { name: w.place.last(), is_dir: Some(w.is_dir) };
            let k = choose|k: int| 0 <= k < front.len() && front[k] == listed;
            assert(es[k].name != es[es.len() - 1].name);
            assert(dir.push(e.name).last() == e.name);
        }
        assert forall|i: int, j: int|
            0 <= i < places.len() && 0 <= j < places.len() && i != j implies places[i]
            != places[j] by {
            if i < earlier.len() {
                assert(places[i] == earlier[i]);
            }
            if j < earlier.len() {
                assert(places[j] == earlier[j]);
            }
            if i < earlier.len() && j < earlier.len() {
                assert(earlier[i] != earlier[j]);
            }
        }
    }
}

proof fn lemma_once_step(d: Disk, s: SweepView)
    requires
        units::lists_names_once(d.listings),
        once(s),
    ensures
        once(step(d, s)),
{
    let t = step(d, s);
    let dirs = pending_places(s);
    if let Some(p) = s.clearing {
        assert(pending_places(t) == dirs);
        assert forall|i: int, j: int|
            0 <= i < dirs.len() && 0 <= j < t.cleared.len() implies !(
        #[trigger] dirs[i]).is_prefix_of(#[trigger] t.cleared[j]) by {
            if j < s.cleared.len() {
                assert(t.cleared[j] == s.cleared[j]);
            } else {
                assert(t.cleared[j] == seq![p][0]);
            }
        }
        assert forall|i: int, j: int|
            0 <= i < t.cleared.len() && 0 <= j < t.cleared.len() && i != j implies t.cleared[i]
            != t.cleared[j] by {
            if i < s.cleared.len() && j < s.cleared.len() {
                assert(s.cleared[i] != s.cleared[j]);
            } else if i < s.cleared.len() {
                assert(s.cleared.contains(s.cleared[i]));
            } else if j < s.cleared.len() {
                assert(s.cleared.contains(s.cleared[j]));
            }
        }
    } else if s.pending.len() > 0 {
        let top = s.pending.last();
        let n = s.pending.len() - 1;
        assert(dirs.last() == top.place);
        if top.is_dir {
            let new = match (d.listings.of)(top.place) {
                Some(es) => sweep::work_in(s.root, top.place, es),
                None => Seq::empty(),
            };
            if let Some(es) = (d.listings.of)(top.place) {
                lemma_work_once(s.root, top.place, es);
            }
            seqs::lemma_kids_apart(dirs, work_places(new), s.cleared);
            assert(pending_places(t) == dirs.drop_last() + work_places(new));
        } else {
            assert(pending_places(t) == dirs.drop_last());
            assert forall|i: int, j: int|
                0 <= i < n && 0 <= j < n && i != j implies !(
            #[trigger] pending_places(t)[i]).is_prefix_of(#[trigger] pending_places(t)[j]) by {
                assert(!dirs[i].is_prefix_of(dirs[j]));
            }
            assert forall|i: int, j: int| 0 <= i < n && 0 <= j < s.cleared.len() implies !(
            #[trigger] pending_places(t)[i]).is_prefix_of(#[trigger] s.cleared[j]) by {
                assert(!dirs[i].is_prefix_of(s.cleared[j]));
            }
            let p = top.place;
            assert forall|i: int, j: int| 0 <= i < n && 0 <= j < 1 implies !(
            #[trigger] pending_places(t)[i]).is_prefix_of(#[trigger] seq![p][j]) by {
                assert(!dirs[i].is_prefix_of(dirs[n]));
            }
            if s.cleared.contains(p) {
                let j = choose|j: int| 0 <= j < s.cleared.len() && s.cleared[j] == p;
                assert(p.take(p.len() as int) == p);
                assert(!dirs[n].is_prefix_of(s.cleared[j]));
            }
        }
    }
}

proof fn lemma_once_after(d: Disk, s: SweepView, k: nat)
    requires
        units::lists_names_once(d.listings),
        once(s),
    ensures
        once(after(d, s, k)),
    decreases k,
{
    if k > 0 {
        lemma_once_step(d, s);
        lemma_once_after(d, step(d, s), (k - 1) as nat);
    }
}

/// Where each directory lists a name once, a sweep clears no file twice, so the
/// number it ends with is the number of files that it cleared.
pub proof fn sweep_clears_each_file_once(
    d: Disk,
    root: Seq<char>,
    key: Seq<char>,
    boost: u64,
    k: nat,
)
    requires
        units::lists_names_once(d.listings),
    ensures
        after(d, sweep::start(root, key, boost), k).cleared.no_duplicates(),
        sweep::request(after(d, sweep::start(root, key, boost), k)) matches RequestView::Done {
            cleared,
        } ==> cleared == after(d, sweep::start(root, key, boost), k).cleared.to_set().len(),
{
    let s = sweep::start(root, key, boost);
    assert(pending_places(s).len() == 1);
    lemma_once_after(d, s, k);
    after(d, s, k).cleared.unique_seq_to_set();
}

/// The disk once the files `cleared` were written to set the GPU `key` to zero.
pub open spec fn swept(d: Disk, key: Seq<char>, cleared: Seq<Seq<Seq<u8>>>) -> Disk {
    Disk {
        content: |p: Seq<Seq<u8>>|
            if cleared.contains(p) {
                Some(dmem::entry_line(key, "0"@))
            } else {
                (d.content)(p)
            },
        ..d
    }
}

/// A second sweep over what a first one left clears nothing.
pub proof fn second_sweep_clears_nothing(
    d: Disk,
    root: Seq<char>,
    key: Seq<char>,
    boost: u64,
    k1: nat,
    k2: nat,
)
    requires
        key.len() > 0,
        text::no_white(key),
        boost > 0,
        sweep::request(after(d, sweep::start(root, key, boost), k1)) is Done,
        sweep::request(
            after(
                swept(d, key, after(d, sweep::start(root, key, boost), k1).cleared),
                sweep::start(root, key, boost),
                k2,
            ),
        ) is Done,
    ensures
        sweep::request(
            after(
                swept(d, key, after(d, sweep::start(root, key, boost), k1).cleared),
                sweep::start(root, key, boost),
                k2,
            ),
        ) == (RequestView::Done { cleared: 0 }),
{
    let s = sweep::start(root, key, boost);
    let first = after(d, s, k1).cleared;
    let e = swept(d, key, first);
    let second = after(e, s, k2).cleared;
    if second.len() > 0 {
        let p = second[0];
        assert(second.contains(p));
        sweep_clears_what_is_stale(e, root, key, boost, k2, p);
        sweep_clears_what_is_stale(d, root, key, boost, k1, p);
        lemma_same_places(d, e, p.drop_last());
        reveal_strlit("0");
        assert(text::decimal(0) =~= "0"@);
        dmem::bytes_read_after_write(key, 0, boost);
        assert(stale(e, s, p));
        if !first.contains(p) {
            assert((e.content)(p) == (d.content)(p));
            assert(stale(d, s, p));
        }
    }
}

/// What is reached depends on the directories alone.
proof fn lemma_same_places(d: Disk, e: Disk, p: Seq<Seq<u8>>)
    requires
        d.listings == e.listings,
    ensures
        reached(d, p) == reached(e, p),
    decreases p.len(),
{
    if p.len() > 0 {
        lemma_same_places(d, e, p.drop_last());
    }
}

proof fn lemma_after_sum(d: Disk, s: SweepView, j: nat, k: nat)
    ensures
        after(d, s, j + k) == after(d, after(d, s, j), k),
    decreases j,
{
    if j > 0 {
        lemma_after_sum(d, step(d, s), (j - 1) as nat, k);
    }
}

proof fn lemma_work_ends(d: Disk, s: SweepView, rest: Seq<WorkView>, w: WorkView, depth: nat) -> (k:
    nat)
    requires
        s.clearing is None,
        s.pending == rest.push(w),
        w.is_dir ==> reached(d, w.place),
        forall|p: Seq<Seq<u8>>| #[trigger] reached(d, p) ==> p.len() <= depth,
    ensures
        after(d, s, k).pending == rest,
        after(d, s, k).clearing is None,
    decreases
            (if w.is_dir {
                2 * (depth - w.place.len()) + 3
            } else {
                1
            }),
            0nat,
{
    assert(s.pending.last() == w);
    assert(s.pending.drop_last() == rest);
    let t = step(d, s);
    if w.is_dir {
        let dir = w.place;
        assert(reached(d, dir));
        let new = match (d.listings.of)(dir) {
            Some(es) => sweep::work_in(s.root, dir, es),
            None => Seq::empty(),
        };
        assert forall|i: int| 0 <= i < new.len() && (#[trigger] new[i]).is_dir implies reached(
            d,
            new[i].place,
        ) && new[i].place.len() == dir.len() + 1 by {
            assert(new.contains(new[i]));
            lemma_work_in(s.root, dir, (d.listings.of)(dir)->0, new[i]);
        }
        let k = lemma_all_ends(d, t, rest, new, dir.len() + 1, depth);
        assert(after(d, s, k + 1) == after(d, t, k));
        k + 1
    } else if t.clearing is Some {
        let u = step(d, t);
        assert(after(d, u, 0) == u);
        assert(after(d, t, 1) == u);
        assert(after(d, s, 2) == u);
        2
    } else {
        assert(after(d, t, 0) == t);
        assert(after(d, s, 1) == t);
        1
    }
}

proof fn lemma_all_ends(
    d: Disk,
    s: SweepView,
    rest: Seq<WorkView>,
    new: Seq<WorkView>,
    level: nat,
    depth: nat,
) -> (k: nat)
    requires
        level <= depth + 1,
        s.clearing is None,
        s.pending == rest + new,
        forall|i: int|
            0 <= i < new.len() && (#[trigger] new[i]).is_dir ==> reached(d, new[i].place)
                && new[i].place.len() == level,
        forall|p: Seq<Seq<u8>>| #[trigger] reached(d, p) ==> p.len() <= depth,
    ensures
        after(d, s, k).pending == rest,
        after(d, s, k).clearing is None,
    decreases 2 * (depth + 1 - level) + 2, new.len(),
{
    if new.len() == 0 {
        assert(rest + new == rest);
        0
    } else {
        let w = new[new.len() - 1];
        let front = new.drop_last();
        assert(rest + new == (rest + front).push(w));
        assert(w.is_dir ==> reached(d, w.place));
        let j = lemma_work_ends(d, s, rest + front, w, depth);
        let mid = after(d, s, j);
        assert forall|i: int| 0 <= i < front.len() && (#[trigger] front[i]).is_dir implies reached(
            d,
            front[i].place,
        ) && front[i].place.len() == level by {
            assert(front[i] == new[i]);
        }
        let k = lemma_all_ends(d, mid, rest, front, level, depth);
        lemma_after_sum(d, s, j, k);
        j + k
    }
}

/// A sweep through directories that are nowhere deeper than `depth` ends.
pub proof fn sweep_ends(d: Disk, root: Seq<char>, key: Seq<char>, boost: u64, depth: nat) -> (k:
    nat)
    requires
        forall|p: Seq<Seq<u8>>| #[trigger] reached(d, p) ==> p.len() <= depth,
    ensures
        sweep::request(after(d, sweep::start(root, key, boost), k)) is Done,
{
    let s = sweep::start(root, key, boost);
    let top = WorkView { place: Seq::empty(), is_dir: true };
    assert(s.pending == Seq::<WorkView>::empty().push(top));
    let k = lemma_work_ends(d, s, Seq::empty(), top, depth);
    k
}

proof fn lemma_reached_chain(d: Disk, p: Seq<Seq<u8>>)
    ensures
        reached(d, p) <==> forall|n: int|
            0 <= n < p.len() ==> match #[trigger] (d.listings.of)(p.take(n)) {
                Some(es) => es.contains(EntryView { name: p[n], is_dir: Some(true) }),
                None => false,
            },
    decreases p.len(),
{
    if p.len() > 0 {
        let front = p.drop_last();
        lemma_reached_chain(d, front);
        let last = p.len() - 1;
        assert(p.take(last) == front);
        assert forall|n: int| 0 <= n < front.len() implies #[trigger] front.take(n) == p.take(n)
            && front[n] == p[n] by {}
        if reached(d, front) && units::holds_dir(d.listings, front, p.last()) {
            assert forall|n: int| 0 <= n < p.len() implies match #[trigger] (d.listings.of)(
                p.take(n),
            ) {
                Some(es) => es.contains(EntryView { name: p[n], is_dir: Some(true) }),
                None => false,
            } by {
                if n < last {
                    let _ = (d.listings.of)(front.take(n));
                }
            }
        }
        if forall|n: int|
            0 <= n < p.len() ==> match #[trigger] (d.listings.of)(p.take(n)) {
                Some(es) => es.contains(EntryView { name: p[n], is_dir: Some(true) }),
                None => false,
            } {
            let _ = (d.listings.of)(p.take(last));
            assert forall|n: int| 0 <= n < front.len() implies match #[trigger] (d.listings.of)(
                front.take(n),
            ) {
                Some(es) => es.contains(EntryView { name: front[n], is_dir: Some(true) }),
                None => false,
            } by {
                let _ = (d.listings.of)(p.take(n));
            }
        }
    }
}

/// Which files a sweep clears, however deep they lie: those that are listed, as
/// something else than a directory, in a directory that is reached through
/// directories that are listed as such; that are called `dmem.low`; whose path
/// has `app.slice` as a component; that hold exactly the boost for the GPU; and
/// that can be written. And no others.
pub proof fn cleared_files_are_these(
    d: Disk,
    root: Seq<char>,
    key: Seq<char>,
    boost: u64,
    k: nat,
    p: Seq<Seq<u8>>,
)
    requires
        sweep::request(after(d, sweep::start(root, key, boost), k)) is Done,
    ensures
        after(d, sweep::start(root, key, boost), k).cleared.contains(p) <==> {
            &&& p.len() > 0
            &&& forall|n: int|
                0 <= n < p.len() - 1 ==> match #[trigger] (d.listings.of)(p.take(n)) {
                    Some(es) => es.contains(EntryView { name: p[n], is_dir: Some(true) }),
                    None => false,
                }
            &&& match (d.listings.of)(p.take(p.len() - 1)) {
                Some(es) => es.contains(
                    EntryView { name: p[p.len() - 1], is_dir: Some(false) },
                ),
                None => false,
            }
            &&& p[p.len() - 1] == encode_utf8("dmem.low"@)
            &&& text::split(tree::path_text(root, p), '/').contains("app.slice"@)
            &&& match (d.content)(p) {
                Some(c) => dmem::holds(c, key, boost),
                None => false,
            }
            &&& (d.writable)(p)
        },
{
    sweep_clears_what_is_stale(d, root, key, boost, k, p);
    if p.len() > 0 {
        let front = p.drop_last();
        lemma_reached_chain(d, front);
        assert(p.take(p.len() - 1) == front);
        assert forall|n: int| 0 <= n < front.len() implies #[trigger] front.take(n) == p.take(n)
            && front[n] == p[n] by {}
        if reached(d, front) {
            assert forall|n: int| 0 <= n < p.len() - 1 implies match #[trigger] (d.listings.of)(
                p.take(n),
            ) {
                Some(es) => es.contains(EntryView { name: p[n], is_dir: Some(true) }),
                None => false,
            } by {
                let _ = (d.listings.of)(front.take(n));
            }
        }
        if forall|n: int|
            0 <= n < p.len() - 1 ==> match #[trigger] (d.listings.of)(p.take(n)) {
                Some(es) => es.contains(EntryView { name: p[n], is_dir: Some(true) }),
                None => false,
            } {
            assert forall|n: int| 0 <= n < front.len() implies match #[trigger] (d.listings.of)(
                front.take(n),
            ) {
                Some(es) => es.contains(EntryView { name: front[n], is_dir: Some(true) }),
                None => false,
            } by {
                let _ = (d.listings.of)(p.take(n));
            }
        }
    }
    let path = text::split(tree::path_text(root, p), '/');
    assert(path.contains("app.slice"@) <==> scope::in_app_slice(tree::path_text(root, p)));
}

/// What a directory gives to do, entry by entry and in their order: a directory
/// is to be listed; a file called `dmem.low` under `app.slice` is to be read;
/// anything else is passed over.
pub proof fn entries_give_these_to_do(
    root: Seq<char>,
    dir: Seq<Seq<u8>>,
    a: Seq<EntryView>,
    e: EntryView,
    b: Seq<EntryView>,
)
    ensures
        sweep::work_in(root, dir, a + b) == sweep::work_in(root, dir, a) + sweep::work_in(
            root,
            dir,
            b,
        ),
        e.is_dir == Some(true) ==> sweep::work_in(root, dir, seq![e]) == seq![
            WorkView { place: dir.push(e.name), is_dir: true },
        ],
        e.is_dir == Some(false) && e.name == encode_utf8("dmem.low"@) && text::split(
            tree::path_text(root, dir.push(e.name)),
            '/',
        ).contains("app.slice"@) ==> sweep::work_in(root, dir, seq![e]) == seq![
            WorkView { place: dir.push(e.name), is_dir: false },
        ],
        e.is_dir is None || (e.is_dir == Some(false) && (e.name != encode_utf8("dmem.low"@)
            || !text::split(tree::path_text(root, dir.push(e.name)), '/').contains("app.slice"@)))
            ==> sweep::work_in(root, dir, seq![e]).len() == 0,
    decreases b.len(),
{
    let none = Seq::<EntryView>::empty();
    assert(seq![e].drop_last() == none);
    assert(sweep::work_in(root, dir, none) == Seq::<WorkView>::empty());
    if b.len() == 0 {
        assert(a + b == a);
        assert(sweep::work_in(root, dir, a) + sweep::work_in(root, dir, b) == sweep::work_in(
            root,
            dir,
            a,
        ));
    } else {
        entries_give_these_to_do(root, dir, a, e, b.drop_last());
        assert((a + b).drop_last() == a + b.drop_last());
        assert((a + b).last() == b.last());
    }
}

/// A sweep takes up last what was found first: it goes on with the last thing
/// to do, and puts what a directory gives behind the rest.
pub proof fn last_found_is_taken_up_first(
    s: SweepView,
    rest: Seq<WorkView>,
    w: WorkView,
    es: Seq<EntryView>,
    content: Option<Seq<char>>,
)
    requires
        s.clearing is None,
        s.pending == rest.push(w),
    ensures
        w.is_dir ==> {
            &&& sweep::request(s) == (RequestView::List { place: w.place })
            &&& sweep::answered(s, ReplyView::List(Some(es))) == (SweepView {
                pending: rest + sweep::work_in(s.root, w.place, es),
                ..s
            })
            &&& sweep::answered(s, ReplyView::List(None)) == (SweepView { pending: rest, ..s })
        },
        !w.is_dir ==> {
            &&& sweep::request(s) == (RequestView::Read { place: w.place })
            &&& sweep::answered(s, ReplyView::Read(content)) == (SweepView {
                pending: rest,
                clearing: if content is Some && dmem::holds(content->0, s.key, s.boost) {
                    Some(w.place)
                } else {
                    None
                },
                ..s
            })
        },
{
    assert(s.pending.drop_last() == rest);
    assert(s.pending.last() == w);
    assert(rest + Seq::<WorkView>::empty() == rest);
}

/// An answer to another question changes nothing, and what is over stays so.
pub proof fn other_answers_change_nothing(s: SweepView, r: ReplyView)
    requires
        match sweep::request(s) {
            RequestView::List { .. } => !(r is List),
            RequestView::Read { .. } => !(r is Read),
            RequestView::Clear { .. } => !(r is Cleared),
            RequestView::Done { .. } => true,
        },
    ensures
        sweep::answered(s, r) == s,
{
}

} // verus!
