//! What a search by app id comes to, for any state of the machine that it
//! reads.

use vstd::prelude::*;

use crate::app_search;
use crate::app_search::{Look, ReplyView, SearchView, StageView};
use crate::matcher;
use crate::seqs;
use crate::text;
use crate::tree;
use crate::units;
use crate::units::Listings;

verus! {

/// What the search reads: the directories below `app.slice`, the processes of
/// its units, and their environments and command names.
pub struct Machine {
    pub listings: Listings,
    pub procs: spec_fn(Seq<Seq<u8>>) -> Option<Seq<char>>,
    pub environ: spec_fn(Seq<char>) -> Option<Seq<u8>>,
    pub comm: spec_fn(Seq<char>) -> Option<Seq<char>>,
}

/// The process `pid` identifies `app_id`.
pub open spec fn process_hit(m: Machine, look: Look, pid: Seq<char>, app_id: Seq<char>) -> bool {
    match look {
        Look::Environ => app_search::environ_hit((m.environ)(pid), app_id),
        Look::Comm => app_search::comm_hit((m.comm)(pid), app_id),
    }
}

/// One of the processes of the unit `p` identifies `app_id`.
pub open spec fn unit_hit(m: Machine, look: Look, p: Seq<Seq<u8>>, app_id: Seq<char>) -> bool {
    (m.procs)(p) matches Some(c) && {
        let pids = app_search::listed_pids(look, c);
        exists|k: int| 0 <= k < pids.len() && process_hit(m, look, #[trigger] pids[k], app_id)
    }
}

/// Those of the units whose processes identify `app_id`.
pub open spec fn by_processes(
    m: Machine,
    look: Look,
    us: Seq<Seq<Seq<u8>>>,
    app_id: Seq<char>,
) -> Seq<Seq<Seq<u8>>> {
    us.filter(|p: Seq<Seq<u8>>| unit_hit(m, look, p, app_id))
}

/// The units that match `app_id`: by game id, else by name, else by command.
pub open spec fn matching(m: Machine, us: Seq<Seq<Seq<u8>>>, app_id: Seq<char>) -> Seq<
    Seq<Seq<u8>>,
> {
    let by_game = by_processes(m, Look::Environ, us, app_id);
    let by_name = app_search::by_name(us, app_id);
    if matcher::game_id(app_id) is Some && by_game.len() > 0 {
        by_game
    } else if by_name.len() > 0 {
        by_name
    } else {
        by_processes(m, Look::Comm, us, app_id)
    }
}

/// What the machine answers.
pub open spec fn reply(m: Machine, s: SearchView) -> ReplyView {
    match s.stage {
        StageView::Walk { walk } => ReplyView::List((m.listings.of)(walk.pending.last())),
        StageView::Procs { look, i } => ReplyView::Procs((m.procs)(s.units[i])),
        StageView::Process { look, i, pids, k } => match look {
            Look::Environ => ReplyView::Environ((m.environ)(pids[k])),
            Look::Comm => ReplyView::Comm((m.comm)(pids[k])),
        },
        StageView::Done => ReplyView::Expired,
    }
}

/// The search `k` answers later.
pub open spec fn after(m: Machine, s: SearchView, k: nat) -> SearchView
    decreases k,
{
    if k == 0 {
        s
    } else {
        after(m, app_search::answered(s, reply(m, s)), (k - 1) as nat)
    }
}

proof fn lemma_after_sum(m: Machine, s: SearchView, j: nat, k: nat)
    ensures
        after(m, s, j + k) == after(m, after(m, s, j), k),
    decreases j,
{
    if j > 0 {
        lemma_after_sum(m, app_search::answered(s, reply(m, s)), (j - 1) as nat, k);
    }
}

/// The processes from the `k`th on decide whether the unit is a hit.
proof fn lemma_processes(
    m: Machine,
    s: SearchView,
    look: Look,
    i: int,
    pids: Seq<Seq<char>>,
    k: int,
) -> (n: nat)
    requires
        0 <= k <= pids.len(),
        0 <= i < s.units.len(),
    ensures
        ({
            let hit = exists|j: int|
                k <= j < pids.len() && process_hit(m, look, #[trigger] pids[j], s.app_id);
            after(m, app_search::at_process(s, look, i, pids, k), n) == app_search::next_unit(
                if hit {
                    SearchView { hits: s.hits.push(s.units[i]), ..s }
                } else {
                    s
                },
                look,
                i,
            )
        }),
    decreases pids.len() - k,
{
    if k == pids.len() {
        0
    } else {
        let now = SearchView { stage: StageView::Process { look, i, pids, k }, ..s };
        assert(app_search::at_process(s, look, i, pids, k) == now);
        let hit = process_hit(m, look, pids[k], s.app_id);
        let next = app_search::answered(now, reply(m, now));
        assert(next == app_search::looked(now, look, i, pids, k, hit));
        if hit {
            assert(after(m, next, 0) == next);
            assert(after(m, now, 1) == next);
            lemma_stage_is_set(s, now.stage, look, i);
            1
        } else {
            let n = lemma_processes(m, s, look, i, pids, k + 1);
            lemma_stage_is_set(s, now.stage, look, i);
            assert(next == app_search::at_process(s, look, i, pids, k + 1));
            n + 1
        }
    }
}

/// Where the search stood does not matter for where the next unit takes it.
proof fn lemma_stage_is_set(s: SearchView, stage: StageView, look: Look, i: int)
    ensures
        app_search::next_unit(SearchView { stage, ..s }, look, i) == app_search::next_unit(
            s,
            look,
            i,
        ),
        app_search::next_unit(
            SearchView { stage, hits: s.hits.push(s.units[i]), ..s },
            look,
            i,
        ) == app_search::next_unit(SearchView { hits: s.hits.push(s.units[i]), ..s }, look, i),
{
}

/// The search over the processes of all units, from the `i`th on.
proof fn lemma_pass(m: Machine, s: SearchView, look: Look, i: int) -> (n: nat)
    requires
        0 <= i < s.units.len(),
        s.hits == by_processes(m, look, s.units.take(i), s.app_id),
    ensures
        after(m, SearchView { stage: StageView::Procs { look, i }, ..s }, n)
            == app_search::next_unit(
            SearchView { hits: by_processes(m, look, s.units, s.app_id), ..s },
            look,
            s.units.len() - 1,
        ),
    decreases s.units.len() - i,
{
    reveal(Seq::filter);
    let now = SearchView { stage: StageView::Procs { look, i }, ..s };
    let p = s.units[i];
    let hit = unit_hit(m, look, p, s.app_id);
    let with = SearchView {
        hits: if hit {
            s.hits.push(p)
        } else {
            s.hits
        },
        ..s
    };
    assert(s.units.take(i + 1).drop_last() == s.units.take(i));
    assert(s.units.take(i + 1).last() == p);
    assert(with.hits == by_processes(m, look, s.units.take(i + 1), s.app_id));
    let next = app_search::answered(now, reply(m, now));
    let n1: nat = match (m.procs)(p) {
        None => {
            assert(next == app_search::next_unit(now, look, i));
            assert(after(m, next, 0) == next);
            0
        },
        Some(c) => {
            let pids = app_search::listed_pids(look, c);
            assert(next == app_search::at_process(now, look, i, pids, 0));
            lemma_processes(m, now, look, i, pids, 0)
        },
    };
    let end = app_search::next_unit(
        SearchView { hits: with.hits, ..now },
        look,
        i,
    );
    assert(after(m, next, n1) == end) by {
        if hit {
            assert(SearchView { hits: now.hits.push(now.units[i]), ..now } == SearchView {
                hits: with.hits,
                ..now
            });
        }
    }
    assert(after(m, now, n1 + 1) == end);
    if i + 1 == s.units.len() {
        assert(s.units.take(i + 1) == s.units);
        n1 + 1
    } else {
        let n2 = lemma_pass(m, with, look, i + 1);
        assert(end == SearchView { stage: StageView::Procs { look, i: i + 1 }, ..with });
        lemma_after_sum(m, now, n1 + 1, n2);
        n1 + 1 + n2
    }
}

/// The state in which `us` are found to match.
pub open spec fn ended(s: SearchView, us: Seq<Seq<Seq<u8>>>, hits: Seq<Seq<Seq<u8>>>) -> SearchView {
    SearchView { units: us, hits, stage: StageView::Done, ..s }
}

proof fn lemma_match_names(m: Machine, s: SearchView) -> (n: nat)
    requires
        s.hits.len() == 0,
    ensures
        after(m, app_search::match_names(s), n) == ended(
            s,
            s.units,
            if app_search::by_name(s.units, s.app_id).len() > 0 {
                app_search::by_name(s.units, s.app_id)
            } else {
                by_processes(m, Look::Comm, s.units, s.app_id)
            },
        ),
{
    reveal(Seq::filter);
    if app_search::by_name(s.units, s.app_id).len() > 0 {
        0
    } else if s.units.len() == 0 {
        assert(s.hits == by_processes(m, Look::Comm, s.units, s.app_id));
        0
    } else {
        assert(s.units.take(0).len() == 0);
        assert(s.hits == by_processes(m, Look::Comm, s.units.take(0), s.app_id));
        lemma_pass(m, s, Look::Comm, 0)
    }
}

proof fn lemma_with_units(m: Machine, s: SearchView, found: Seq<Seq<Seq<u8>>>) -> (n: nat)
    requires
        s.hits.len() == 0,
    ensures
        after(m, app_search::with_units(s, found), n) == ended(
            s,
            units::ordered(found),
            matching(m, units::ordered(found), s.app_id),
        ),
{
    reveal(Seq::filter);
    let us = units::ordered(found);
    let t = SearchView { units: us, ..s };
    if matcher::game_id(s.app_id) is Some {
        if us.len() == 0 {
            assert(s.hits == by_processes(m, Look::Comm, us, s.app_id));
            0
        } else {
            assert(us.take(0).len() == 0);
            assert(t.hits == by_processes(m, Look::Environ, us.take(0), t.app_id));
            let begun = app_search::begin(t, Look::Environ);
            let n1 = lemma_pass(m, t, Look::Environ, 0);
            let by_game = by_processes(m, Look::Environ, us, s.app_id);
            let mid = SearchView { hits: by_game, ..t };
            if by_game.len() > 0 {
                n1
            } else {
                assert(by_game == t.hits);
                let n2 = lemma_match_names(m, mid);
                lemma_after_sum(m, begun, n1, n2);
                n1 + n2
            }
        }
    } else {
        lemma_match_names(m, t)
    }
}

proof fn lemma_walk(m: Machine, s: SearchView, k: nat) -> (n: nat)
    requires
        app_search::valid(s),
        s.stage matches StageView::Walk { walk } && units::walked(
            m.listings,
            walk,
            k,
        ).pending.len() == 0,
    ensures
        after(m, s, n) == app_search::with_units(
            s,
            units::walked(m.listings, s.stage->walk, k).found,
        ),
    decreases k,
{
    let walk = s.stage->walk;
    let next = units::walk_on(walk, (m.listings.of)(walk.pending.last()));
    let t = app_search::answered(s, reply(m, s));
    assert(k > 0);
    if next.pending.len() > 0 {
        let n = lemma_walk(m, t, (k - 1) as nat);
        n + 1
    } else {
        assert(units::walked(m.listings, next, (k - 1) as nat) == next);
        assert(after(m, t, 0) == t);
        assert(after(m, s, 1) == t);
        1
    }
}

/// A search whose time is not up ends, and what it has found are the units that
/// match the app id: those whose processes carry its game id where it has one,
/// else those named after it, else those whose processes are. Where each
/// directory lists a name once, the units it chooses from are all different.
/// `depth` is how deep the slices lie.
pub proof fn search_finds_the_matches(
    m: Machine,
    app_slice: Seq<char>,
    app_id: Seq<char>,
    depth: nat,
) -> (r: (nat, Seq<Seq<Seq<u8>>>))
    requires
        forall|p: Seq<Seq<u8>>| #[trigger] units::reached(m.listings, p) ==> p.len() <= depth,
    ensures
        after(m, app_search::start(app_slice, app_id), r.0) == ended(
            app_search::start(app_slice, app_id),
            r.1,
            matching(m, r.1, app_id),
        ),
        units::sorted(r.1),
        forall|p: Seq<Seq<u8>>| #[trigger] r.1.contains(p) <==> units::is_unit(m.listings, p),
        units::lists_names_once(m.listings) ==> r.1.no_duplicates(),
{
    let s = app_search::start(app_slice, app_id);
    let k = units::walk_ends(m.listings, depth);
    let found = units::walked(m.listings, units::walk_start(), k).found;
    let us = units::ordered(found);
    let n1 = lemma_walk(m, s, k);
    let n2 = lemma_with_units(m, s, found);
    lemma_after_sum(m, s, n1, n2);
    units::ordering_sorts(found);
    if units::lists_names_once(m.listings) {
        units::walk_finds_each_unit_once(m.listings, k);
    }
    assert forall|p: Seq<Seq<u8>>| #[trigger] us.contains(p) <==> units::is_unit(
        m.listings,
        p,
    ) by {
        units::walk_finds_the_units(m.listings, k, p);
    }
    (n1 + n2, us)
}

/// Every unit that matches is one of the units, of several the first by name
/// comes first, and none counts twice where the units are all different.
pub proof fn matches_are_units(m: Machine, us: Seq<Seq<Seq<u8>>>, app_id: Seq<char>)
    requires
        units::sorted(us),
    ensures
        forall|p: Seq<Seq<u8>>| #[trigger] matching(m, us, app_id).contains(p) ==> us.contains(p),
        units::sorted(matching(m, us, app_id)),
        us.no_duplicates() ==> matching(m, us, app_id).no_duplicates(),
{
    lemma_filter_sorted(us, |p: Seq<Seq<u8>>| unit_hit(m, Look::Environ, p, app_id));
    lemma_filter_sorted(us, |p: Seq<Seq<u8>>| unit_hit(m, Look::Comm, p, app_id));
    lemma_filter_sorted(us, |p: Seq<Seq<u8>>| app_search::named_after(p, app_id));
}

proof fn lemma_filter_sorted(us: Seq<Seq<Seq<u8>>>, f: spec_fn(Seq<Seq<u8>>) -> bool)
    requires
        units::sorted(us),
    ensures
        units::sorted(us.filter(f)),
        forall|p: Seq<Seq<u8>>| #[trigger] us.filter(f).contains(p) ==> us.contains(p) && f(p),
        us.no_duplicates() ==> us.filter(f).no_duplicates(),
    decreases us.len(),
{
    reveal(Seq::filter);
    if us.len() > 0 {
        let front = us.drop_last();
        assert(units::sorted(front)) by {
            assert forall|i: int, j: int| 0 <= i <= j < front.len() implies units::in_order(
                #[trigger] front[i],
                #[trigger] front[j],
            ) by {
                assert(front[i] == us[i] && front[j] == us[j]);
            }
        }
        lemma_filter_sorted(front, f);
        let kept = front.filter(f);
        let all = us.filter(f);
        if us.no_duplicates() {
            assert forall|i: int, j: int|
                0 <= i < front.len() && 0 <= j < front.len() && i != j implies front[i]
                != front[j] by {
                assert(us[i] != us[j]);
            }
            if kept.contains(us.last()) {
                let q = choose|q: int| 0 <= q < front.len() && front[q] == us.last();
                assert(us[q] != us[us.len() - 1]);
            }
            assert forall|i: int, j: int|
                0 <= i < all.len() && 0 <= j < all.len() && i != j implies all[i] != all[j] by {
                if i < kept.len() && j < kept.len() {
                    assert(kept[i] != kept[j]);
                } else if i < kept.len() {
                    assert(kept.contains(kept[i]));
                } else {
                    assert(kept.contains(kept[j]));
                }
            }
        }
        assert forall|p: Seq<Seq<u8>>| #[trigger] all.contains(p) implies us.contains(p) && f(
            p,
        ) by {
            let i = choose|i: int| 0 <= i < all.len() && all[i] == p;
            if i < kept.len() {
                assert(kept[i] == p);
                assert(kept.contains(p));
                let j = choose|j: int| 0 <= j < front.len() && front[j] == p;
                assert(us[j] == p);
            } else {
                assert(us[us.len() - 1] == p);
            }
        }
        assert forall|i: int, j: int| 0 <= i <= j < all.len() implies units::in_order(
            #[trigger] all[i],
            #[trigger] all[j],
        ) by {
            if j < kept.len() {
                assert(all[i] == kept[i] && all[j] == kept[j]);
            } else {
                assert(all[j] == us.last());
                if i < kept.len() {
                    assert(all[i] == kept[i]);
                    assert(kept.contains(kept[i]));
                    let q = choose|q: int| 0 <= q < front.len() && front[q] == kept[i];
                    assert(us[q] == kept[i]);
                    assert(units::in_order(us[q], us[us.len() - 1]));
                } else {
                    assert(units::in_order(us[us.len() - 1], us[us.len() - 1]));
                }
            }
        }
    }
}

/// Once the time is up, a search that is not over has found nothing.
pub proof fn late_search_finds_nothing(s: SearchView)
    requires
        !(s.stage is Done),
    ensures
        app_search::query(app_search::answered(s, ReplyView::Expired)) == (
        app_search::QueryView::Done { unit: None, matches: 0 }),
{
}

/// Once a search is over nothing changes it.
pub proof fn result_stays(s: SearchView, reply: ReplyView)
    requires
        s.stage is Done,
    ensures
        app_search::answered(s, reply) == s,
{
}

/// Which processes of a unit are looked at: the lines of its `cgroup.procs`
/// file, each of them and in their order, or the first sixty-four of them for
/// their command names and two hundred and fifty-six for their environments.
pub proof fn first_processes_are_looked_at(content: Seq<char>, i: int)
    ensures
        ({
            let all = text::lines(content);
            let comms = app_search::listed_pids(Look::Comm, content);
            let environs = app_search::listed_pids(Look::Environ, content);
            &&& comms.len() == (if all.len() > 64 { 64 } else { all.len() })
            &&& environs.len() == (if all.len() > 256 { 256 } else { all.len() })
            &&& 0 <= i < all.len() && i < 64 ==> comms[i] == all[i]
            &&& 0 <= i < all.len() && i < 256 ==> environs[i] == all[i]
        }),
{
}

/// A unit is found by its processes if one of those that are looked at, in any
/// place on the list, identifies the app: by its command name among the first
/// sixty-four, or by the game id in its environment among the first two hundred
/// and fifty-six.
pub proof fn any_process_can_identify(m: Machine, p: Seq<Seq<u8>>, app_id: Seq<char>)
    ensures
        unit_hit(m, Look::Comm, p, app_id) <==> (m.procs)(p) is Some && exists|i: int|
            {
                &&& 0 <= i < text::lines((m.procs)(p)->0).len() && i < 64
                &&& match (m.comm)(#[trigger] text::lines((m.procs)(p)->0)[i]) {
                    Some(c) => matcher::command_identifies(c, app_id),
                    None => false,
                }
            },
        unit_hit(m, Look::Environ, p, app_id) <==> (m.procs)(p) is Some && matcher::game_id(app_id)
            is Some && exists|i: int|
            {
                &&& 0 <= i < text::lines((m.procs)(p)->0).len() && i < 256
                &&& match (m.environ)(#[trigger] text::lines((m.procs)(p)->0)[i]) {
                    Some(b) => matcher::names_game(b, matcher::game_id(app_id)->0),
                    None => false,
                }
            },
{
    if let Some(c) = (m.procs)(p) {
        let all = text::lines(c);
        let comms = app_search::listed_pids(Look::Comm, c);
        let environs = app_search::listed_pids(Look::Environ, c);
        assert forall|i: int| 0 <= i < all.len() && i < 64 implies #[trigger] all[i]
            == comms[i] by {
            first_processes_are_looked_at(c, i);
        }
        assert forall|i: int| 0 <= i < all.len() && i < 256 implies #[trigger] all[i]
            == environs[i] by {
            first_processes_are_looked_at(c, i);
        }
        first_processes_are_looked_at(c, 0);
        if unit_hit(m, Look::Comm, p, app_id) {
            let k = choose|k: int|
                0 <= k < comms.len() && process_hit(m, Look::Comm, #[trigger] comms[k], app_id);
            assert(all[k] == comms[k]);
        }
        if unit_hit(m, Look::Environ, p, app_id) {
            let k = choose|k: int|
                0 <= k < environs.len() && process_hit(
                    m,
                    Look::Environ,
                    #[trigger] environs[k],
                    app_id,
                );
            assert(all[k] == environs[k]);
        }
        if exists|i: int|
            0 <= i < all.len() && i < 64 && match (m.comm)(#[trigger] all[i]) {
                Some(c) => matcher::command_identifies(c, app_id),
                None => false,
            } {
            let i = choose|i: int|
                0 <= i < all.len() && i < 64 && match (m.comm)(#[trigger] all[i]) {
                    Some(c) => matcher::command_identifies(c, app_id),
                    None => false,
                };
            assert(process_hit(m, Look::Comm, comms[i], app_id));
        }
        if matcher::game_id(app_id) is Some && exists|i: int|
            0 <= i < all.len() && i < 256 && match (m.environ)(#[trigger] all[i]) {
                Some(b) => matcher::names_game(b, matcher::game_id(app_id)->0),
                None => false,
            } {
            let i = choose|i: int|
                0 <= i < all.len() && i < 256 && match (m.environ)(#[trigger] all[i]) {
                    Some(b) => matcher::names_game(b, matcher::game_id(app_id)->0),
                    None => false,
                };
            assert(process_hit(m, Look::Environ, environs[i], app_id));
        }
    }
}

/// Which of the units match an app id: where some are found by its game id,
/// those; else, where some are named after it, those; else those that are found
/// by a command name.
pub proof fn matching_units_are_these(
    m: Machine,
    us: Seq<Seq<Seq<u8>>>,
    app_id: Seq<char>,
    p: Seq<Seq<u8>>,
)
    ensures
        matching(m, us, app_id).contains(p) <==> us.contains(p) && {
            let by_game = |q: Seq<Seq<u8>>| unit_hit(m, Look::Environ, q, app_id);
            let by_name = |q: Seq<Seq<u8>>|
                matcher::name_identifies(matcher::plain_name(tree::label_text(q)), app_id);
            let by_comm = |q: Seq<Seq<u8>>| unit_hit(m, Look::Comm, q, app_id);
            if exists|q: Seq<Seq<u8>>| #[trigger] us.contains(q) && by_game(q) {
                by_game(p)
            } else if exists|q: Seq<Seq<u8>>| #[trigger] us.contains(q) && by_name(q) {
                by_name(p)
            } else {
                by_comm(p)
            }
        },
{
    let by_game = |q: Seq<Seq<u8>>| unit_hit(m, Look::Environ, q, app_id);
    let by_name = |q: Seq<Seq<u8>>|
        matcher::name_identifies(matcher::plain_name(tree::label_text(q)), app_id);
    let by_comm = |q: Seq<Seq<u8>>| unit_hit(m, Look::Comm, q, app_id);
    let named = |q: Seq<Seq<u8>>| app_search::named_after(q, app_id);
    lemma_filtered(us, by_game);
    lemma_filtered(us, named);
    lemma_filtered(us, by_comm);
    assert forall|q: Seq<Seq<u8>>| #[trigger] by_game(q) implies matcher::game_id(app_id) is Some by {
        any_process_can_identify(m, q, app_id);
    }
    let g = us.filter(by_game);
    let n = us.filter(named);
    if g.len() > 0 {
        assert(g.contains(g[0]));
        assert(us.contains(g[0]) && by_game(g[0]));
    }
    if n.len() > 0 {
        assert(n.contains(n[0]));
        assert(us.contains(n[0]) && by_name(n[0]));
    }
    if exists|q: Seq<Seq<u8>>| #[trigger] us.contains(q) && by_game(q) {
        let q = choose|q: Seq<Seq<u8>>| #[trigger] us.contains(q) && by_game(q);
        assert(g.contains(q));
    }
    if exists|q: Seq<Seq<u8>>| #[trigger] us.contains(q) && by_name(q) {
        let q = choose|q: Seq<Seq<u8>>| #[trigger] us.contains(q) && by_name(q);
        assert(named(q));
        assert(n.contains(q));
    }
}

proof fn lemma_filtered(us: Seq<Seq<Seq<u8>>>, f: spec_fn(Seq<Seq<u8>>) -> bool)
    ensures
        forall|p: Seq<Seq<u8>>| #[trigger] us.filter(f).contains(p) <==> us.contains(p) && f(p),
    decreases us.len(),
{
    reveal(Seq::filter);
    if us.len() > 0 {
        let front = us.drop_last();
        lemma_filtered(front, f);
        assert(us == front.push(us.last()));
        assert forall|p: Seq<Seq<u8>>| #[trigger] us.filter(f).contains(p) <==> us.contains(p)
            && f(p) by {
            seqs::lemma_contains_push(front, us.last(), p);
            seqs::lemma_contains_push(front.filter(f), us.last(), p);
            assert(front.filter(f).contains(p) <==> front.contains(p) && f(p));
        }
    }
}

/// What the machine answers to a question.
pub open spec fn answer_to(m: Machine, q: app_search::QueryView) -> ReplyView {
    match q {
        app_search::QueryView::List { place } => ReplyView::List((m.listings.of)(place)),
        app_search::QueryView::Procs { place } => ReplyView::Procs((m.procs)(place)),
        app_search::QueryView::Environ { pid } => ReplyView::Environ((m.environ)(pid)),
        app_search::QueryView::Comm { pid } => ReplyView::Comm((m.comm)(pid)),
        app_search::QueryView::Done { .. } => ReplyView::Expired,
    }
}

/// A search goes on with what it asked for: its question names the very place
/// or process that the answer is taken to be about.
pub proof fn searches_ask_for_what_they_go_on_with(m: Machine, s: SearchView)
    ensures
        reply(m, s) == answer_to(m, app_search::query(s)),
        app_search::query(s) is Done <==> s.stage is Done,
{
}

/// What a search whose time is not up ends with: nothing where no unit matches,
/// else the path of the match that comes first by name, whichever way it was
/// found; and how many match.
pub proof fn first_match_by_name_is_found(
    m: Machine,
    app_slice: Seq<char>,
    app_id: Seq<char>,
    depth: nat,
) -> (r: (nat, Seq<Seq<Seq<u8>>>))
    requires
        forall|p: Seq<Seq<u8>>| #[trigger] units::reached(m.listings, p) ==> p.len() <= depth,
    ensures
        ({
            let end = app_search::query(after(m, app_search::start(app_slice, app_id), r.0));
            let hits = matching(m, r.1, app_id);
            &&& end is Done
            &&& end->matches == hits.len()
            &&& hits.len() == 0 ==> end->unit is None
            &&& hits.len() > 0 ==> end->unit == Some(tree::path_text(app_slice, hits[0]))
            &&& forall|p: Seq<Seq<u8>>| #[trigger]
                hits.contains(p) ==> units::in_order(hits[0], p)
        }),
        forall|p: Seq<Seq<u8>>| #[trigger] r.1.contains(p) <==> units::is_unit(m.listings, p),
{
    let r = search_finds_the_matches(m, app_slice, app_id, depth);
    let hits = matching(m, r.1, app_id);
    matches_are_units(m, r.1, app_id);
    assert forall|p: Seq<Seq<u8>>| #[trigger] hits.contains(p) implies units::in_order(
        hits[0],
        p,
    ) by {
        let i = choose|i: int| 0 <= i < hits.len() && hits[i] == p;
        assert(units::in_order(hits[0], hits[i]));
    }
    r
}

/// An answer to another question changes nothing.
pub proof fn other_answers_change_nothing(s: SearchView, r: ReplyView)
    requires
        !(r is Expired),
        match app_search::query(s) {
            app_search::QueryView::List { .. } => !(r is List),
            app_search::QueryView::Procs { .. } => !(r is Procs),
            app_search::QueryView::Environ { .. } => !(r is Environ),
            app_search::QueryView::Comm { .. } => !(r is Comm),
            app_search::QueryView::Done { .. } => true,
        },
    ensures
        app_search::answered(s, r) == s,
{
}

} // verus!
