//! What a search through `/proc` finds, and how much of it it reads.

use vstd::prelude::*;

use crate::pid_search;
use crate::pid_search::{FrameView, QueryView, ReplyView, SearchView, MAX_CHILDREN};
use crate::scope;
use crate::text;

verus! {

/// What a search is told: whether the time is up when it is about to look at
/// the cgroup of the `n`th process, and what the `/proc` files hold.
pub struct Proc {
    pub expired: spec_fn(nat) -> bool,
    pub cgroup: spec_fn(u32) -> Option<Seq<char>>,
    pub tasks: spec_fn(u32) -> Option<Seq<Seq<char>>>,
    pub children: spec_fn(u32, u32) -> Option<Seq<char>>,
}

/// The children that the body of a `children` file lists.
pub open spec fn listed(content: Option<Seq<char>>) -> Option<Seq<u32>> {
    match content {
        Some(c) => Some(pid_search::ids(text::words(text::trim(c)))),
        None => None,
    }
}

/// The unit of `pid`, which is `depth` generations below where the search
/// began, or of the first of its descendants that is in one; `n` processes
/// have been looked at before. With it, how many have been afterwards.
pub open spec fn unit_at(p: Proc, pid: u32, depth: nat, max_depth: nat, n: nat) -> (
    Option<Seq<char>>,
    nat,
)
    decreases 2 * (max_depth - depth) + 1, 0nat, 0nat,
{
    if depth > max_depth || (p.expired)(n) {
        (None, n + 1)
    } else {
        match pid_search::unit_in_proc((p.cgroup)(pid)) {
            Some(u) => (Some(u), n + 1),
            None => match (p.tasks)(pid) {
                Some(names) if depth < max_depth => unit_below(
                    p,
                    FrameView {
                        pid,
                        tids: pid_search::ids(names),
                        kids: Seq::empty(),
                        visited: 0,
                    },
                    depth,
                    max_depth,
                    n + 1,
                ),
                _ => (None, n + 1),
            },
        }
    }
}

/// The unit of the first of the children `f` has left that is in one. After
/// [`MAX_CHILDREN`] children without one the process is given up.
pub open spec fn unit_below(p: Proc, f: FrameView, depth: nat, max_depth: nat, n: nat) -> (
    Option<Seq<char>>,
    nat,
)
    decreases 2 * (max_depth - depth), f.tids.len(), f.kids.len(),
{
    if depth >= max_depth {
        (None, n)
    } else if f.kids.len() > 0 {
        let (found, n1) = unit_at(p, f.kids[0], depth + 1, max_depth, n);
        if found is Some || f.visited + 1 >= MAX_CHILDREN {
            (found, n1)
        } else {
            unit_below(
                p,
                FrameView { kids: f.kids.skip(1), visited: f.visited + 1, ..f },
                depth,
                max_depth,
                n1,
            )
        }
    } else if f.tids.len() > 0 {
        let kids = match listed((p.children)(f.pid, f.tids[0])) {
            Some(kids) => kids,
            None => Seq::empty(),
        };
        unit_below(p, FrameView { tids: f.tids.skip(1), kids, ..f }, depth, max_depth, n)
    } else {
        (None, n)
    }
}

/// The answer that `p` gives to the query of `s`, when `n` processes have
/// been looked at.
pub open spec fn reply(p: Proc, s: SearchView, n: nat) -> ReplyView {
    match s.query {
        QueryView::Cgroup { pid } => if (p.expired)(n) {
            ReplyView::Expired
        } else {
            ReplyView::Cgroup((p.cgroup)(pid))
        },
        QueryView::Tasks { pid } => ReplyView::Tasks((p.tasks)(pid)),
        QueryView::Children { pid, tid } => ReplyView::Children((p.children)(pid, tid)),
        QueryView::Done { .. } => ReplyView::Expired,
    }
}

/// The search and the number of processes looked at, `k` answers later.
pub open spec fn after(p: Proc, s: SearchView, n: nat, k: nat) -> (SearchView, nat)
    decreases k,
{
    if k == 0 {
        (s, n)
    } else {
        let next = if s.query is Cgroup { n + 1 } else { n };
        after(p, pid_search::answered(s, reply(p, s, n)), next, (k - 1) as nat)
    }
}

proof fn lemma_after_sum(p: Proc, s: SearchView, n: nat, j: nat, k: nat)
    ensures
        after(p, s, n, j + k) == after(p, after(p, s, n, j).0, after(p, s, n, j).1, k),
    decreases j,
{
    if j > 0 {
        let next = if s.query is Cgroup { n + 1 } else { n };
        lemma_after_sum(p, pid_search::answered(s, reply(p, s, n)), next, (j - 1) as nat, k);
    }
}

/// The search about to look at `pid`, below `stack`.
pub open spec fn looking(stack: Seq<FrameView>, max_depth: nat, pid: u32) -> SearchView {
    SearchView { max_depth, stack, query: QueryView::Cgroup { pid } }
}

/// The search is over and has found `u`.
pub open spec fn found(s: SearchView, u: Seq<char>) -> bool {
    s.query == (QueryView::Done { unit: Some(u) })
}

/// From `s`, after `k` answers, the search has got to what `result` says:
/// its unit, or on to what follows when the process below `stack` has none.
pub open spec fn gets_to(
    p: Proc,
    s: SearchView,
    n: nat,
    k: nat,
    stack: Seq<FrameView>,
    result: (Option<Seq<char>>, nat),
) -> bool {
    let (s2, n2) = after(p, s, n, k);
    &&& n2 == result.1
    &&& match result.0 {
        Some(u) => found(s2, u),
        None => s2 == pid_search::failed(s.max_depth, stack),
    }
}

proof fn lemma_unit_at(p: Proc, stack: Seq<FrameView>, max_depth: nat, pid: u32, n: nat) -> (k: nat)
    requires
        stack.len() <= max_depth,
    ensures
        gets_to(
            p,
            looking(stack, max_depth, pid),
            n,
            k,
            stack,
            unit_at(p, pid, stack.len(), max_depth, n),
        ),
    decreases 2 * (max_depth - stack.len()) + 1, 0nat, 0nat,
{
    let s = looking(stack, max_depth, pid);
    let s1 = pid_search::answered(s, reply(p, s, n));
    assert(after(p, s, n, 1) == (s1, n + 1)) by {
        reveal_with_fuel(after, 2);
    }
    if !(p.expired)(n) && pid_search::unit_in_proc((p.cgroup)(pid)) is None && stack.len()
        < max_depth {
        let s2 = pid_search::answered(s1, reply(p, s1, n + 1));
        assert(after(p, s, n, 2) == (s2, n + 1)) by {
            reveal_with_fuel(after, 3);
        }
        assert(s1.stack.drop_last() == stack);
        match (p.tasks)(pid) {
            Some(names) => {
                let f = FrameView {
                    pid,
                    tids: pid_search::ids(names),
                    kids: Seq::empty(),
                    visited: 0,
                };
                assert(s2 == pid_search::onward(max_depth, stack, f));
                let k = lemma_unit_below(p, stack, max_depth, f, n + 1);
                lemma_same_depth(max_depth, stack, f);
                lemma_after_sum(p, s, n, 2, k);
                2 + k
            },
            None => 2,
        }
    } else {
        1
    }
}

proof fn lemma_unit_below(
    p: Proc,
    above: Seq<FrameView>,
    max_depth: nat,
    f: FrameView,
    n: nat,
) -> (k: nat)
    requires
        above.len() < max_depth,
        f.visited < MAX_CHILDREN,
    ensures
        gets_to(
            p,
            pid_search::onward(max_depth, above, f),
            n,
            k,
            above,
            unit_below(p, f, above.len(), max_depth, n),
        ),
    decreases 2 * (max_depth - above.len()), f.tids.len(), f.kids.len(),
{
    let s = pid_search::onward(max_depth, above, f);
    lemma_same_depth(max_depth, above, f);
    if f.kids.len() > 0 {
        let rest = FrameView { kids: f.kids.skip(1), ..f };
        let stack = above.push(rest);
        let k1 = lemma_unit_at(p, stack, max_depth, f.kids[0], n);
        let (r, n1) = unit_at(p, f.kids[0], stack.len(), max_depth, n);
        assert(stack.drop_last() == above);
        if r is None && f.visited + 1 < MAX_CHILDREN {
            let next = FrameView { visited: f.visited + 1, ..rest };
            assert(pid_search::failed(max_depth, stack) == pid_search::onward(
                max_depth,
                above,
                next,
            ));
            let k2 = lemma_unit_below(p, above, max_depth, next, n1);
            lemma_same_depth(max_depth, above, next);
            lemma_after_sum(p, s, n, k1, k2);
            k1 + k2
        } else {
            k1
        }
    } else if f.tids.len() > 0 {
        let rest = FrameView { tids: f.tids.skip(1), ..f };
        let s1 = pid_search::answered(s, reply(p, s, n));
        assert(after(p, s, n, 1) == (s1, n)) by {
            reveal_with_fuel(after, 2);
        }
        assert(s.stack.drop_last() == above);
        let kids = match listed((p.children)(f.pid, f.tids[0])) {
            Some(kids) => kids,
            None => Seq::empty(),
        };
        let next = FrameView { kids, ..rest };
        assert(f.kids == Seq::<u32>::empty());
        assert(s1 == pid_search::onward(max_depth, above, next));
        let k = lemma_unit_below(p, above, max_depth, next, n);
        lemma_same_depth(max_depth, above, next);
        lemma_after_sum(p, s, n, 1, k);
        1 + k
    } else {
        0
    }
}

proof fn lemma_same_depth(max_depth: nat, above: Seq<FrameView>, f: FrameView)
    ensures
        pid_search::onward(max_depth, above, f).max_depth == max_depth,
    decreases above.len(), 1nat,
{
    if f.kids.len() == 0 && f.tids.len() == 0 {
        lemma_failed_same_depth(max_depth, above);
    }
}

proof fn lemma_failed_same_depth(max_depth: nat, stack: Seq<FrameView>)
    ensures
        pid_search::failed(max_depth, stack).max_depth == max_depth,
    decreases stack.len(), 0nat,
{
    if stack.len() > 0 {
        let f = stack.last();
        if f.visited + 1 >= MAX_CHILDREN {
            lemma_failed_same_depth(max_depth, stack.drop_last());
        } else {
            lemma_same_depth(
                max_depth,
                stack.drop_last(),
                FrameView { visited: f.visited + 1, ..f },
            );
        }
    }
}

/// Whatever `/proc` holds, a search that is answered from it comes to an end,
/// and ends with the unit of the process or of the first of its descendants,
/// in the order they are listed, that is in one.
pub proof fn search_finds_the_unit(p: Proc, pid: u32, max_depth: nat) -> (k: nat)
    ensures
        after(p, pid_search::start(pid, max_depth), 0, k).0.query == (QueryView::Done {
            unit: unit_at(p, pid, 0, max_depth, 0).0,
        }),
{
    let k = lemma_unit_at(p, Seq::empty(), max_depth, pid, 0);
    k
}

/// How many processes a search to this depth looks at, at most.
pub open spec fn most_looks(depth: nat) -> nat
    decreases depth,
{
    if depth == 0 {
        1
    } else {
        1 + MAX_CHILDREN as nat * most_looks((depth - 1) as nat)
    }
}

/// A search looks at no more processes than its depth and the limit on
/// children allow, however many there are.
pub proof fn search_is_bounded(p: Proc, pid: u32, depth: nat, max_depth: nat, n: nat)
    requires
        depth <= max_depth,
    ensures
        unit_at(p, pid, depth, max_depth, n).1 <= n + most_looks((max_depth - depth) as nat),
    decreases 2 * (max_depth - depth) + 1, 0nat, 0nat,
{
    lemma_most_looks((max_depth - depth) as nat);
    if depth < max_depth {
        match (p.tasks)(pid) {
            Some(names) => {
                let f = FrameView {
                    pid,
                    tids: pid_search::ids(names),
                    kids: Seq::empty(),
                    visited: 0,
                };
                lemma_below_bounded(p, f, depth, max_depth, n + 1);
            },
            None => {},
        }
    }
}

proof fn lemma_most_looks(depth: nat)
    ensures
        most_looks(depth) >= 1,
    decreases depth,
{
    if depth > 0 {
        lemma_most_looks((depth - 1) as nat);
        assert(MAX_CHILDREN as nat * most_looks((depth - 1) as nat) >= 0) by (nonlinear_arith);
    }
}

proof fn lemma_below_bounded(p: Proc, f: FrameView, depth: nat, max_depth: nat, n: nat)
    requires
        depth < max_depth,
        f.visited < MAX_CHILDREN,
    ensures
        unit_below(p, f, depth, max_depth, n).1 <= n + (MAX_CHILDREN - f.visited) * most_looks(
            (max_depth - depth - 1) as nat,
        ),
    decreases 2 * (max_depth - depth), f.tids.len(), f.kids.len(),
{
    let each = most_looks((max_depth - depth - 1) as nat);
    let left = MAX_CHILDREN - f.visited;
    assert(left * each == each + (left - 1) * each && (left - 1) * each >= 0) by (nonlinear_arith)
        requires
            left >= 1,
            each >= 0,
    ;
    if f.kids.len() > 0 {
        search_is_bounded(p, f.kids[0], depth + 1, max_depth, n);
        let (r, n1) = unit_at(p, f.kids[0], depth + 1, max_depth, n);
        if r is None && f.visited + 1 < MAX_CHILDREN {
            let next = FrameView { kids: f.kids.skip(1), visited: f.visited + 1, ..f };
            lemma_below_bounded(p, next, depth, max_depth, n1);
        }
    } else if f.tids.len() > 0 {
        let kids = match listed((p.children)(f.pid, f.tids[0])) {
            Some(kids) => kids,
            None => Seq::empty(),
        };
        lemma_below_bounded(
            p,
            FrameView { tids: f.tids.skip(1), kids, ..f },
            depth,
            max_depth,
            n,
        );
    }
}

/// The ids taken from a list of names keep its order: those of two lists, one
/// after the other, are those of the first and then those of the second; a
/// number that fits is one id, and what is none gives none.
pub proof fn ids_keep_their_order(xs: Seq<Seq<char>>, ys: Seq<Seq<char>>, name: Seq<char>, n: u32)
    ensures
        pid_search::ids(xs + ys) == pid_search::ids(xs) + pid_search::ids(ys),
        pid_search::ids(seq![text::decimal(n as nat)]) == seq![n],
        text::number(name, u32::MAX as nat) == Some(n as nat) ==> pid_search::ids(seq![name])
            == seq![n],
        text::number(name, u32::MAX as nat) is None ==> pid_search::ids(seq![name]).len() == 0,
        pid_search::ids(Seq::empty()).len() == 0,
    decreases ys.len(),
{
    text::lemma_decimal_number(n as nat, u32::MAX as nat);
    let one = seq![text::decimal(n as nat)];
    assert(one.drop_last().len() == 0);
    assert(pid_search::ids(one.drop_last()).len() == 0);
    assert(pid_search::ids(one) == seq![n]);
    assert(seq![name].drop_last().len() == 0);
    assert(pid_search::ids(seq![name].drop_last()).len() == 0);
    if text::number(name, u32::MAX as nat) == Some(n as nat) {
        assert(pid_search::ids(seq![name]) == seq![n]);
    }
    if ys.len() == 0 {
        assert(xs + ys == xs);
        assert(pid_search::ids(ys).len() == 0);
        assert(pid_search::ids(xs) + pid_search::ids(ys) == pid_search::ids(xs));
    } else {
        assert((xs + ys).drop_last() == xs + ys.drop_last());
        assert((xs + ys).last() == ys.last());
        ids_keep_their_order(xs, ys.drop_last(), name, n);
        assert(pid_search::ids(xs + ys) == pid_search::ids(xs) + pid_search::ids(ys));
    }
}

/// The children of `pid` that its threads `tids` list, in their order.
pub open spec fn children_by(p: Proc, pid: u32, tids: Seq<u32>) -> Seq<u32>
    decreases tids.len(),
{
    if tids.len() == 0 {
        Seq::empty()
    } else {
        (match (p.children)(pid, tids[0]) {
            Some(c) => pid_search::ids(text::words(c)),
            None => Seq::empty(),
        }) + children_by(p, pid, tids.skip(1))
    }
}

/// The children of `pid` in the order in which its threads, and each of those,
/// list them; none if its threads cannot be listed.
pub open spec fn children_of(p: Proc, pid: u32) -> Seq<u32> {
    match (p.tasks)(pid) {
        Some(names) => children_by(p, pid, pid_search::ids(names)),
        None => Seq::empty(),
    }
}

/// The time is never up.
pub open spec fn unhurried(p: Proc) -> bool {
    forall|n: nat| !#[trigger] (p.expired)(n)
}

/// `found` is what the first of `kids` that leads to a unit leads to, at
/// `depth`; None if none does.
pub open spec fn first_among(
    p: Proc,
    kids: Seq<u32>,
    depth: nat,
    max_depth: nat,
    found: Option<Seq<char>>,
) -> bool {
    match found {
        Some(u) => exists|i: int|
            0 <= i < kids.len() && #[trigger] unit_at(p, kids[i], depth, max_depth, 0).0 == Some(u)
                && forall|j: int|
                0 <= j < i ==> (#[trigger] unit_at(p, kids[j], depth, max_depth, 0)).0 is None,
        None => forall|j: int|
            0 <= j < kids.len() ==> (#[trigger] unit_at(p, kids[j], depth, max_depth, 0)).0
                is None,
    }
}

proof fn lemma_words_of_trimmed(c: Seq<char>)
    ensures
        text::words(text::trim(c)) == text::words(c),
{
    lemma_words_trim_start(c);
    lemma_words_trim_end(text::trim_start(c));
}

proof fn lemma_words_trim_start(s: Seq<char>)
    ensures
        text::words(text::trim_start(s)) == text::words(s),
    decreases s.len(),
{
    if s.len() > 0 && text::is_white(s[0]) {
        lemma_words_trim_start(s.skip(1));
        let none = Seq::<char>::empty();
        text::lemma_words_concat(none, s[0], s.skip(1));
        assert(none.push(s[0]) + s.skip(1) == s);
        assert(text::words(none) + text::words(s.skip(1)) == text::words(s.skip(1)));
    }
}

proof fn lemma_words_trim_end(s: Seq<char>)
    ensures
        text::words(text::trim_end(s)) == text::words(s),
    decreases s.len(),
{
    if s.len() > 0 && text::is_white(s.last()) {
        lemma_words_trim_end(s.drop_last());
    }
}

/// Without hurry, what is found does not depend on how much was looked at.
proof fn lemma_any_count(p: Proc, pid: u32, depth: nat, max_depth: nat, n: nat)
    requires
        unhurried(p),
    ensures
        unit_at(p, pid, depth, max_depth, n).0 == unit_at(p, pid, depth, max_depth, 0).0,
    decreases 2 * (max_depth - depth) + 1, 0nat, 0nat,
{
    if depth < max_depth {
        match (p.tasks)(pid) {
            Some(names) => {
                let f = FrameView {
                    pid,
                    tids: pid_search::ids(names),
                    kids: Seq::empty(),
                    visited: 0,
                };
                lemma_any_count_below(p, f, depth, max_depth, n + 1, 1);
            },
            None => {},
        }
    }
}

proof fn lemma_any_count_below(
    p: Proc,
    f: FrameView,
    depth: nat,
    max_depth: nat,
    n: nat,
    m: nat,
)
    requires
        unhurried(p),
    ensures
        unit_below(p, f, depth, max_depth, n).0 == unit_below(p, f, depth, max_depth, m).0,
    decreases 2 * (max_depth - depth), f.tids.len(), f.kids.len(),
{
    if depth >= max_depth {
    } else if f.kids.len() > 0 {
        lemma_any_count(p, f.kids[0], depth + 1, max_depth, n);
        lemma_any_count(p, f.kids[0], depth + 1, max_depth, m);
        let (a, n1) = unit_at(p, f.kids[0], depth + 1, max_depth, n);
        let (b, m1) = unit_at(p, f.kids[0], depth + 1, max_depth, m);
        lemma_any_count_below(
            p,
            FrameView { kids: f.kids.skip(1), visited: f.visited + 1, ..f },
            depth,
            max_depth,
            n1,
            m1,
        );
    } else if f.tids.len() > 0 {
        let kids = match listed((p.children)(f.pid, f.tids[0])) {
            Some(kids) => kids,
            None => Seq::empty(),
        };
        lemma_any_count_below(
            p,
            FrameView { tids: f.tids.skip(1), kids, ..f },
            depth,
            max_depth,
            n,
            m,
        );
    }
}

/// The first `n` of `s`, or all of it if there are fewer.
pub open spec fn up_to(s: Seq<u32>, n: int) -> Seq<u32> {
    if s.len() > n {
        s.take(n)
    } else {
        s
    }
}

proof fn lemma_below_is_first(p: Proc, f: FrameView, depth: nat, max_depth: nat, n: nat)
    requires
        unhurried(p),
        depth < max_depth,
        f.visited < MAX_CHILDREN,
    ensures
        first_among(
            p,
            up_to(f.kids + children_by(p, f.pid, f.tids), MAX_CHILDREN - f.visited),
            depth + 1,
            max_depth,
            unit_below(p, f, depth, max_depth, n).0,
        ),
    decreases f.tids.len(), f.kids.len(),
{
    let all = f.kids + children_by(p, f.pid, f.tids);
    let room = MAX_CHILDREN - f.visited;
    let seen = up_to(all, room);
    let result = unit_below(p, f, depth, max_depth, n).0;
    if f.kids.len() > 0 {
        let kid = f.kids[0];
        let (found, n1) = unit_at(p, kid, depth + 1, max_depth, n);
        lemma_any_count(p, kid, depth + 1, max_depth, n);
        assert(seen[0] == kid);
        if found is Some {
            assert(unit_at(p, seen[0], depth + 1, max_depth, 0).0 == result);
        } else if f.visited + 1 >= MAX_CHILDREN {
            assert(seen.len() == 1);
        } else {
            let g = FrameView { kids: f.kids.skip(1), visited: f.visited + 1, ..f };
            lemma_below_is_first(p, g, depth, max_depth, n1);
            let rest = up_to(g.kids + children_by(p, g.pid, g.tids), room - 1);
            assert(g.kids + children_by(p, g.pid, g.tids) == all.skip(1));
            assert(seen == seq![kid] + rest);
            assert forall|j: int| 0 <= j < rest.len() implies seen[j + 1] == #[trigger] rest[j] by {}
            match result {
                Some(u) => {
                    let i = choose|i: int|
                        0 <= i < rest.len() && #[trigger] unit_at(
                            p,
                            rest[i],
                            depth + 1,
                            max_depth,
                            0,
                        ).0 == Some(u) && forall|j: int|
                            0 <= j < i ==> (#[trigger] unit_at(
                                p,
                                rest[j],
                                depth + 1,
                                max_depth,
                                0,
                            )).0 is None;
                    assert(seen[i + 1] == rest[i]);
                    assert(unit_at(p, seen[i + 1], depth + 1, max_depth, 0).0 == Some(u));
                    assert forall|j: int| 0 <= j < i + 1 implies (#[trigger] unit_at(
                        p,
                        seen[j],
                        depth + 1,
                        max_depth,
                        0,
                    )).0 is None by {
                        if j > 0 {
                            assert(seen[j] == rest[j - 1]);
                        }
                    }
                },
                None => {
                    assert forall|j: int| 0 <= j < seen.len() implies (#[trigger] unit_at(
                        p,
                        seen[j],
                        depth + 1,
                        max_depth,
                        0,
                    )).0 is None by {
                        if j > 0 {
                            assert(seen[j] == rest[j - 1]);
                        }
                    }
                },
            }
        }
    } else if f.tids.len() > 0 {
        let content = (p.children)(f.pid, f.tids[0]);
        let kids = match listed(content) {
            Some(kids) => kids,
            None => Seq::empty(),
        };
        if let Some(c) = content {
            lemma_words_of_trimmed(c);
        }
        let g = FrameView { tids: f.tids.skip(1), kids, ..f };
        lemma_below_is_first(p, g, depth, max_depth, n);
        assert(all == kids + children_by(p, f.pid, f.tids.skip(1)));
    } else {
        assert(all.len() == 0);
    }
}

/// What the search for a process in the `depth`th generation comes to, where
/// the time is never up: its own unit; else, above the last generation, what
/// the first of its children leads to that leads to a unit, in the order in
/// which its threads list them and of the first sixty-four; else nothing.
pub proof fn children_are_searched_in_order(p: Proc, pid: u32, depth: nat, max_depth: nat)
    requires
        unhurried(p),
        depth <= max_depth,
    ensures
        ({
            let found = unit_at(p, pid, depth, max_depth, 0).0;
            match pid_search::unit_in_proc((p.cgroup)(pid)) {
                Some(u) => found == Some(u),
                None => if depth == max_depth {
                    found is None
                } else {
                    first_among(p, up_to(children_of(p, pid), 64), depth + 1, max_depth, found)
                },
            }
        }),
{
    if depth < max_depth && pid_search::unit_in_proc((p.cgroup)(pid)) is None {
        if let Some(names) = (p.tasks)(pid) {
            let f = FrameView {
                pid,
                tids: pid_search::ids(names),
                kids: Seq::empty(),
                visited: 0,
            };
            lemma_below_is_first(p, f, depth, max_depth, 1);
            assert(f.kids + children_by(p, pid, f.tids) == children_of(p, pid));
        }
    }
}

/// A process in a unit is resolved to that unit, and one that is in none to the
/// unit of its first child, if that is in one: whatever the other children are
/// in, they are listed after it.
pub proof fn first_child_in_a_unit_wins(p: Proc, pid: u32, max_depth: nat, u: Seq<char>) -> (k: nat)
    requires
        unhurried(p),
        pid_search::unit_in_proc((p.cgroup)(pid)) == Some(u) || {
            &&& pid_search::unit_in_proc((p.cgroup)(pid)) is None
            &&& max_depth > 0
            &&& children_of(p, pid).len() > 0
            &&& pid_search::unit_in_proc((p.cgroup)(children_of(p, pid)[0])) == Some(u)
        },
    ensures
        after(p, pid_search::start(pid, max_depth), 0, k).0.query == (QueryView::Done {
            unit: Some(u),
        }),
{
    children_are_searched_in_order(p, pid, 0, max_depth);
    if pid_search::unit_in_proc((p.cgroup)(pid)) is None {
        let kids = up_to(children_of(p, pid), 64);
        assert(kids[0] == children_of(p, pid)[0]);
        assert(unit_at(p, kids[0], 1, max_depth, 0).0 == Some(u));
        let found = unit_at(p, pid, 0, max_depth, 0).0;
        match found {
            Some(v) => {
                let i = choose|i: int|
                    0 <= i < kids.len() && #[trigger] unit_at(p, kids[i], 1, max_depth, 0).0
                        == Some(v) && forall|j: int|
                        0 <= j < i ==> (#[trigger] unit_at(p, kids[j], 1, max_depth, 0)).0 is None;
                if i > 0 {
                    assert(unit_at(p, kids[0], 1, max_depth, 0).0 is None);
                }
            },
            None => {
                assert(unit_at(p, kids[0], 1, max_depth, 0).0 is None);
            },
        }
    }
    search_finds_the_unit(p, pid, max_depth)
}

/// A process whose only thread lists two children that are each in a unit is
/// resolved to the unit of the one that is listed first.
pub proof fn of_two_children_the_first_wins(
    p: Proc,
    pid: u32,
    tid: u32,
    a: u32,
    b: u32,
    u: Seq<char>,
    max_depth: nat,
) -> (k: nat)
    requires
        unhurried(p),
        max_depth > 0,
        pid_search::unit_in_proc((p.cgroup)(pid)) is None,
        (p.tasks)(pid) == Some(seq![text::decimal(tid as nat)]),
        (p.children)(pid, tid) == Some(
            text::decimal(a as nat).push(' ') + text::decimal(b as nat),
        ),
        pid_search::unit_in_proc((p.cgroup)(a)) == Some(u),
    ensures
        after(p, pid_search::start(pid, max_depth), 0, k).0.query == (QueryView::Done {
            unit: Some(u),
        }),
{
    let (x, y) = (text::decimal(a as nat), text::decimal(b as nat));
    text::lemma_decimal_value(a as nat);
    text::lemma_decimal_value(b as nat);
    text::lemma_words_concat(x, ' ', y);
    text::lemma_words_of_word(x);
    text::lemma_words_of_word(y);
    ids_keep_their_order(seq![x], seq![y], x, a);
    ids_keep_their_order(Seq::empty(), Seq::empty(), y, b);
    ids_keep_their_order(Seq::empty(), Seq::empty(), x, tid);
    assert(pid_search::ids(text::words(x.push(' ') + y)) == seq![a] + seq![b]);
    let tids = seq![tid];
    assert(tids.skip(1).len() == 0);
    assert(children_by(p, pid, tids.skip(1)).len() == 0);
    assert(children_of(p, pid)[0] == a);
    first_child_in_a_unit_wins(p, pid, max_depth, u)
}

/// A process is in the unit of the cgroup that its cgroup file names, if there
/// is a file, it names one, and that belongs to a unit.
pub proof fn processes_are_where_their_file_says(content: Option<Seq<char>>, u: Seq<char>)
    ensures
        pid_search::unit_in_proc(content) == Some(u) <==> content is Some && scope::unified(
            content->0,
        ) is Some && scope::unit_of(scope::unified(content->0)->0) == Some(u),
{
}

proof fn lemma_failed_at_any_depth(a: nat, b: nat, stack: Seq<FrameView>)
    ensures
        pid_search::failed(b, stack) == (SearchView {
            max_depth: b,
            ..pid_search::failed(a, stack)
        }),
    decreases stack.len(),
{
    if stack.len() > 0 {
        let above = stack.drop_last();
        let f = FrameView { visited: stack.last().visited + 1, ..stack.last() };
        lemma_failed_at_any_depth(a, b, above);
        assert(pid_search::onward(b, above, f) == (SearchView {
            max_depth: b,
            ..pid_search::onward(a, above, f)
        }));
    }
}

/// A process that comes up once the time is up is passed over, as one is that
/// is in no unit and whose children are not looked at.
pub proof fn late_processes_are_passed_over(s: SearchView)
    requires
        s.query is Cgroup,
    ensures
        pid_search::answered(s, ReplyView::Expired) == (SearchView {
            max_depth: s.max_depth,
            ..pid_search::answered(
                SearchView { max_depth: s.stack.len(), ..s },
                ReplyView::Cgroup(None),
            )
        }),
        s.stack.len() == 0 ==> pid_search::answered(s, ReplyView::Expired).query == (
        QueryView::Done { unit: None }),
{
    lemma_failed_at_any_depth(s.stack.len(), s.max_depth, s.stack);
}

/// An answer to another question changes nothing, and what is over stays so. A
/// search that lists a process goes on with it even if the time is up.
pub proof fn other_answers_change_nothing(s: SearchView, reply: ReplyView)
    requires
        match s.query {
            QueryView::Cgroup { .. } => !(reply is Cgroup) && !(reply is Expired),
            QueryView::Tasks { .. } => !(reply is Tasks),
            QueryView::Children { .. } => !(reply is Children),
            QueryView::Done { .. } => true,
        },
    ensures
        pid_search::answered(s, reply) == s,
{
}

} // verus!
