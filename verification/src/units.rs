//! The units that run under `app.slice`. Sub-slices are descended into and never
//! units themselves: D-Bus activated apps sit one level down, in
//! `app-dbus-…-<Name>.slice/dbus-…-<Name>@0.service`.

use vstd::prelude::*;
use vstd::relations::*;
use vstd::string::*;
use vstd::utf8::*;

use crate::bytes;
use crate::seqs;
use crate::tree;
use crate::tree::{Entry, EntryView, Place};

verus! {

/// The name of a slice.
pub open spec fn is_slice_name(name: Seq<u8>) -> bool {
    encode_utf8(".slice"@).is_suffix_of(name)
}

/// The slices among `es`, which `dir` lists.
pub open spec fn slices_among(dir: Seq<Seq<u8>>, es: Seq<EntryView>) -> Seq<Seq<Seq<u8>>>
    decreases es.len(),
{
    if es.len() == 0 {
        Seq::empty()
    } else {
        let before = slices_among(dir, es.drop_last());
        if es.last().is_dir == Some(true) && is_slice_name(es.last().name) {
            before.push(dir.push(es.last().name))
        } else {
            before
        }
    }
}

/// The units among `es`, which `dir` lists: the directories that are no slices.
pub open spec fn units_among(dir: Seq<Seq<u8>>, es: Seq<EntryView>) -> Seq<Seq<Seq<u8>>>
    decreases es.len(),
{
    if es.len() == 0 {
        Seq::empty()
    } else {
        let before = units_among(dir, es.drop_last());
        if es.last().is_dir == Some(true) && !is_slice_name(es.last().name) {
            before.push(dir.push(es.last().name))
        } else {
            before
        }
    }
}

/// `a` comes before `b`, or is the same, byte by byte.
pub open spec fn bytes_in_order(a: Seq<u8>, b: Seq<u8>) -> bool
    decreases a.len(),
{
    if a.len() == 0 {
        true
    } else if b.len() == 0 {
        false
    } else if a[0] == b[0] {
        bytes_in_order(a.skip(1), b.skip(1))
    } else {
        a[0] < b[0]
    }
}

/// `a` comes before `b`, or is the same, name by name.
pub open spec fn in_order(a: Seq<Seq<u8>>, b: Seq<Seq<u8>>) -> bool
    decreases a.len(),
{
    if a.len() == 0 {
        true
    } else if b.len() == 0 {
        false
    } else if a[0] == b[0] {
        in_order(a.skip(1), b.skip(1))
    } else {
        bytes_in_order(a[0], b[0])
    }
}

/// The places `v` are in order.
pub open spec fn sorted(v: Seq<Seq<Seq<u8>>>) -> bool {
    forall|i: int, j: int| 0 <= i <= j < v.len() ==> in_order(#[trigger] v[i], #[trigger] v[j])
}

proof fn lemma_bytes_order(a: Seq<u8>, b: Seq<u8>, c: Seq<u8>)
    ensures
        bytes_in_order(a, a),
        bytes_in_order(a, b) || bytes_in_order(b, a),
        bytes_in_order(a, b) && bytes_in_order(b, a) ==> a == b,
        bytes_in_order(a, b) && bytes_in_order(b, c) ==> bytes_in_order(a, c),
    decreases a.len() + b.len() + c.len(),
{
    if a.len() > 0 {
        let (b1, c1) = (
            if b.len() > 0 { b.skip(1) } else { b },
            if c.len() > 0 { c.skip(1) } else { c },
        );
        lemma_bytes_order(a.skip(1), b1, c1);
        if b.len() > 0 && a[0] == b[0] && a.skip(1) == b.skip(1) {
            assert(a == seq![a[0]] + a.skip(1));
            assert(b == seq![b[0]] + b.skip(1));
        }
    } else if b.len() == 0 {
        assert(a == b);
    }
}

/// The order of places is one: any two are in order one way or the other,
/// both ways only if they are the same, and it passes through a third.
pub proof fn places_are_ordered(a: Seq<Seq<u8>>, b: Seq<Seq<u8>>, c: Seq<Seq<u8>>)
    ensures
        in_order(a, a),
        in_order(a, b) || in_order(b, a),
        in_order(a, b) && in_order(b, a) ==> a == b,
        in_order(a, b) && in_order(b, c) ==> in_order(a, c),
    decreases a.len() + b.len() + c.len(),
{
    if a.len() > 0 {
        let (b1, c1) = (
            if b.len() > 0 { b.skip(1) } else { b },
            if c.len() > 0 { c.skip(1) } else { c },
        );
        places_are_ordered(a.skip(1), b1, c1);
        if b.len() > 0 {
            lemma_bytes_order(a[0], b[0], if c.len() > 0 { c[0] } else { a[0] });
            if c.len() > 0 {
                lemma_bytes_order(b[0], c[0], a[0]);
            }
            if a[0] == b[0] && a.skip(1) == b.skip(1) {
                assert(a == seq![a[0]] + a.skip(1));
                assert(b == seq![b[0]] + b.skip(1));
            }
        }
    } else if b.len() == 0 {
        assert(a == b);
    }
}

/// The places `v` in order.
pub open spec fn ordered(v: Seq<Seq<Seq<u8>>>) -> Seq<Seq<Seq<u8>>> {
    v.sort_by(|a: Seq<Seq<u8>>, b: Seq<Seq<u8>>| in_order(a, b))
}

proof fn lemma_total_order()
    ensures
        total_ordering(|a: Seq<Seq<u8>>, b: Seq<Seq<u8>>| in_order(a, b)),
{
    let leq = |a: Seq<Seq<u8>>, b: Seq<Seq<u8>>| in_order(a, b);
    assert forall|a: Seq<Seq<u8>>, b: Seq<Seq<u8>>, c: Seq<Seq<u8>>|
        #![trigger leq(a, b), leq(b, c)]
        leq(a, a) && (leq(a, b) || leq(b, a)) && (leq(a, b) && leq(b, a) ==> a == b) && (leq(a, b)
            && leq(b, c) ==> leq(a, c)) by {
        places_are_ordered(a, b, c);
    }
    assert forall|a: Seq<Seq<u8>>| #[trigger] leq(a, a) by {
        places_are_ordered(a, a, a);
    }
    assert forall|a: Seq<Seq<u8>>, b: Seq<Seq<u8>>|
        #![trigger leq(a, b), leq(b, a)]
        leq(a, b) || leq(b, a) by {
        places_are_ordered(a, b, a);
    }
    assert forall|a: Seq<Seq<u8>>, b: Seq<Seq<u8>>|
        #![trigger leq(a, b), leq(b, a)]
        leq(a, b) && leq(b, a) implies a == b by {
        places_are_ordered(a, b, a);
    }
}

/// Putting places in order neither adds nor drops one, and leaves each before
/// those that follow it.
pub proof fn ordering_sorts(v: Seq<Seq<Seq<u8>>>)
    ensures
        sorted(ordered(v)),
        ordered(v).to_multiset() == v.to_multiset(),
        ordered(v).len() == v.len(),
        forall|p: Seq<Seq<u8>>| #[trigger] ordered(v).contains(p) <==> v.contains(p),
        v.no_duplicates() ==> ordered(v).no_duplicates(),
{
    broadcast use vstd::seq_lib::group_to_multiset_ensures;

    let leq = |a: Seq<Seq<u8>>, b: Seq<Seq<u8>>| in_order(a, b);
    lemma_total_order();
    v.lemma_sort_by_ensures(leq);
    let o = ordered(v);
    assert forall|i: int, j: int| 0 <= i <= j < o.len() implies in_order(
        #[trigger] o[i],
        #[trigger] o[j],
    ) by {
        if i == j {
            places_are_ordered(o[i], o[i], o[i]);
        } else {
            assert(leq(o[i], o[j]));
        }
    }
    assert(o.len() == o.to_multiset().len());
    assert(v.len() == v.to_multiset().len());
    if v.no_duplicates() {
        v.lemma_multiset_has_no_duplicates();
        o.lemma_multiset_has_no_duplicates_conv();
    }
    assert forall|p: Seq<Seq<u8>>| #[trigger] o.contains(p) <==> v.contains(p) by {
        assert(o.contains(p) <==> o.to_multiset().count(p) > 0);
        assert(v.contains(p) <==> v.to_multiset().count(p) > 0);
    }
}

fn bytes_ordered(a: &[u8], b: &[u8]) -> (r: bool)
    ensures
        r == bytes_in_order(a@, b@),
{
    let mut i: usize = 0;
    proof {
        assert(a@.skip(0) == a@);
        assert(b@.skip(0) == b@);
    }
    while i < a.len()
        invariant
            i <= a.len(),
            i <= b.len(),
            bytes_in_order(a@.skip(i as int), b@.skip(i as int)) == bytes_in_order(a@, b@),
        decreases a.len() - i,
    {
        if i >= b.len() {
            return false;
        }
        if a[i] != b[i] {
            return a[i] < b[i];
        }
        proof {
            assert(a@.skip(i as int).skip(1) == a@.skip(i + 1));
            assert(b@.skip(i as int).skip(1) == b@.skip(i + 1));
        }
        i += 1;
    }
    true
}

fn places_in_order(a: &Place, b: &Place) -> (r: bool)
    ensures
        r == in_order(a@, b@),
{
    let mut i: usize = 0;
    proof {
        assert(a@.skip(0) == a@);
        assert(b@.skip(0) == b@);
    }
    while i < a.names.len()
        invariant
            i <= a.names.len(),
            i <= b.names.len(),
            in_order(a@.skip(i as int), b@.skip(i as int)) == in_order(a@, b@),
        decreases a.names.len() - i,
    {
        if i >= b.names.len() {
            return false;
        }
        proof {
            assert(a@.skip(i as int)[0] == a.names@[i as int]@);
            assert(b@.skip(i as int)[0] == b.names@[i as int]@);
        }
        if !bytes::same_bytes(a.names[i].as_slice(), b.names[i].as_slice()) {
            return bytes_ordered(a.names[i].as_slice(), b.names[i].as_slice());
        }
        proof {
            assert(a@.skip(i as int).skip(1) == a@.skip(i + 1));
            assert(b@.skip(i as int).skip(1) == b@.skip(i + 1));
        }
        i += 1;
    }
    true
}

/// Put `p` among the places `v`, which are in order.
fn insert_in_order(v: &mut Vec<Place>, p: Place)
    requires
        sorted(tree::places(old(v)@)),
    ensures
        sorted(tree::places(final(v)@)),
        tree::places(final(v)@).to_multiset() == tree::places(old(v)@).to_multiset().insert(p@),
{
    let ghost before = tree::places(v@);
    let ghost x = p@;
    let mut i: usize = v.len();
    while i > 0 && !places_in_order(&v[i - 1], &p)
        invariant
            i <= v.len(),
            x == p@,
            before == tree::places(v@),
            forall|k: int| i <= k < before.len() ==> !in_order(#[trigger] before[k], x),
        decreases i,
    {
        i -= 1;
    }
    v.insert(i, p);
    proof {
        let after = tree::places(v@);
        assert(after == before.insert(i as int, x));
        vstd::seq_lib::to_multiset_insert(before, i as int, x);
        assert forall|k: int| 0 <= k < i implies in_order(#[trigger] before[k], x) by {
            assert(in_order(before[i - 1], x));
            places_are_ordered(before[k], before[i - 1], x);
        }
        assert forall|k: int| i <= k < before.len() implies in_order(x, #[trigger] before[k]) by {
            places_are_ordered(x, before[k], x);
        }
        assert forall|j: int, k: int| 0 <= j <= k < after.len() implies in_order(
            #[trigger] after[j],
            #[trigger] after[k],
        ) by {
            let jj = if j < i { j } else { j - 1 };
            let kk = if k < i { k } else { k - 1 };
            places_are_ordered(after[j], after[j], after[j]);
            if j < i {
                assert(after[j] == before[jj]);
            } else if j > i {
                assert(after[j] == before[jj]);
            }
            if k < i {
                assert(after[k] == before[kk]);
            } else if k > i {
                assert(after[k] == before[kk]);
            }
        }
    }
}

/// The places `v` in order.
fn put_in_order(v: &Vec<Place>) -> (r: Vec<Place>)
    ensures
        tree::places(r@) == ordered(tree::places(v@)),
{
    let ghost all = tree::places(v@);
    let mut r: Vec<Place> = Vec::new();
    let mut i: usize = 0;
    proof {
        assert(tree::places(r@) == all.take(0));
    }
    while i < v.len()
        invariant
            i <= v.len(),
            all == tree::places(v@),
            sorted(tree::places(r@)),
            tree::places(r@).to_multiset() == all.take(i as int).to_multiset(),
        decreases v.len() - i,
    {
        insert_in_order(&mut r, v[i].copy());
        proof {
            assert(all.take(i + 1) == all.take(i as int).push(v@[i as int]@));
            vstd::seq_lib::to_multiset_build(all.take(i as int), v@[i as int]@);
        }
        i += 1;
    }
    proof {
        assert(all.take(i as int) == all);
        let leq = |a: Seq<Seq<u8>>, b: Seq<Seq<u8>>| in_order(a, b);
        lemma_total_order();
        all.lemma_sort_by_ensures(leq);
        vstd::seq_lib::lemma_sorted_unique(tree::places(r@), ordered(all), leq);
    }
    r
}

/// A walk through `app.slice`: it lists one directory at a time.
pub struct UnitWalk {
    /// The slices that are still to be listed.
    pending: Vec<Place>,
    /// The units found so far.
    found: Vec<Place>,
}

/// A [`UnitWalk`] with its places.
pub struct WalkView {
    pub pending: Seq<Seq<Seq<u8>>>,
    pub found: Seq<Seq<Seq<u8>>>,
}

impl View for UnitWalk {
    type V = WalkView;

    closed spec fn view(&self) -> WalkView {
        WalkView { pending: tree::places(self.pending@), found: tree::places(self.found@) }
    }
}

/// The walk at its start: `app.slice` itself is to be listed.
pub open spec fn walk_start() -> WalkView {
    WalkView { pending: seq![Seq::<Seq<u8>>::empty()], found: Seq::empty() }
}

/// The walk after the last of its slices was listed; one that cannot be
/// listed holds nothing.
pub open spec fn walk_on(w: WalkView, listed: Option<Seq<EntryView>>) -> WalkView {
    let dir = w.pending.last();
    let rest = w.pending.drop_last();
    match listed {
        Some(es) => WalkView {
            pending: rest + slices_among(dir, es),
            found: w.found + units_among(dir, es),
        },
        None => WalkView { pending: rest, found: w.found },
    }
}

/// Start looking for the leaf units (.scope / .service) under `app.slice`.
pub fn app_slice_units() -> (r: UnitWalk)
    ensures
        r@ == walk_start(),
{
    let mut pending: Vec<Place> = Vec::new();
    pending.push(Place::top());
    let r = UnitWalk { pending, found: Vec::new() };
    proof {
        assert(r@.pending == walk_start().pending);
        assert(r@.found == walk_start().found);
    }
    r
}

impl UnitWalk {
    /// The place below `app.slice` that is to be listed next; None at the end
    /// of the walk.
    pub fn next(&self) -> (r: Option<Place>)
        ensures
            match r {
                Some(p) => self@.pending.len() > 0 && p@ == self@.pending.last(),
                None => self@.pending.len() == 0,
            },
    {
        let n: usize = self.pending.len();
        if n == 0 {
            None
        } else {
            Some(self.pending[n - 1].copy())
        }
    }

    /// Go on with what the place holds. A walk that is at its end stays there.
    pub fn answer(&mut self, listed: Option<Vec<Entry>>)
        ensures
            final(self)@ == (if old(self)@.pending.len() == 0 {
                old(self)@
            } else {
                walk_on(old(self)@, tree::listing(listed))
            }),
    {
        let ghost before = self@;
        let dir = match self.pending.pop() {
            Some(dir) => dir,
            None => {
                return;
            },
        };
        proof {
            assert(self@.pending == before.pending.drop_last());
            assert(before.pending.last() == dir@);
        }
        let es = match listed {
            Some(es) => es,
            None => {
                return;
            },
        };
        let ghost all = tree::entries(es@);
        let ghost rest = self@.pending;
        let slice_suffix = ".slice";
        let mut i: usize = 0;
        proof {
            assert(self@.pending == rest + slices_among(dir@, all.take(0)));
            assert(self@.found == before.found + units_among(dir@, all.take(0)));
        }
        while i < es.len()
            invariant
                i <= es.len(),
                slice_suffix@ == ".slice"@,
                all == tree::entries(es@),
                self@.pending == rest + slices_among(dir@, all.take(i as int)),
                self@.found == before.found + units_among(dir@, all.take(i as int)),
            decreases es.len() - i,
        {
            let ghost was = self@;
            proof {
                assert(all.take(i + 1).drop_last() == all.take(i as int));
                assert(all.take(i + 1).last() == es@[i as int]@);
            }
            let is_dir = match es[i].is_dir {
                Some(d) => d,
                None => false,
            };
            if is_dir {
                let p = dir.child(es[i].name.as_slice());
                if bytes::ends_with(es[i].name.as_slice(), slice_suffix.as_bytes()) {
                    self.pending.push(p);
                    proof { assert(self@.pending == was.pending.push(p@)); }
                } else {
                    self.found.push(p);
                    proof { assert(self@.found == was.found.push(p@)); }
                }
            }
            i += 1;
        }
        proof { assert(all.take(i as int) == all); }
    }

    /// The units found so far, in the order of their names.
    pub fn units(&self) -> (r: Vec<Place>)
        ensures
            tree::places(r@) == ordered(self@.found),
    {
        put_in_order(&self.found)
    }
}

/// What a directory below `app.slice` holds; None where it cannot be listed.
pub struct Listings {
    pub of: spec_fn(Seq<Seq<u8>>) -> Option<Seq<EntryView>>,
}

/// `dir` lists the directory `name`.
pub open spec fn holds_dir(t: Listings, dir: Seq<Seq<u8>>, name: Seq<u8>) -> bool {
    (t.of)(dir) matches Some(es) && es.contains(EntryView { name, is_dir: Some(true) })
}

/// `p` is reached from `app.slice` through slices alone.
pub open spec fn reached(t: Listings, p: Seq<Seq<u8>>) -> bool
    decreases p.len(),
{
    p.len() == 0 || (reached(t, p.drop_last()) && holds_dir(t, p.drop_last(), p.last())
        && is_slice_name(p.last()))
}

/// `p` is a unit: a directory that is no slice, in `app.slice` or in a slice
/// that is reached from it.
pub open spec fn is_unit(t: Listings, p: Seq<Seq<u8>>) -> bool {
    p.len() > 0 && reached(t, p.drop_last()) && holds_dir(t, p.drop_last(), p.last())
        && !is_slice_name(p.last())
}

/// The walk `k` answers later.
pub open spec fn walked(t: Listings, w: WalkView, k: nat) -> WalkView
    decreases k,
{
    if k == 0 || w.pending.len() == 0 {
        w
    } else {
        walked(t, walk_on(w, (t.of)(w.pending.last())), (k - 1) as nat)
    }
}

proof fn lemma_among(dir: Seq<Seq<u8>>, es: Seq<EntryView>, p: Seq<Seq<u8>>)
    ensures
        slices_among(dir, es).contains(p) <==> p.len() > 0 && p.drop_last() == dir
            && is_slice_name(p.last()) && es.contains(
            EntryView { name: p.last(), is_dir: Some(true) },
        ),
        units_among(dir, es).contains(p) <==> p.len() > 0 && p.drop_last() == dir
            && !is_slice_name(p.last()) && es.contains(
            EntryView { name: p.last(), is_dir: Some(true) },
        ),
    decreases es.len(),
{
    if es.len() > 0 {
        let front = es.drop_last();
        lemma_among(dir, front, p);
        let e = es.last();
        let wanted = EntryView { name: p.last(), is_dir: Some(true) };
        assert(es == front.push(e));
        assert(es.contains(wanted) <==> front.contains(wanted) || e == wanted) by {
            seqs::lemma_contains_push(front, e, wanted);
        }
        let q = dir.push(e.name);
        assert(q.drop_last() == dir);
        if p.len() > 0 && p.drop_last() == dir && p.last() == e.name {
            assert(p == q);
        }
        seqs::lemma_contains_push(slices_among(dir, front), q, p);
        seqs::lemma_contains_push(units_among(dir, front), q, p);
    }
}

/// What holds at every point of a walk: it lists only slices that are reached
/// from `app.slice`, has found only units, and every other unit is ahead.
pub open spec fn covers(t: Listings, w: WalkView) -> bool {
    &&& forall|p: Seq<Seq<u8>>| #[trigger] w.pending.contains(p) ==> reached(t, p)
    &&& forall|p: Seq<Seq<u8>>| #[trigger] w.found.contains(p) ==> is_unit(t, p)
    &&& forall|p: Seq<Seq<u8>>| is_unit(t, p) ==> #[trigger] w.found.contains(p) || ahead(w, p)
}

/// `p` lies below a slice that is still to be listed.
pub open spec fn ahead(w: WalkView, p: Seq<Seq<u8>>) -> bool {
    exists|n: int| 0 <= n < p.len() && w.pending.contains(#[trigger] p.take(n))
}

proof fn lemma_reached_prefix(t: Listings, p: Seq<Seq<u8>>, n: int)
    requires
        reached(t, p),
        0 <= n <= p.len(),
    ensures
        reached(t, p.take(n)),
        n < p.len() ==> holds_dir(t, p.take(n), p[n]) && is_slice_name(p[n]),
    decreases p.len(),
{
    if n == p.len() {
        assert(p.take(n) == p);
    } else {
        let front = p.drop_last();
        assert(front.take(n) == p.take(n));
        if n == p.len() - 1 {
            assert(p.take(n) == front);
        } else {
            lemma_reached_prefix(t, front, n);
            assert(front[n] == p[n]);
        }
    }
}

proof fn lemma_covers_on(t: Listings, w: WalkView)
    requires
        covers(t, w),
        w.pending.len() > 0,
    ensures
        covers(t, walk_on(w, (t.of)(w.pending.last()))),
{
    let dir = w.pending.last();
    let rest = w.pending.drop_last();
    let next = walk_on(w, (t.of)(dir));
    let (slices, units) = match (t.of)(dir) {
        Some(es) => (slices_among(dir, es), units_among(dir, es)),
        None => (Seq::empty(), Seq::empty()),
    };
    assert(next.pending == rest + slices);
    assert(next.found == w.found + units);
    assert(w.pending == rest.push(dir));
    seqs::lemma_contains_push(rest, dir, dir);
    assert(reached(t, dir));
    assert forall|p: Seq<Seq<u8>>| #[trigger] next.pending.contains(p) implies reached(t, p) by {
        seqs::lemma_contains_add(rest, slices, p);
        seqs::lemma_contains_push(rest, dir, p);
        if slices.contains(p) {
            lemma_among(dir, (t.of)(dir)->0, p);
        }
    }
    assert forall|p: Seq<Seq<u8>>| #[trigger] next.found.contains(p) implies is_unit(t, p) by {
        seqs::lemma_contains_add(w.found, units, p);
        if units.contains(p) {
            lemma_among(dir, (t.of)(dir)->0, p);
        }
    }
    assert forall|p: Seq<Seq<u8>>| is_unit(t, p) implies #[trigger] next.found.contains(p) || ahead(
        next,
        p,
    ) by {
        seqs::lemma_contains_add(w.found, units, p);
        if !w.found.contains(p) {
            assert(ahead(w, p));
            let n = choose|n: int| 0 <= n < p.len() && w.pending.contains(#[trigger] p.take(n));
            seqs::lemma_contains_push(rest, dir, p.take(n));
            seqs::lemma_contains_add(rest, slices, p.take(n));
            if p.take(n) == dir && !rest.contains(dir) {
                if n == p.len() - 1 {
                    assert(p.take(n) == p.drop_last());
                    lemma_among(dir, (t.of)(dir)->0, p);
                } else {
                    let front = p.drop_last();
                    lemma_reached_prefix(t, front, n);
                    assert(front.take(n) == p.take(n));
                    assert(front[n] == p[n]);
                    let q = p.take(n + 1);
                    assert(q.drop_last() == dir);
                    assert(q.last() == p[n]);
                    lemma_among(dir, (t.of)(dir)->0, q);
                    seqs::lemma_contains_add(rest, slices, q);
                    assert(next.pending.contains(p.take(n + 1)));
                }
            }
        }
    }
}

proof fn lemma_covers_walked(t: Listings, w: WalkView, k: nat)
    requires
        covers(t, w),
    ensures
        covers(t, walked(t, w, k)),
    decreases k,
{
    if k > 0 && w.pending.len() > 0 {
        lemma_covers_on(t, w);
        lemma_covers_walked(t, walk_on(w, (t.of)(w.pending.last())), (k - 1) as nat);
    }
}

/// A walk that has come to its end has found every unit under `app.slice`, and
/// nothing that is none.
pub proof fn walk_finds_the_units(t: Listings, k: nat, p: Seq<Seq<u8>>)
    requires
        walked(t, walk_start(), k).pending.len() == 0,
    ensures
        walked(t, walk_start(), k).found.contains(p) <==> is_unit(t, p),
{
    let w = walk_start();
    let top = Seq::<Seq<u8>>::empty();
    assert(w.pending[0] == top);
    assert forall|q: Seq<Seq<u8>>| is_unit(t, q) implies ahead(w, q) by {
        assert(q.take(0) == top);
        assert(w.pending.contains(q.take(0)));
    }
    assert(covers(t, w));
    lemma_covers_walked(t, w, k);
    let end = walked(t, w, k);
    assert(!ahead(end, p));
}

/// Each directory lists a name once.
pub open spec fn lists_names_once(t: Listings) -> bool {
    forall|dir: Seq<Seq<u8>>| (#[trigger] (t.of)(dir)) matches Some(es) ==> names_once(es)
}

/// No two of the entries have the same name.
pub open spec fn names_once(es: Seq<EntryView>) -> bool {
    forall|i: int, j: int|
        0 <= i < es.len() && 0 <= j < es.len() && i != j ==> (#[trigger] es[i]).name != (
        #[trigger] es[j]).name
}

proof fn lemma_among_once(dir: Seq<Seq<u8>>, es: Seq<EntryView>)
    requires
        names_once(es),
    ensures
        seqs::distinct_kids(dir, slices_among(dir, es)),
        seqs::distinct_kids(dir, units_among(dir, es)),
    decreases es.len(),
{
    if es.len() > 0 {
        let front = es.drop_last();
        let e = es.last();
        assert(names_once(front)) by {
            assert forall|i: int, j: int|
                0 <= i < front.len() && 0 <= j < front.len() && i != j implies (
            #[trigger] front[i]).name != (#[trigger] front[j]).name by {
                assert(front[i] == es[i] && front[j] == es[j]);
            }
        }
        lemma_among_once(dir, front);
        let q = dir.push(e.name);
        assert(q.drop_last() == dir);
        lemma_among(dir, front, q);
        let wanted = EntryView { name: e.name, is_dir: Some(true) };
        if front.contains(wanted) {
            let i = choose|i: int| 0 <= i < front.len() && front[i] == wanted;
            assert(es[i].name != es[es.len() - 1].name);
        }
        lemma_kid_push(dir, slices_among(dir, front), q);
        lemma_kid_push(dir, units_among(dir, front), q);
    }
}

proof fn lemma_kid_push(dir: Seq<Seq<u8>>, kids: Seq<Seq<Seq<u8>>>, q: Seq<Seq<u8>>)
    requires
        seqs::distinct_kids(dir, kids),
        q.len() > 0,
        q.drop_last() == dir,
        !kids.contains(q),
    ensures
        seqs::distinct_kids(dir, kids.push(q)),
{
    let all = kids.push(q);
    assert forall|i: int, j: int|
        0 <= i < all.len() && 0 <= j < all.len() && i != j implies all[i] != all[j] by {
        if i < kids.len() && j < kids.len() {
            assert(kids[i] != kids[j]);
        } else if i < kids.len() {
            assert(kids.contains(kids[i]));
        } else {
            assert(kids.contains(kids[j]));
        }
    }
    assert forall|i: int| 0 <= i < all.len() implies (#[trigger] all[i]).len() > 0
        && all[i].drop_last() == dir by {
        if i < kids.len() {
            assert(all[i] == kids[i]);
        }
    }
}

/// What holds at every point of a walk through such directories: it is not
/// about to come to a place again.
pub open spec fn once(w: WalkView) -> bool {
    &&& seqs::apart(w.pending)
    &&& seqs::clear_of(w.pending, w.found)
    &&& w.found.no_duplicates()
}

proof fn lemma_once_on(t: Listings, w: WalkView)
    requires
        lists_names_once(t),
        once(w),
        w.pending.len() > 0,
    ensures
        once(walk_on(w, (t.of)(w.pending.last()))),
{
    let dir = w.pending.last();
    let rest = w.pending.drop_last();
    let next = walk_on(w, (t.of)(dir));
    let (slices, units) = match (t.of)(dir) {
        Some(es) => (slices_among(dir, es), units_among(dir, es)),
        None => (Seq::empty(), Seq::empty()),
    };
    assert(next.pending == rest + slices);
    assert(next.found == w.found + units);
    if let Some(es) = (t.of)(dir) {
        lemma_among_once(dir, es);
    }
    seqs::lemma_kids_apart(w.pending, slices, w.found);
    assert forall|j: int| 0 <= j < units.len() implies !w.found.contains(#[trigger] units[j])
        && forall|i: int|
        0 <= i < next.pending.len() ==> !(#[trigger] next.pending[i]).is_prefix_of(units[j]) by {
        assert(units.contains(units[j]));
        lemma_among(dir, (t.of)(dir)->0, units[j]);
        seqs::lemma_leaf_apart(w.pending, slices, w.found, units[j]);
    }
    assert forall|i: int, j: int|
        0 <= i < next.pending.len() && 0 <= j < next.found.len() implies !(
    #[trigger] next.pending[i]).is_prefix_of(#[trigger] next.found[j]) by {
        if j >= w.found.len() {
            assert(next.found[j] == units[j - w.found.len()]);
        } else {
            assert(next.found[j] == w.found[j]);
        }
    }
    assert forall|i: int, j: int|
        0 <= i < next.found.len() && 0 <= j < next.found.len() && i != j implies next.found[i]
        != next.found[j] by {
        let n = w.found.len();
        if i < n && j < n {
            assert(w.found[i] != w.found[j]);
        } else if i < n {
            assert(w.found.contains(w.found[i]));
            assert(!w.found.contains(units[j - n]));
        } else if j < n {
            assert(w.found.contains(w.found[j]));
            assert(!w.found.contains(units[i - n]));
        } else {
            assert(units[i - n] != units[j - n]);
        }
    }
}

proof fn lemma_once_walked(t: Listings, w: WalkView, k: nat)
    requires
        lists_names_once(t),
        once(w),
    ensures
        once(walked(t, w, k)),
    decreases k,
{
    if k > 0 && w.pending.len() > 0 {
        lemma_once_on(t, w);
        lemma_once_walked(t, walk_on(w, (t.of)(w.pending.last())), (k - 1) as nat);
    }
}

/// Where each directory lists a name once, a walk finds each unit once.
pub proof fn walk_finds_each_unit_once(t: Listings, k: nat)
    requires
        lists_names_once(t),
    ensures
        walked(t, walk_start(), k).found.no_duplicates(),
{
    lemma_once_walked(t, walk_start(), k);
}

/// A walk through slices that are nowhere deeper than `depth` comes to its end.
pub proof fn walk_ends(t: Listings, depth: nat) -> (k: nat)
    requires
        forall|p: Seq<Seq<u8>>| #[trigger] reached(t, p) ==> p.len() <= depth,
    ensures
        walked(t, walk_start(), k).pending.len() == 0,
{
    let top = Seq::<Seq<u8>>::empty();
    let start = walk_start();
    assert(start.pending == Seq::<Seq<Seq<u8>>>::empty().push(top));
    let k = lemma_walk_below(t, Seq::empty(), start.found, top, depth);
    k
}

proof fn lemma_walked_sum(t: Listings, w: WalkView, j: nat, k: nat)
    ensures
        walked(t, w, j + k) == walked(t, walked(t, w, j), k),
    decreases j,
{
    if j > 0 && w.pending.len() > 0 {
        lemma_walked_sum(t, walk_on(w, (t.of)(w.pending.last())), (j - 1) as nat, k);
    } else if w.pending.len() == 0 {
        assert(walked(t, w, j + k) == w);
        assert(walked(t, w, k) == w);
    }
}

proof fn lemma_walk_below(
    t: Listings,
    rest: Seq<Seq<Seq<u8>>>,
    found: Seq<Seq<Seq<u8>>>,
    dir: Seq<Seq<u8>>,
    depth: nat,
) -> (k: nat)
    requires
        reached(t, dir),
        forall|p: Seq<Seq<u8>>| #[trigger] reached(t, p) ==> p.len() <= depth,
    ensures
        walked(t, WalkView { pending: rest.push(dir), found }, k).pending == rest,
    decreases 2 * (depth - dir.len()) + 1, 0nat,
{
    let w = WalkView { pending: rest.push(dir), found };
    assert(w.pending.last() == dir);
    assert(w.pending.drop_last() == rest);
    let next = walk_on(w, (t.of)(dir));
    match (t.of)(dir) {
        None => {
            assert(walked(t, next, 0) == next);
            assert(walked(t, w, 1) == next);
            1
        },
        Some(es) => {
            let subs = slices_among(dir, es);
            assert forall|i: int| 0 <= i < subs.len() implies reached(t, #[trigger] subs[i])
                && subs[i].len() == dir.len() + 1 by {
                assert(subs.contains(subs[i]));
                lemma_among(dir, es, subs[i]);
            }
            assert(reached(t, dir) ==> dir.len() <= depth);
            let k = lemma_walk_all(t, rest, next.found, subs, dir.len() + 1, depth);
            assert(walked(t, w, k + 1) == walked(t, next, k));
            k + 1
        },
    }
}

proof fn lemma_walk_all(
    t: Listings,
    rest: Seq<Seq<Seq<u8>>>,
    found: Seq<Seq<Seq<u8>>>,
    subs: Seq<Seq<Seq<u8>>>,
    level: nat,
    depth: nat,
) -> (k: nat)
    requires
        level <= depth + 1,
        forall|i: int|
            0 <= i < subs.len() ==> reached(t, #[trigger] subs[i]) && subs[i].len() == level,
        forall|p: Seq<Seq<u8>>| #[trigger] reached(t, p) ==> p.len() <= depth,
    ensures
        walked(t, WalkView { pending: rest + subs, found }, k).pending == rest,
    decreases 2 * (depth + 1 - level), subs.len(),
{
    let w = WalkView { pending: rest + subs, found };
    if subs.len() == 0 {
        assert(rest + subs == rest);
        0
    } else {
        let last = subs[subs.len() - 1];
        let front = subs.drop_last();
        assert(rest + subs == (rest + front).push(last));
        assert(reached(t, last));
        let j = lemma_walk_below(t, rest + front, found, last, depth);
        let mid = walked(t, w, j);
        assert forall|i: int| 0 <= i < front.len() implies reached(t, #[trigger] front[i])
            && front[i].len() == level by {
            assert(front[i] == subs[i]);
        }
        let k = lemma_walk_all(t, rest, mid.found, front, level, depth);
        lemma_walked_sum(t, w, j, k);
        j + k
    }
}

} // verus!
