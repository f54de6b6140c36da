//! Which places are units, and in what order they come.

use vstd::prelude::*;
use vstd::utf8::*;

use crate::tree::EntryView;
use crate::units;
use crate::units::{Listings, WalkView};

verus! {

/// A name comes before the longer ones that begin with it. Of two others the
/// first byte in which they differ decides, whatever follows.
pub proof fn first_different_byte_decides(c: Seq<u8>, x: u8, y: u8, a: Seq<u8>, b: Seq<u8>)
    requires
        x < y,
    ensures
        units::bytes_in_order(c.push(x) + a, c.push(y) + b),
        !units::bytes_in_order(c.push(y) + b, c.push(x) + a),
        units::bytes_in_order(c, c + a),
        a.len() > 0 ==> !units::bytes_in_order(c + a, c),
    decreases c.len(),
{
    if c.len() > 0 {
        let d = c.skip(1);
        first_different_byte_decides(d, x, y, a, b);
        assert((c.push(x) + a).skip(1) == d.push(x) + a);
        assert((c.push(y) + b).skip(1) == d.push(y) + b);
        assert((c + a).skip(1) == d + a);
    } else {
        assert((c.push(x) + a)[0] == x);
        assert((c.push(y) + b)[0] == y);
    }
}

/// A place comes before those below it. Of two others the first name in which
/// they differ decides, whatever follows.
pub proof fn first_different_name_decides(
    c: Seq<Seq<u8>>,
    x: Seq<u8>,
    y: Seq<u8>,
    a: Seq<Seq<u8>>,
    b: Seq<Seq<u8>>,
)
    requires
        x != y,
    ensures
        units::in_order(c.push(x) + a, c.push(y) + b) <==> units::bytes_in_order(x, y),
        units::in_order(c, c + a),
        a.len() > 0 ==> !units::in_order(c + a, c),
    decreases c.len(),
{
    if c.len() > 0 {
        let d = c.skip(1);
        first_different_name_decides(d, x, y, a, b);
        assert((c.push(x) + a).skip(1) == d.push(x) + a);
        assert((c.push(y) + b).skip(1) == d.push(y) + b);
        assert((c + a).skip(1) == d + a);
    } else {
        assert((c.push(x) + a)[0] == x);
        assert((c.push(y) + b)[0] == y);
    }
}

/// The name ends in `.slice`.
pub open spec fn ends_as_slice(name: Seq<u8>) -> bool {
    exists|stem: Seq<u8>| name == #[trigger] (stem + encode_utf8(".slice"@))
}

proof fn lemma_slice_name(name: Seq<u8>)
    ensures
        units::is_slice_name(name) <==> ends_as_slice(name),
{
    let suffix = encode_utf8(".slice"@);
    if units::is_slice_name(name) {
        let stem = name.take(name.len() - suffix.len());
        assert(name == stem + suffix);
    }
    if ends_as_slice(name) {
        let stem = choose|stem: Seq<u8>| name == #[trigger] (stem + suffix);
        assert(name.skip(stem.len() as int) == suffix);
    }
}

/// On the way to `p` the directory `p[i]` is listed where it stands, and it is a
/// slice or is none.
pub open spec fn way_holds(t: Listings, p: Seq<Seq<u8>>, i: int, slice: bool) -> bool {
    &&& (t.of)(p.take(i)) is Some
    &&& (t.of)(p.take(i))->0.contains(EntryView { name: p[i], is_dir: Some(true) })
    &&& ends_as_slice(p[i]) == slice
}

proof fn lemma_reached(t: Listings, p: Seq<Seq<u8>>)
    ensures
        units::reached(t, p) <==> forall|i: int|
            0 <= i < p.len() ==> #[trigger] way_holds(t, p, i, true),
    decreases p.len(),
{
    if p.len() > 0 {
        let q = p.drop_last();
        let n = p.len() - 1;
        lemma_reached(t, q);
        lemma_slice_name(p.last());
        assert(p.take(n) == q);
        assert forall|i: int| 0 <= i < n implies way_holds(t, p, i, true) == way_holds(
            t,
            q,
            i,
            true,
        ) by {
            assert(p.take(i) == q.take(i));
        }
        if units::reached(t, p) {
            assert(way_holds(t, p, n, true));
            assert forall|i: int| 0 <= i < p.len() implies #[trigger] way_holds(t, p, i, true) by {
                if i < n {
                    assert(way_holds(t, q, i, true));
                }
            }
        }
        if forall|i: int| 0 <= i < p.len() ==> #[trigger] way_holds(t, p, i, true) {
            assert(way_holds(t, p, n, true));
            assert forall|i: int| 0 <= i < q.len() implies #[trigger] way_holds(t, q, i, true) by {
                assert(way_holds(t, p, i, true));
            }
        }
    }
}

/// Which places a walk that has come to its end has found, at any depth: those
/// whose last name is that of a directory that is no slice, while all the names
/// before it are those of slices, each listed where it stands.
pub proof fn units_are_these(t: Listings, k: nat, p: Seq<Seq<u8>>)
    requires
        units::walked(t, units::walk_start(), k).pending.len() == 0,
    ensures
        units::ordered(units::walked(t, units::walk_start(), k).found).contains(p) <==> {
            &&& p.len() > 0
            &&& way_holds(t, p, p.len() - 1, false)
            &&& forall|i: int| 0 <= i < p.len() - 1 ==> #[trigger] way_holds(t, p, i, true)
        },
{
    units::walk_finds_the_units(t, k, p);
    units::ordering_sorts(units::walked(t, units::walk_start(), k).found);
    if p.len() > 0 {
        let q = p.drop_last();
        let n = p.len() - 1;
        lemma_reached(t, q);
        lemma_slice_name(p.last());
        assert(p.take(n) == q);
        assert forall|i: int| 0 <= i < n implies way_holds(t, p, i, true) == way_holds(
            t,
            q,
            i,
            true,
        ) by {
            assert(p.take(i) == q.take(i));
        }
        if units::is_unit(t, p) {
            assert forall|i: int| 0 <= i < n implies #[trigger] way_holds(t, p, i, true) by {
                assert(way_holds(t, q, i, true));
            }
        }
        if forall|i: int| 0 <= i < n ==> #[trigger] way_holds(t, p, i, true) {
            assert forall|i: int| 0 <= i < q.len() implies #[trigger] way_holds(t, q, i, true) by {
                assert(way_holds(t, p, i, true));
            }
        }
    }
}

/// What a directory holds, entry by entry and in their order: a directory whose
/// name ends in `.slice` is a slice and any other directory a unit; nothing
/// else counts.
pub proof fn entries_are_slices_or_units(
    dir: Seq<Seq<u8>>,
    a: Seq<EntryView>,
    e: EntryView,
    b: Seq<EntryView>,
)
    ensures
        units::slices_among(dir, a + b) == units::slices_among(dir, a) + units::slices_among(
            dir,
            b,
        ),
        units::units_among(dir, a + b) == units::units_among(dir, a) + units::units_among(dir, b),
        units::slices_among(dir, seq![e]) == (if e.is_dir == Some(true) && ends_as_slice(e.name) {
            seq![dir.push(e.name)]
        } else {
            Seq::empty()
        }),
        units::units_among(dir, seq![e]) == (if e.is_dir == Some(true) && !ends_as_slice(e.name) {
            seq![dir.push(e.name)]
        } else {
            Seq::empty()
        }),
    decreases b.len(),
{
    let none = Seq::<EntryView>::empty();
    lemma_slice_name(e.name);
    assert(seq![e].drop_last() == none);
    assert(units::slices_among(dir, none) == Seq::<Seq<Seq<u8>>>::empty());
    assert(units::units_among(dir, none) == Seq::<Seq<Seq<u8>>>::empty());
    if b.len() == 0 {
        assert(a + b == a);
    } else {
        entries_are_slices_or_units(dir, a, e, b.drop_last());
        assert((a + b).drop_last() == a + b.drop_last());
        assert((a + b).last() == b.last());
    }
}

/// A walk takes up last what was found first: it lists the last of its slices
/// next, and puts the slices found there behind the rest.
pub proof fn last_slice_is_listed_first(
    w: WalkView,
    rest: Seq<Seq<Seq<u8>>>,
    dir: Seq<Seq<u8>>,
    es: Seq<EntryView>,
)
    requires
        w.pending == rest.push(dir),
    ensures
        units::walk_on(w, Some(es)) == (WalkView {
            pending: rest + units::slices_among(dir, es),
            found: w.found + units::units_among(dir, es),
        }),
        units::walk_on(w, None) == (WalkView { pending: rest, found: w.found }),
        units::walk_start().found.len() == 0,
        units::walk_start().pending == seq![Seq::<Seq<u8>>::empty()],
{
    assert(w.pending.drop_last() == rest);
    assert(w.pending.last() == dir);
}

} // verus!
