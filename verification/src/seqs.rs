//! Facts about sequences.

use vstd::prelude::*;

verus! {

/// What a sequence holds once `x` was put at its end.
pub proof fn lemma_contains_push<A>(s: Seq<A>, x: A, y: A)
    ensures
        s.push(x).contains(y) <==> s.contains(y) || x == y,
{
    if s.contains(y) {
        let i = choose|i: int| 0 <= i < s.len() && s[i] == y;
        assert(s.push(x)[i] == y);
    }
    if x == y {
        assert(s.push(x)[s.len() as int] == y);
    }
    if s.push(x).contains(y) && x != y {
        let i = choose|i: int| 0 <= i < s.push(x).len() && s.push(x)[i] == y;
        assert(s[i] == y);
    }
}

/// What two sequences hold together.
pub proof fn lemma_contains_add<A>(s: Seq<A>, t: Seq<A>, y: A)
    ensures
        (s + t).contains(y) <==> s.contains(y) || t.contains(y),
{
    if s.contains(y) {
        let i = choose|i: int| 0 <= i < s.len() && s[i] == y;
        assert((s + t)[i] == y);
    }
    if t.contains(y) {
        let i = choose|i: int| 0 <= i < t.len() && t[i] == y;
        assert((s + t)[s.len() + i] == y);
    }
    if (s + t).contains(y) {
        let i = choose|i: int| 0 <= i < (s + t).len() && (s + t)[i] == y;
        if i < s.len() {
            assert(s[i] == y);
        } else {
            assert(t[i - s.len()] == y);
        }
    }
}

/// What begins a sequence with `x` at its end begins it without `x`, or is all
/// of it; and what it begins, the sequence without `x` begins too.
pub proof fn lemma_prefix_push<A>(q: Seq<A>, s: Seq<A>, x: A)
    ensures
        q.is_prefix_of(s.push(x)) <==> q.is_prefix_of(s) || q == s.push(x),
        s.push(x).is_prefix_of(q) ==> s.is_prefix_of(q),
{
    if q.is_prefix_of(s.push(x)) {
        if q.len() <= s.len() {
            assert(s.take(q.len() as int) == s.push(x).take(q.len() as int));
        } else {
            assert(s.push(x).take(q.len() as int) == s.push(x));
        }
    }
    if q.is_prefix_of(s) {
        assert(s.push(x).take(q.len() as int) == s.take(q.len() as int));
    }
    if q == s.push(x) {
        assert(s.push(x).take(q.len() as int) == q);
    }
    if s.push(x).is_prefix_of(q) {
        assert(q.take(s.len() as int) == q.take((s.len() + 1) as int).take(s.len() as int));
        assert(s.push(x).take(s.len() as int) == s);
    }
}

/// None of the sequences in `dirs` begins another one of them.
pub open spec fn apart<A>(dirs: Seq<Seq<A>>) -> bool {
    forall|i: int, j: int|
        0 <= i < dirs.len() && 0 <= j < dirs.len() && i != j ==> !(#[trigger] dirs[i]).is_prefix_of(
            #[trigger] dirs[j],
        )
}

/// None of the sequences in `dirs` begins one in `others`.
pub open spec fn clear_of<A>(dirs: Seq<Seq<A>>, others: Seq<Seq<A>>) -> bool {
    forall|i: int, j: int|
        0 <= i < dirs.len() && 0 <= j < others.len() ==> !(#[trigger] dirs[i]).is_prefix_of(
            #[trigger] others[j],
        )
}

/// The sequences in `kids` are each `dir` with one more at the end, and no two
/// are the same.
pub open spec fn distinct_kids<A>(dir: Seq<A>, kids: Seq<Seq<A>>) -> bool {
    &&& forall|i: int| 0 <= i < kids.len() ==> (#[trigger] kids[i]).len() > 0
        && kids[i].drop_last() == dir
    &&& kids.no_duplicates()
}

/// Replacing the last of `dirs` by some of its kids keeps them apart, from each
/// other and from what they were clear of.
pub proof fn lemma_kids_apart<A>(dirs: Seq<Seq<A>>, kids: Seq<Seq<A>>, others: Seq<Seq<A>>)
    requires
        dirs.len() > 0,
        apart(dirs),
        clear_of(dirs, others),
        distinct_kids(dirs.last(), kids),
    ensures
        apart(dirs.drop_last() + kids),
        clear_of(dirs.drop_last() + kids, others),
{
    let dir = dirs.last();
    let rest = dirs.drop_last();
    let all = rest + kids;
    let n = dirs.len() - 1;
    assert(dirs[n] == dir);
    assert forall|i: int| 0 <= i < kids.len() implies #[trigger] kids[i] == dir.push(
        kids[i].last(),
    ) by {
        assert(kids[i].drop_last() == dir);
    }
    assert forall|i: int, j: int|
        0 <= i < all.len() && 0 <= j < all.len() && i != j implies !(
    #[trigger] all[i]).is_prefix_of(#[trigger] all[j]) by {
        if i < n && j < n {
            assert(all[i] == dirs[i] && all[j] == dirs[j]);
        } else if i < n {
            let k = kids[j - n];
            assert(all[j] == k);
            assert(all[i] == dirs[i]);
            lemma_prefix_push(dirs[i], dir, k.last());
            lemma_prefix_push(dir, dir, k.last());
            assert(dir.take(dir.len() as int) == dir);
            assert(!dirs[i].is_prefix_of(dirs[n]));
            assert(!dirs[n].is_prefix_of(dirs[i]));
        } else if j < n {
            let k = kids[i - n];
            assert(all[i] == k);
            assert(all[j] == dirs[j]);
            lemma_prefix_push(dirs[j], dir, k.last());
            assert(!dirs[n].is_prefix_of(dirs[j]));
        } else {
            let a = kids[i - n];
            let b = kids[j - n];
            assert(a != b);
            assert(a.len() == b.len());
            if a.is_prefix_of(b) {
                assert(b.take(a.len() as int) == b);
            }
        }
    }
    assert forall|i: int, j: int| 0 <= i < all.len() && 0 <= j < others.len() implies !(
    #[trigger] all[i]).is_prefix_of(#[trigger] others[j]) by {
        if i < n {
            assert(all[i] == dirs[i]);
        } else {
            lemma_prefix_push(others[j], dir, kids[i - n].last());
            assert(!dirs[n].is_prefix_of(others[j]));
        }
    }
}

/// A further kid of the last of `dirs` is nothing that they were clear of, and
/// they are clear of it once that last one was replaced by other kids.
pub proof fn lemma_leaf_apart<A>(
    dirs: Seq<Seq<A>>,
    kids: Seq<Seq<A>>,
    others: Seq<Seq<A>>,
    leaf: Seq<A>,
)
    requires
        dirs.len() > 0,
        apart(dirs),
        clear_of(dirs, others),
        distinct_kids(dirs.last(), kids),
        leaf.len() > 0,
        leaf.drop_last() == dirs.last(),
        !kids.contains(leaf),
    ensures
        forall|i: int|
            0 <= i < (dirs.drop_last() + kids).len() ==> !(#[trigger] (dirs.drop_last()
                + kids)[i]).is_prefix_of(leaf),
        !others.contains(leaf),
{
    let dir = dirs.last();
    let rest = dirs.drop_last();
    let all = rest + kids;
    let n = dirs.len() - 1;
    assert(dirs[n] == dir);
    assert(leaf == dir.push(leaf.last()));
    assert forall|i: int| 0 <= i < all.len() implies !(#[trigger] all[i]).is_prefix_of(leaf) by {
        if i < n {
            assert(all[i] == dirs[i]);
            lemma_prefix_push(dirs[i], dir, leaf.last());
            lemma_prefix_push(dir, dir, leaf.last());
            assert(dir.take(dir.len() as int) == dir);
            assert(!dirs[i].is_prefix_of(dirs[n]));
            assert(!dirs[n].is_prefix_of(dirs[i]));
        } else {
            let a = kids[i - n];
            assert(all[i] == a);
            assert(kids.contains(a));
            assert(a.len() == leaf.len()) by {
                assert(a.drop_last().len() == leaf.drop_last().len());
            }
            if a.is_prefix_of(leaf) {
                assert(leaf.take(a.len() as int) == leaf);
            }
        }
    }
    if others.contains(leaf) {
        let j = choose|j: int| 0 <= j < others.len() && others[j] == leaf;
        lemma_prefix_push(dir, dir, leaf.last());
        assert(dir.take(dir.len() as int) == dir);
        assert(!dirs[n].is_prefix_of(others[j]));
    }
}

} // verus!
