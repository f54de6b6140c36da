//! What the dmem files say, line by line.

use vstd::prelude::*;

use crate::dmem;
use crate::text;
use crate::text_laws;

verus! {

proof fn lemma_words_without_cr(line: Seq<char>)
    ensures
        line.len() > 0 && line.last() == '\r' ==> text::words(line.drop_last()) == text::words(
            line,
        ),
{
    if line.len() > 0 && line.last() == '\r' {
        assert(text::is_white('\r'));
    }
}

/// The line that stands before `rest`, and how a body begins with it.
proof fn lemma_first(line: Seq<char>, rest: Seq<char>) -> (own: Seq<char>)
    requires
        !line.contains('\n'),
    ensures
        text::lines(line.push('\n') + rest) == seq![own] + text::lines(rest),
        text::words(own) == text::words(line),
{
    text_laws::first_line_comes_first(line, rest);
    lemma_words_without_cr(line);
    if line.len() > 0 && line.last() == '\r' {
        line.drop_last()
    } else {
        line
    }
}

/// A line for a region decides what a body that begins with it sets the region
/// to, and a line for any other region, or for none, changes nothing: the rest
/// of the body decides. A body without a line sets nothing.
pub proof fn entry_goes_past_other_lines(line: Seq<char>, rest: Seq<char>, key: Seq<char>)
    requires
        !line.contains('\n'),
    ensures
        text::words(line).len() >= 2 && text::words(line)[0] == key ==> dmem::entry(
            line.push('\n') + rest,
            key,
        ) == Some(text::words(line)[1]),
        text::words(line).len() < 2 || text::words(line)[0] != key ==> dmem::entry(
            line.push('\n') + rest,
            key,
        ) == dmem::entry(rest, key),
        text::words(line).len() >= 2 && text::words(line)[0] == key ==> dmem::entry(line, key)
            == Some(text::words(line)[1]),
        text::words(line).len() < 2 || text::words(line)[0] != key ==> dmem::entry(line, key)
            is None,
        dmem::entry(Seq::empty(), key) is None,
{
    let own = lemma_first(line, rest);
    let all = seq![own] + text::lines(rest);
    assert(all[0] == own);
    assert(all.skip(1) == text::lines(rest));
    text_laws::first_line_comes_first(line, rest);
    text_laws::first_line_comes_first(Seq::empty(), rest);
    if line.len() > 0 {
        assert(seq![line].skip(1).len() == 0);
        assert(dmem::entry_in(seq![line].skip(1), key) is None);
    } else {
        assert(text::words(line).len() == 0);
    }
}

/// Wherever it stands, the first line for a region decides: if no line before
/// the `i`th is for the region and the `i`th is, the body sets the region to
/// the second word of that line; if no line is, the body does not set it.
pub proof fn first_line_for_a_region_decides(content: Seq<char>, key: Seq<char>, i: int)
    requires
        0 <= i <= text::lines(content).len(),
        forall|j: int|
            0 <= j < i ==> {
                let w = text::words(#[trigger] text::lines(content)[j]);
                w.len() < 2 || w[0] != key
            },
    ensures
        i < text::lines(content).len() && text::words(text::lines(content)[i]).len() >= 2
            && text::words(text::lines(content)[i])[0] == key ==> dmem::entry(content, key)
            == Some(text::words(text::lines(content)[i])[1]),
        i == text::lines(content).len() ==> dmem::entry(content, key) is None,
{
    lemma_first_line_in(text::lines(content), key, i);
}

proof fn lemma_first_line_in(ls: Seq<Seq<char>>, key: Seq<char>, i: int)
    requires
        0 <= i <= ls.len(),
        forall|j: int|
            0 <= j < i ==> {
                let w = text::words(#[trigger] ls[j]);
                w.len() < 2 || w[0] != key
            },
    ensures
        i < ls.len() && text::words(ls[i]).len() >= 2 && text::words(ls[i])[0] == key
            ==> dmem::entry_in(ls, key) == Some(text::words(ls[i])[1]),
        i == ls.len() ==> dmem::entry_in(ls, key) is None,
    decreases ls.len(),
{
    if i > 0 {
        let tail = ls.skip(1);
        assert forall|j: int| 0 <= j < i - 1 implies {
            let w = text::words(#[trigger] tail[j]);
            w.len() < 2 || w[0] != key
        } by {
            assert(tail[j] == ls[j + 1]);
        }
        lemma_first_line_in(tail, key, i - 1);
        let w = text::words(ls[0]);
        if i < ls.len() {
            assert(tail[i - 1] == ls[i]);
        }
    }
}

/// A body holds a value for a region if one of its lines has the region as its
/// first word and the value as its second: the first line does, or the rest.
pub proof fn any_line_can_hold(line: Seq<char>, rest: Seq<char>, key: Seq<char>, value: u64)
    requires
        !line.contains('\n'),
    ensures
        ({
            let w = text::words(line);
            let own = w.len() >= 2 && w[0] == key && text::number(w[1], u64::MAX as nat) == Some(
                value as nat,
            );
            &&& dmem::holds(line.push('\n') + rest, key, value) <==> own || dmem::holds(
                rest,
                key,
                value,
            )
            &&& dmem::holds(line, key, value) <==> own
        }),
        !dmem::holds(Seq::empty(), key, value),
{
    let own = lemma_first(line, rest);
    let ls = text::lines(rest);
    let all = text::lines(line.push('\n') + rest);
    assert(all[0] == own);
    if dmem::holds(rest, key, value) {
        let i = choose|i: int| 0 <= i < ls.len() && dmem::line_sets(#[trigger] ls[i], key, value);
        assert(all[i + 1] == ls[i]);
        assert(dmem::line_sets(all[i + 1], key, value));
    }
    if dmem::line_sets(own, key, value) {
        assert(dmem::line_sets(all[0], key, value));
    }
    if dmem::holds(line.push('\n') + rest, key, value) {
        let i = choose|i: int| 0 <= i < all.len() && dmem::line_sets(#[trigger] all[i], key, value);
        if i > 0 {
            assert(all[i] == ls[i - 1]);
        }
    }
    text_laws::first_line_comes_first(line, rest);
    text_laws::first_line_comes_first(Seq::empty(), rest);
    if line.len() > 0 {
        assert(text::lines(line)[0] == line);
    } else {
        assert(text::words(line).len() == 0);
    }
}

/// A body lists the regions of its lines in their order: of the first line, if
/// its first word begins with `drm/` and its second is a number above zero, and
/// then those of the rest.
pub proof fn capacity_is_listed_line_by_line(line: Seq<char>, rest: Seq<char>)
    requires
        !line.contains('\n'),
    ensures
        ({
            let w = text::words(line);
            let n = text::number(w[1], u64::MAX as nat);
            let counts = w.len() >= 2 && "drm/"@.is_prefix_of(w[0]) && n is Some && n->0 > 0;
            let own = if counts {
                seq![(w[0], n->0 as u64)]
            } else {
                Seq::empty()
            };
            &&& dmem::capacity(line.push('\n') + rest) == own + dmem::capacity(rest)
            &&& dmem::capacity(line) == own
        }),
        dmem::capacity(Seq::empty()).len() == 0,
{
    let own = lemma_first(line, rest);
    lemma_capacity_front(own, text::lines(rest));
    text_laws::first_line_comes_first(line, rest);
    text_laws::first_line_comes_first(Seq::empty(), rest);
    if line.len() > 0 {
        lemma_capacity_front(line, Seq::empty());
        assert(seq![line] + Seq::<Seq<char>>::empty() == seq![line]);
    } else {
        assert(text::words(line).len() == 0);
        assert(text::lines(line) == Seq::<Seq<char>>::empty());
    }
}

proof fn lemma_capacity_front(line: Seq<char>, ls: Seq<Seq<char>>)
    ensures
        dmem::capacity_in(seq![line] + ls) == (match dmem::capacity_line(line) {
            Some(e) => seq![e],
            None => Seq::empty(),
        }) + dmem::capacity_in(ls),
    decreases ls.len(),
{
    let all = seq![line] + ls;
    if ls.len() == 0 {
        assert(all.drop_last().len() == 0);
        assert(dmem::capacity_in(all.drop_last()).len() == 0);
        assert(all.last() == line);
    } else {
        assert(all.drop_last() == seq![line] + ls.drop_last());
        assert(all.last() == ls.last());
        lemma_capacity_front(line, ls.drop_last());
    }
}

/// The GPU that is chosen without being named is one of those listed; none that
/// is listed is larger, and none after it is as large.
pub proof fn largest_is_the_last_of_the_largest(es: Seq<(Seq<char>, u64)>) -> (k: int)
    requires
        es.len() > 0,
    ensures
        0 <= k < es.len(),
        dmem::largest(es) == es[k],
        forall|i: int| 0 <= i < es.len() ==> (#[trigger] es[i]).1 <= es[k].1,
        forall|i: int| k < i < es.len() ==> (#[trigger] es[i]).1 < es[k].1,
    decreases es.len(),
{
    if es.len() == 1 {
        0
    } else {
        let front = es.drop_last();
        let k = largest_is_the_last_of_the_largest(front);
        assert forall|i: int| 0 <= i < front.len() implies #[trigger] es[i] == front[i] by {}
        if es.last().1 >= front[k].1 {
            es.len() - 1
        } else {
            k
        }
    }
}

/// The GPU that is named is the first that is listed under that name, if any
/// is.
pub proof fn named_is_the_first_so_named(es: Seq<(Seq<char>, u64)>, key: Seq<char>, k: int)
    requires
        0 <= k <= es.len(),
        forall|i: int| 0 <= i < k ==> (#[trigger] es[i]).0 != key,
    ensures
        k < es.len() && es[k].0 == key ==> dmem::named(es, key) == Some(es[k]),
        k == es.len() ==> dmem::named(es, key) is None,
    decreases es.len(),
{
    if k > 0 {
        let tail = es.skip(1);
        assert forall|i: int| 0 <= i < k - 1 implies (#[trigger] tail[i]).0 != key by {
            assert(tail[i] == es[i + 1]);
        }
        named_is_the_first_so_named(tail, key, k - 1);
        assert(es[0].0 != key);
        if k < es.len() {
            assert(tail[k - 1] == es[k]);
        }
    }
}

/// The names that a message lists are those of the regions, in their order.
pub proof fn names_are_those_listed(es: Seq<(Seq<char>, u64)>, i: int)
    requires
        0 <= i < es.len(),
    ensures
        dmem::names(es).len() == es.len(),
        dmem::names(es)[i] == es[i].0,
{
}

/// A directory is refused if and only if two dots stand next to each other
/// somewhere in its path.
pub proof fn refused_dirs_hold_two_dots(dir: Seq<char>)
    ensures
        !dmem::writable_dir(dir) <==> exists|i: int|
            0 <= i < dir.len() - 1 && #[trigger] dir[i] == '.' && dir[i + 1] == '.',
{
    reveal_strlit("..");
    let dots = ".."@;
    text::lemma_find_from(dir, dots, 0);
    if text::occurs_in(dir, dots) {
        let i = choose|i: int| text::occurs_at(dir, dots, i);
        assert(dir.subrange(i, i + 2)[0] == dir[i]);
        assert(dir.subrange(i, i + 2)[1] == dir[i + 1]);
        assert(dir[i] == '.' && dir[i + 1] == '.');
    }
    if exists|i: int| 0 <= i < dir.len() - 1 && #[trigger] dir[i] == '.' && dir[i + 1] == '.' {
        let i = choose|i: int|
            0 <= i < dir.len() - 1 && #[trigger] dir[i] == '.' && dir[i + 1] == '.';
        assert(dir.subrange(i, i + 2) == dots);
        assert(text::occurs_at(dir, dots, i));
    }
}

/// What a write leaves a file with, wherever the region stands among others:
/// a line for another region before it or after it does not change what the
/// body sets the region to.
pub proof fn other_regions_do_not_matter(key: Seq<char>, value: Seq<char>, line: Seq<char>)
    requires
        key.len() > 0,
        text::no_white(key),
        value.len() > 0,
        text::no_white(value),
        !line.contains('\n'),
        text::words(line).len() < 2 || text::words(line)[0] != key,
    ensures
        dmem::entry(line.push('\n') + dmem::entry_line(key, value), key) == Some(value),
        dmem::entry(dmem::entry_line(key, value) + line, key) == Some(value),
{
    entry_goes_past_other_lines(line, dmem::entry_line(key, value), key);
    dmem::read_after_write(key, value, key);
    reveal_strlit(" ");
    let own = key + " "@ + value;
    assert(key + " "@ == key.push(' '));
    text_laws::words_are_runs(key, ' ', value);
    text_laws::words_are_runs(value, ' ', key);
    assert forall|i: int| 0 <= i < own.len() implies own[i] != '\n' by {
        if i < key.len() {
            assert(!text::is_white(key[i]));
        } else if i > key.len() {
            assert(!text::is_white(value[i - key.len() - 1]));
        }
    }
    entry_goes_past_other_lines(own, line, key);
    assert(text::words(own) == seq![key] + seq![value]);
}

/// The body that sets a region: its key, a space, the value and a line feed.
pub proof fn bodies_are_one_line(key: Seq<char>, value: Seq<char>)
    ensures
        dmem::entry_line(key, value) == key + seq![' '] + value + seq!['\n'],
{
    reveal_strlit(" ");
    assert(" "@ == seq![' ']);
    assert((key + " "@ + value).push('\n') == key + " "@ + value + seq!['\n']);
}

/// A user who asks for a region that is not there is told which one, and all
/// that are, in their order.
pub proof fn users_are_told_the_regions(
    wanted: Seq<char>,
    es: Seq<(Seq<char>, u64)>,
    key: Seq<char>,
    size: u64,
)
    ensures
        dmem::unknown_region_message(wanted, seq![(key, size)]) == "DRM_KEY="@ + wanted
            + " is not in dmem.capacity, which lists: "@ + key,
        es.len() > 0 ==> dmem::unknown_region_message(wanted, es.push((key, size)))
            == dmem::unknown_region_message(wanted, es) + ", "@ + key,
{
    let one = seq![(key, size)];
    let front = "DRM_KEY="@ + wanted + " is not in dmem.capacity, which lists: "@;
    assert(dmem::names(one) == seq![key]);
    assert(text::join(seq![key], ", "@) == key);
    if es.len() > 0 {
        assert(dmem::names(es.push((key, size))) == dmem::names(es) + seq![key]);
        text_laws::joins_are_joined(dmem::names(es), seq![key], ", "@, key);
        let listed = text::join(dmem::names(es), ", "@);
        assert(front + (listed + ", "@ + key) == front + listed + ", "@ + key);
    }
}

} // verus!
