//! What cgroup paths say.

use vstd::prelude::*;

use crate::scope;
use crate::text;
use crate::text_laws;

verus! {

/// The label of a path is what follows its last slash, or all of it if it has
/// none.
pub proof fn labels_follow_the_last_slash(head: Seq<char>, name: Seq<char>)
    requires
        !name.contains('/'),
    ensures
        scope::label(head.push('/') + name) == name,
        scope::label(name) == name,
{
    let path = head.push('/') + name;
    let at = head.len() as int;
    assert(path[at] == '/');
    assert forall|j: int| at < j < path.len() implies path[j] != '/' by {
        assert(name.contains(name[j - at - 1]));
    }
    text::lemma_last_index_is(path, '/', at);
    assert(path.skip(at + 1) == name);
    text::lemma_index_of(name, '/');
}

/// A path lies in `app.slice` if and only if one of the names it is made of is
/// exactly that.
pub proof fn app_slice_is_a_whole_name(names: Seq<Seq<char>>)
    requires
        names.len() > 0,
        forall|i: int| 0 <= i < names.len() ==> !(#[trigger] names[i]).contains('/'),
    ensures
        scope::in_app_slice(text::join(names, seq!['/'])) <==> names.contains("app.slice"@),
{
    text::lemma_split_join(names, '/');
}

/// The names `slices` all end in `.slice`.
pub open spec fn all_slices(slices: Seq<Seq<char>>) -> bool {
    forall|i: int| 0 <= i < slices.len() ==> ".slice"@.is_suffix_of(#[trigger] slices[i])
}

proof fn lemma_past_slices(
    base: Seq<char>,
    slices: Seq<Seq<char>>,
    name: Seq<char>,
    below: Seq<Seq<char>>,
)
    requires
        all_slices(slices),
        !".slice"@.is_suffix_of(name),
    ensures
        scope::unit_in(base, slices + seq![name] + below) == Some(
            base + "/"@ + text::join(slices + seq![name], "/"@),
        ),
    decreases slices.len(),
{
    let all = slices + seq![name] + below;
    if slices.len() == 0 {
        assert(all[0] == name);
        assert(slices + seq![name] == seq![name]);
    } else {
        let tail = slices.skip(1);
        assert(all[0] == slices[0]);
        assert(all.skip(1) == tail + seq![name] + below);
        assert forall|i: int| 0 <= i < tail.len() implies ".slice"@.is_suffix_of(
            #[trigger] tail[i],
        ) by {
            assert(tail[i] == slices[i + 1]);
        }
        let dir = base + "/"@ + slices[0];
        lemma_past_slices(dir, tail, name, below);
        text_laws::joins_are_joined(seq![slices[0]], tail + seq![name], "/"@, slices[0]);
        assert(seq![slices[0]] + (tail + seq![name]) == slices + seq![name]);
        assert(dir + "/"@ + text::join(tail + seq![name], "/"@) == base + "/"@ + (slices[0] + "/"@
            + text::join(tail + seq![name], "/"@)));
    }
}

proof fn lemma_only_slices(base: Seq<char>, slices: Seq<Seq<char>>)
    requires
        all_slices(slices),
    ensures
        scope::unit_in(base, slices) is None,
    decreases slices.len(),
{
    if slices.len() > 0 {
        let tail = slices.skip(1);
        assert forall|i: int| 0 <= i < tail.len() implies ".slice"@.is_suffix_of(
            #[trigger] tail[i],
        ) by {
            assert(tail[i] == slices[i + 1]);
        }
        lemma_only_slices(base + "/"@ + slices[0], tail);
    }
}

/// None of the names holds a slash.
pub open spec fn plain(names: Seq<Seq<char>>) -> bool {
    forall|i: int| 0 <= i < names.len() ==> !(#[trigger] names[i]).contains('/')
}

/// The unit of a cgroup below `app.slice` is found past any number of slices:
/// the first name that is no slice, however much follows it. Where there are
/// only slices there is no unit, nor is there one outside `app.slice`.
pub proof fn unit_is_the_first_name_past_the_slices(
    head: Seq<char>,
    slices: Seq<Seq<char>>,
    name: Seq<char>,
    below: Seq<Seq<char>>,
    elsewhere: Seq<char>,
)
    requires
        !text::occurs_in(head + "/app.slice"@, "/app.slice/"@),
        all_slices(slices),
        plain(slices),
        plain(below),
        !name.contains('/'),
        !".slice"@.is_suffix_of(name),
        !text::occurs_in(elsewhere, "/app.slice/"@),
    ensures
        scope::unit_of(
            head + "/app.slice/"@ + text::join(slices + seq![name] + below, "/"@),
        ) == Some(head + "/app.slice/"@ + text::join(slices + seq![name], "/"@)),
        slices.len() > 0 ==> scope::unit_of(
            head + "/app.slice/"@ + text::join(slices, "/"@),
        ) is None,
        scope::unit_of(elsewhere) is None,
{
    reveal_strlit("/app.slice/");
    reveal_strlit("/app.slice");
    reveal_strlit("/");
    let mark = "/app.slice/"@;
    let base = head + "/app.slice"@;
    assert("/"@ == seq!['/']);
    let all = slices + seq![name] + below;
    assert forall|i: int| 0 <= i < all.len() implies !(#[trigger] all[i]).contains('/') by {
        if i < slices.len() {
            assert(all[i] == slices[i]);
        } else if i > slices.len() {
            assert(all[i] == below[i - slices.len() - 1]);
        }
    }
    let tail = text::join(all, "/"@);
    let path = head + mark + tail;
    lemma_first_mark(head, tail);
    assert(path.take(head.len() as int) == head);
    scope::lemma_unit_at(path, head.len() as int, tail);
    text::lemma_split_join(all, '/');
    lemma_past_slices(base, slices, name, below);
    let unit = text::join(slices + seq![name], "/"@);
    assert(base + "/"@ + unit == head + mark + unit);
    if slices.len() > 0 {
        let t = text::join(slices, "/"@);
        lemma_first_mark(head, t);
        assert((head + mark + t).take(head.len() as int) == head);
        scope::lemma_unit_at(head + mark + t, head.len() as int, t);
        text::lemma_split_join(slices, '/');
        lemma_only_slices(base, slices);
    }
    text::lemma_find_from(elsewhere, mark, 0);
    if let Some(i) = text::find(elsewhere, mark) {
        assert(text::occurs_at(elsewhere, mark, i));
    }
}

proof fn lemma_first_mark(head: Seq<char>, tail: Seq<char>)
    requires
        !text::occurs_in(head + "/app.slice"@, "/app.slice/"@),
    ensures
        text::find(head + "/app.slice/"@ + tail, "/app.slice/"@) == Some(head.len() as int),
{
    let mark = "/app.slice/"@;
    let bare = "/app.slice"@;
    assert(mark == bare.push('/') && bare.len() == 10) by {
        reveal_strlit("/app.slice/");
        reveal_strlit("/app.slice");
    }
    let path = head + mark + tail;
    let n = head.len() as int;
    assert(path.subrange(n, n + mark.len()) == mark);
    let short = head + bare;
    assert(path.take(n + 10) == short);
    assert forall|j: int| 0 <= j < n implies !text::occurs_at(path, mark, j) by {
        if text::occurs_at(path, mark, j) {
            assert(path.subrange(j, j + 11) == path.take(n + 10).subrange(j, j + 11));
            assert(text::occurs_at(short, mark, j));
        }
    }
    text::lemma_find_is(path, mark, n);
}

/// The cgroup of a process is named by the first line that begins with `0::`,
/// by what follows that, without the white space around it; other lines before
/// it do not matter.
pub proof fn unified_line_decides(rel: Seq<char>, line: Seq<char>, rest: Seq<char>)
    requires
        !rel.contains('\n'),
        rel.len() == 0 || rel.last() != '\r',
        !line.contains('\n'),
        line.len() == 0 || line.last() != '\r',
        !"0::"@.is_prefix_of(line),
    ensures
        scope::unified(("0::"@ + rel).push('\n') + rest) == Some(
            "/sys/fs/cgroup"@ + text::trim(rel),
        ),
        scope::unified(line.push('\n') + rest) == scope::unified(rest),
        scope::unified(Seq::empty()) is None,
{
    reveal_strlit("0::");
    let own = "0::"@ + rel;
    assert forall|i: int| 0 <= i < own.len() implies own[i] != '\n' by {
        if i >= 3 {
            assert(rel.contains(rel[i - 3]));
        }
    }
    text_laws::first_line_comes_first(own, rest);
    text_laws::first_line_comes_first(line, rest);
    text_laws::first_line_comes_first(Seq::empty(), rest);
    let all = seq![own] + text::lines(rest);
    assert(all[0] == own);
    assert(own.take(3) == "0::"@);
    assert(own.skip(3) == rel);
    let other = seq![line] + text::lines(rest);
    assert(other[0] == line);
    assert(other.skip(1) == text::lines(rest));
}

/// Names that a path can be made of.
pub open spec fn proper_names(names: Seq<Seq<char>>) -> bool {
    forall|i: int|
        0 <= i < names.len() ==> (#[trigger] names[i]).len() > 0 && names[i] != "."@
            && !names[i].contains('/')
}

proof fn lemma_absolute_components(names: Seq<Seq<char>>)
    requires
        names.len() > 0,
        proper_names(names),
    ensures
        scope::components("/"@ + text::join(names, "/"@)) == seq!["/"@] + names,
        ("/"@ + text::join(names, "/"@)).len() > 0,
    decreases names.len(),
{
    reveal_strlit("/");
    let path = "/"@ + text::join(names, "/"@);
    assert(path[0] == '/');
    let last = names[names.len() - 1];
    if names.len() == 1 {
        let none = Seq::<char>::empty();
        assert(path == none.push('/') + last);
        text::lemma_split_concat(none, '/', last);
        text::lemma_split_unseparated(last, '/');
        text::lemma_split_unseparated(none, '/');
        let ps = text::split(path, '/');
        assert(ps == seq![none, last]);
        assert(ps.drop_last() == seq![none]);
        assert(seq![none].drop_last().len() == 0);
        assert(scope::components_in(seq![none].drop_last()).len() == 0);
        assert(scope::components_in(seq![none]).len() == 0);
        assert(scope::components_in(ps) == seq![last]);
        assert(names == seq![last]);
    } else {
        let front = names.drop_last();
        assert forall|i: int| 0 <= i < front.len() implies (#[trigger] front[i]).len() > 0
            && front[i] != "."@ && !front[i].contains('/') by {
            assert(front[i] == names[i]);
        }
        lemma_absolute_components(front);
        let dir = "/"@ + text::join(front, "/"@);
        scope::lemma_components_of_child(dir, last);
        assert(path == dir + "/"@ + last);
        assert((seq!["/"@] + front).push(last) == seq!["/"@] + names);
    }
}

/// One path lies in another if and only if the names of the other are the
/// first of its own: a name that merely begins with another is not below it.
pub proof fn paths_are_compared_by_whole_names(path: Seq<Seq<char>>, root: Seq<Seq<char>>)
    requires
        path.len() > 0,
        root.len() > 0,
        proper_names(path),
        proper_names(root),
    ensures
        scope::lies_in("/"@ + text::join(path, "/"@), "/"@ + text::join(root, "/"@)) <==> root.len()
            <= path.len() && forall|i: int| 0 <= i < root.len() ==> #[trigger] root[i] == path[i],
{
    lemma_absolute_components(path);
    lemma_absolute_components(root);
    let a = seq!["/"@] + path;
    let b = seq!["/"@] + root;
    if b.is_prefix_of(a) {
        assert forall|i: int| 0 <= i < root.len() implies #[trigger] root[i] == path[i] by {
            assert(b[i + 1] == a.take(b.len() as int)[i + 1]);
        }
    }
    if root.len() <= path.len() && forall|i: int|
        0 <= i < root.len() ==> #[trigger] root[i] == path[i] {
        assert forall|i: int| 0 <= i < b.len() implies b[i] == a.take(b.len() as int)[i] by {
            if i > 0 {
                assert(root[i - 1] == path[i - 1]);
            }
        }
        assert(b == a.take(b.len() as int));
    }
}

/// Where the slices of a user are: below the root of the cgroup tree and under
/// the user's own manager.
pub proof fn slices_of_a_user_are_here(uid: u32)
    ensures
        scope::user_root(uid) == "/sys/fs/cgroup/user.slice/user-"@ + text::decimal(uid as nat)
            + ".slice"@,
        scope::manager_slice(uid, "app.slice"@) == "/sys/fs/cgroup/user.slice/user-"@
            + text::decimal(uid as nat) + ".slice/user@"@ + text::decimal(uid as nat)
            + ".service/app.slice"@,
        scope::manager_slice(uid, "session.slice"@) == "/sys/fs/cgroup/user.slice/user-"@
            + text::decimal(uid as nat) + ".slice/user@"@ + text::decimal(uid as nat)
            + ".service/session.slice"@,
{
    reveal_strlit(".slice");
    reveal_strlit("/user@");
    reveal_strlit(".slice/user@");
    reveal_strlit(".service/");
    reveal_strlit("app.slice");
    reveal_strlit("session.slice");
    reveal_strlit(".service/app.slice");
    reveal_strlit(".service/session.slice");
    assert(".slice"@ + "/user@"@ == ".slice/user@"@);
    assert(".service/"@ + "app.slice"@ == ".service/app.slice"@);
    assert(".service/"@ + "session.slice"@ == ".service/session.slice"@);
    let front = "/sys/fs/cgroup/user.slice/user-"@ + text::decimal(uid as nat);
    let id = text::decimal(uid as nat);
    assert(scope::manager_slice(uid, "app.slice"@) == front + (".slice"@ + "/user@"@) + id + (
    ".service/"@ + "app.slice"@));
    assert(scope::manager_slice(uid, "session.slice"@) == front + (".slice"@ + "/user@"@) + id + (
    ".service/"@ + "session.slice"@));
}

/// What a piece of a path adds to it: nothing where it is empty or a `.`, and
/// else itself, whether it is a name or climbs. At the front a `.` counts, and
/// so does the slash of a path that begins at the root.
pub proof fn pieces_of_a_path_add_up(path: Seq<char>, piece: Seq<char>)
    requires
        !piece.contains('/'),
    ensures
        path.len() > 0 ==> scope::components(path + "/"@ + piece) == (if piece.len() == 0 || piece
            == "."@ {
            scope::components(path)
        } else {
            scope::components(path).push(piece)
        }),
        piece.len() > 0 ==> scope::components(piece) == seq![piece],
        scope::components(Seq::empty()).len() == 0,
        scope::components("/"@) == seq!["/"@],
{
    reveal_strlit("/");
    text::lemma_split_unseparated(piece, '/');
    text::lemma_split_unseparated(Seq::empty(), '/');
    text::lemma_split_concat(Seq::empty(), '/', Seq::empty());
    let none = Seq::<char>::empty();
    let nothing = Seq::<Seq<char>>::empty();
    assert(seq![none].drop_last() == nothing);
    assert(scope::components_in(nothing) == nothing);
    assert(scope::components_in(seq![none]) == nothing);
    assert("/"@ == none.push('/') + none);
    let pair = seq![none] + seq![none];
    assert(pair.drop_last() == seq![none]);
    assert(scope::components_in(pair) == nothing);
    assert(scope::components("/"@) == seq!["/"@] + nothing);
    assert(seq!["/"@] + nothing == seq!["/"@]);
    if piece.len() > 0 {
        assert(seq![piece].drop_last() == nothing);
        assert(piece.contains(piece[0]));
        assert(nothing.push(piece) == seq![piece]);
    }
    if path.len() > 0 {
        let whole = path + "/"@ + piece;
        assert(whole == path.push('/') + piece);
        text::lemma_split_concat(path, '/', piece);
        text::lemma_split(path, '/');
        let parts = text::split(path, '/');
        assert(text::split(whole, '/') == parts + seq![piece]);
        assert((parts + seq![piece]).drop_last() == parts);
        assert((parts + seq![piece]).last() == piece);
        assert(whole[0] == path[0]);
        let root = seq!["/"@];
        assert((root + scope::components_in(parts)).push(piece) == root + scope::components_in(
            parts,
        ).push(piece));
    }
}

} // verus!
