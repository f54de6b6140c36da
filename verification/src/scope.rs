//! Cgroup paths: the unit a path belongs to, and the part of the tree that
//! belongs to one user.

use vstd::prelude::*;

use crate::text;

verus! {

/// The last component of a path.
pub open spec fn label(path: Seq<char>) -> Seq<char> {
    match text::last_index_of(path, '/') {
        Some(i) => path.skip(i + 1),
        None => path,
    }
}

/// The name of the unit whose cgroup is `cgroup_dir`: its last component.
pub fn unit_label(cgroup_dir: &str) -> (r: &str)
    ensures
        r@ == label(cgroup_dir@),
{
    let cs = text::chars_of(cgroup_dir);
    let n: usize = cs.len();
    match text::find_last_char(cs.as_slice(), '/') {
        Some(i) => cgroup_dir.substring_char(i + 1, n),
        None => cgroup_dir,
    }
}

/// Some component of the path is `app.slice`.
pub open spec fn in_app_slice(path: Seq<char>) -> bool {
    text::split(path, '/').contains("app.slice"@)
}

/// Whether `cgroup_dir` is `app.slice` or lies below it.
pub fn is_app_scope(cgroup_dir: &str) -> (r: bool)
    ensures
        r == in_app_slice(cgroup_dir@),
{
    let slice = text::chars_of("app.slice");
    let parts = text::split_on(text::chars_of(cgroup_dir).as_slice(), '/');
    let ghost ps = text::split(cgroup_dir@, '/');
    let mut i: usize = 0;
    while i < parts.len()
        invariant
            i <= parts.len(),
            ps == text::split(cgroup_dir@, '/'),
            text::views(parts@) == ps,
            slice@ == "app.slice"@,
            forall|k: int| 0 <= k < i ==> ps[k] != "app.slice"@,
        decreases parts.len() - i,
    {
        proof { assert(ps[i as int] == parts@[i as int]@); }
        if text::same(parts[i].as_slice(), slice.as_slice()) {
            return true;
        }
        i += 1;
    }
    false
}

/// Where the first of `parts` that is not a slice lies, below `base`.
pub open spec fn unit_in(base: Seq<char>, parts: Seq<Seq<char>>) -> Option<Seq<char>>
    decreases parts.len(),
{
    if parts.len() == 0 {
        None
    } else {
        let dir = base + "/"@ + parts[0];
        if ".slice"@.is_suffix_of(parts[0]) {
            unit_in(dir, parts.skip(1))
        } else {
            Some(dir)
        }
    }
}

/// The cgroup of the unit that `path` belongs to.
pub open spec fn unit_of(path: Seq<char>) -> Option<Seq<char>> {
    match text::find(path, "/app.slice/"@) {
        Some(i) => unit_in(
            path.take(i) + "/app.slice"@,
            text::split(path.skip(i + "/app.slice/"@.len()), '/'),
        ),
        None => None,
    }
}

/// The unit a cgroup under `app.slice` belongs to: the first component below
/// it, through any sub-slices, that is not itself a slice. A process can sit
/// deeper, in a cgroup a delegated unit made for itself; dmem protection is
/// recursive, so boosting the unit covers it. None outside `app.slice`, or in
/// a slice.
pub fn app_unit_cgroup(cgroup_dir: &str) -> (r: Option<String>)
    ensures
        match r {
            Some(u) => unit_of(cgroup_dir@) == Some(u@),
            None => unit_of(cgroup_dir@) is None,
        },
{
    let cs = text::chars_of(cgroup_dir);
    let mark = text::chars_of("/app.slice/");
    let dot_slice = text::chars_of(".slice");
    let n: usize = cs.len();
    let at: usize = match text::find_text(cs.as_slice(), mark.as_slice()) {
        Some(i) => i,
        None => {
            return None;
        },
    };
    let rest = &cs.as_slice()[at + mark.len()..n];
    proof { assert(rest@ == cgroup_dir@.skip(at + "/app.slice/"@.len())); }
    let parts = text::split_on(rest, '/');
    let ghost ps = text::split(rest@, '/');
    let mut unit = text::string_of(&cs.as_slice()[0..at]);
    unit.append("/app.slice");
    proof {
        assert(cs@.subrange(0, at as int) == cgroup_dir@.take(at as int));
        assert(ps.skip(0) == ps);
    }
    let mut i: usize = 0;
    while i < parts.len()
        invariant
            i <= parts.len(),
            text::views(parts@) == ps,
            dot_slice@ == ".slice"@,
            unit_of(cgroup_dir@) == unit_in(unit@, ps.skip(i as int)),
        decreases parts.len() - i,
    {
        proof {
            assert(ps.skip(i as int)[0] == parts@[i as int]@);
            assert(ps.skip(i as int).skip(1) == ps.skip(i + 1));
        }
        unit.append("/");
        unit.append(text::string_of(parts[i].as_slice()).as_str());
        if !text::has_suffix(parts[i].as_slice(), dot_slice.as_slice()) {
            return Some(unit);
        }
        i += 1;
    }
    None
}

/// The place of the first of `parts` that is not a slice.
spec fn unit_index(parts: Seq<Seq<char>>) -> Option<int>
    decreases parts.len(),
{
    if parts.len() == 0 {
        None
    } else if !".slice"@.is_suffix_of(parts[0]) {
        Some(0int)
    } else {
        match unit_index(parts.skip(1)) {
            Some(k) => Some(k + 1),
            None => None,
        }
    }
}

proof fn lemma_unit_in(base: Seq<char>, parts: Seq<Seq<char>>)
    ensures
        match unit_index(parts) {
            Some(k) => {
                &&& 0 <= k < parts.len()
                &&& !".slice"@.is_suffix_of(parts[k])
                &&& unit_in(base, parts) == Some(
                    base + "/"@ + text::join(parts.take(k + 1), "/"@),
                )
            },
            None => unit_in(base, parts) is None,
        },
    decreases parts.len(),
{
    if parts.len() > 0 {
        if !".slice"@.is_suffix_of(parts[0]) {
            assert(parts.take(1)[0] == parts[0]);
        } else {
            let dir = base + "/"@ + parts[0];
            lemma_unit_in(dir, parts.skip(1));
            if let Some(k) = unit_index(parts.skip(1)) {
                let tail = parts.skip(1).take(k + 1);
                assert(seq![parts[0]] + tail == parts.take(k + 2));
                lemma_join_front(parts[0], tail, "/"@);
                assert(dir + "/"@ + text::join(tail, "/"@) == base + "/"@ + (parts[0] + "/"@
                    + text::join(tail, "/"@)));
            }
        }
    }
}

proof fn lemma_join_front(first: Seq<char>, tail: Seq<Seq<char>>, sep: Seq<char>)
    requires
        tail.len() >= 1,
    ensures
        text::join(seq![first] + tail, sep) == first + sep + text::join(tail, sep),
    decreases tail.len(),
{
    let all = seq![first] + tail;
    assert(all.last() == tail.last());
    if tail.len() == 1 {
        assert(all.drop_last() == seq![first]);
        assert(text::join(seq![first], sep) == first);
        assert(text::join(tail, sep) == tail.last());
    } else {
        lemma_join_front(first, tail.drop_last(), sep);
        assert(all.drop_last() == seq![first] + tail.drop_last());
        assert(text::join(all, sep) == first + sep + text::join(tail.drop_last(), sep) + sep
            + tail.last());
        assert(text::join(all, sep) == first + sep + text::join(tail, sep));
    }
}

proof fn lemma_unit_index_prefix(parts: Seq<Seq<char>>, more: Seq<Seq<char>>, k: int)
    requires
        unit_index(parts) == Some(k),
        0 <= k < more.len(),
        k < parts.len(),
        more.take(k + 1) == parts.take(k + 1),
    ensures
        unit_index(more) == Some(k),
    decreases k,
{
    assert(more[0] == more.take(k + 1)[0]);
    assert(parts[0] == parts.take(k + 1)[0]);
    if k > 0 {
        assert(more.skip(1).take(k) == more.take(k + 1).skip(1));
        assert(parts.skip(1).take(k) == parts.take(k + 1).skip(1));
        lemma_unit_index_prefix(parts.skip(1), more.skip(1), k - 1);
    } else {
        lemma_unit_index_zero(parts);
    }
}

proof fn lemma_unit_index_zero(parts: Seq<Seq<char>>)
    requires
        unit_index(parts) == Some(0int),
    ensures
        parts.len() > 0,
        !".slice"@.is_suffix_of(parts[0]),
{
    if parts.len() > 0 {
        lemma_unit_in(Seq::empty(), parts.skip(1));
    }
}

/// `path` is `dir`, or goes on from it with another component.
pub open spec fn at_or_below(path: Seq<char>, dir: Seq<char>) -> bool {
    path == dir || (dir + "/"@).is_prefix_of(path)
}

/// Joining two lists of parts joins what each of them gives.
proof fn lemma_join_parts(a: Seq<Seq<char>>, b: Seq<Seq<char>>, sep: Seq<char>)
    requires
        a.len() > 0,
        b.len() > 0,
    ensures
        text::join(a + b, sep) == text::join(a, sep) + sep + text::join(b, sep),
    decreases b.len(),
{
    assert((a + b).drop_last() == a + b.drop_last());
    assert((a + b).last() == b.last());
    if b.len() == 1 {
        assert(a + b.drop_last() == a);
    } else {
        lemma_join_parts(a, b.drop_last(), sep);
        let front = text::join(a, sep) + sep;
        assert(front + text::join(b.drop_last(), sep) + sep + b.last() == front + (text::join(
            b.drop_last(),
            sep,
        ) + sep + b.last()));
    }
}

/// How a path in `app.slice` is put together: what stands before the mark,
/// the mark, and the components below it up to the unit.
proof fn lemma_unit_shape(path: Seq<char>, unit: Seq<char>) -> (r: (int, Seq<Seq<char>>))
    requires
        unit_of(path) == Some(unit),
    ensures
        text::find(path, "/app.slice/"@) == Some(r.0),
        0 <= r.0 <= path.len(),
        r.1.len() >= 1,
        forall|j: int| 0 <= j < r.1.len() ==> !(#[trigger] r.1[j]).contains('/'),
        !".slice"@.is_suffix_of(r.1.last()),
        unit == path.take(r.0) + "/app.slice/"@ + text::join(r.1, "/"@),
        at_or_below(path, unit),
        unit_index(r.1) == Some(r.1.len() - 1),
{
    reveal_strlit("/app.slice/");
    reveal_strlit("/app.slice");
    reveal_strlit("/");
    let mark = "/app.slice/"@;
    let i = text::find(path, mark)->0;
    text::lemma_find_from(path, mark, 0);
    let head = path.take(i);
    let base = head + "/app.slice"@;
    let rest = path.skip(i + mark.len());
    let parts = text::split(rest, '/');
    assert("/"@ == seq!['/']);
    text::lemma_split(rest, '/');
    lemma_unit_in(base, parts);
    let k = unit_index(parts)->0;
    let own = parts.take(k + 1);
    assert(mark == "/app.slice"@ + "/"@);
    assert(unit == head + mark + text::join(own, "/"@));
    assert(path.take(i + mark.len()) == head + path.subrange(i, i + mark.len()));
    assert(path == head + mark + rest);
    if k + 1 == parts.len() {
        assert(own == parts);
    } else {
        lemma_join_parts(own, parts.skip(k + 1), "/"@);
        assert(own + parts.skip(k + 1) == parts);
        let tail = text::join(parts.skip(k + 1), "/"@);
        assert(path == unit + "/"@ + tail);
        assert(path.take((unit + "/"@).len() as int) == unit + "/"@);
    }
    assert forall|j: int| 0 <= j < own.len() implies !(#[trigger] own[j]).contains('/') by {
        assert(own[j] == parts[j]);
    }
    assert(own.take(k + 1) == own);
    lemma_unit_index_prefix(parts, own, k);
    (i, own)
}

/// The last component of a joined path is its last part.
proof fn lemma_label_of_join(head: Seq<char>, parts: Seq<Seq<char>>)
    requires
        parts.len() >= 1,
        !parts.last().contains('/'),
    ensures
        label(head.push('/') + text::join(parts, "/"@)) == parts.last(),
{
    reveal_strlit("/");
    assert("/"@ == seq!['/']);
    let path = head.push('/') + text::join(parts, "/"@);
    let last = parts.last();
    let at = path.len() - last.len() - 1;
    if parts.len() > 1 {
        let front = text::join(parts.drop_last(), "/"@);
        assert(path == head.push('/') + front + seq!['/'] + last);
    } else {
        assert(path == head.push('/') + last);
    }
    assert(path.skip(at + 1) == last);
    assert(path[at] == '/');
    assert forall|j: int| at < j < path.len() implies path[j] != '/' by {
        assert(path[j] == path.skip(at + 1)[j - at - 1]);
        assert(last.contains(last[j - at - 1]));
    }
    text::lemma_last_index_is(path, '/', at);
}

/// A path with the mark in it has `app.slice` as a component.
proof fn lemma_in_app_slice(head: Seq<char>, tail: Seq<char>)
    ensures
        in_app_slice(head + "/app.slice/"@ + tail),
{
    reveal_strlit("/app.slice/");
    reveal_strlit("app.slice");
    let path = head + "/app.slice/"@ + tail;
    let front = head.push('/') + "app.slice"@;
    assert(path == front.push('/') + tail);
    text::lemma_split_concat(front, '/', tail);
    text::lemma_split_concat(head, '/', "app.slice"@);
    assert forall|j: int| 0 <= j < "app.slice"@.len() implies "app.slice"@[j] != '/' by {}
    text::lemma_split_unseparated("app.slice"@, '/');
    let n = text::split(head, '/').len() as int;
    assert(text::split(front, '/')[n] == "app.slice"@);
    assert(text::split(path, '/')[n] == "app.slice"@);
}

/// The unit of a cgroup is that cgroup or one above it, lies in `app.slice`
/// and is not a slice; it is its own unit, the unit of every cgroup below it,
/// and that of every cgroup below the one it was found for.
pub proof fn unit_covers_what_is_below(path: Seq<char>, unit: Seq<char>, below: Seq<char>)
    requires
        unit_of(path) == Some(unit),
    ensures
        at_or_below(path, unit),
        in_app_slice(unit),
        !".slice"@.is_suffix_of(label(unit)),
        unit_of(unit) == Some(unit),
        unit_of(unit + "/"@ + below) == Some(unit),
        unit_of(path + "/"@ + below) == Some(unit),
{
    lemma_unit_covers(path, unit, below);
    if path != unit {
        let rest = path.skip((unit + "/"@).len() as int);
        assert(path == unit + "/"@ + rest);
        assert(path + "/"@ + below == unit + "/"@ + (rest + "/"@ + below));
        lemma_unit_covers(path, unit, rest + "/"@ + below);
    }
}

proof fn lemma_unit_covers(path: Seq<char>, unit: Seq<char>, below: Seq<char>)
    requires
        unit_of(path) == Some(unit),
    ensures
        at_or_below(path, unit),
        in_app_slice(unit),
        !".slice"@.is_suffix_of(label(unit)),
        unit_of(unit) == Some(unit),
        unit_of(unit + "/"@ + below) == Some(unit),
{
    let (i, own) = lemma_unit_shape(path, unit);
    let mark = "/app.slice/"@;
    let head = path.take(i);
    let base = head + "/app.slice"@;
    let tail = text::join(own, "/"@);
    let k = own.len() - 1;
    lemma_in_app_slice(head, tail);
    assert(own.take(k + 1) == own);
    assert(unit == base + "/"@ + tail && "/"@ == seq!['/']) by {
        reveal_strlit("/app.slice/");
        reveal_strlit("/app.slice");
        reveal_strlit("/");
        assert(mark == "/app.slice"@ + "/"@);
        assert("/"@ == seq!['/']);
        assert(head + mark + tail == base + "/"@ + tail);
    }
    assert(base + "/"@ == base.push('/'));
    assert(!own[k].contains('/'));
    lemma_label_of_join(base, own);
    text::lemma_split_join(own, '/');
    lemma_unit_at(path, i, tail);
    lemma_unit_in(base, own);
    let deeper = tail + "/"@ + below;
    assert(unit + "/"@ + below == head + mark + deeper);
    lemma_unit_at(path, i, deeper);
    assert(tail + "/"@ == tail.push('/'));
    text::lemma_split_concat(tail, '/', below);
    let more = own + text::split(below, '/');
    assert(more.take(k + 1) == own);
    lemma_unit_index_prefix(own, more, k);
    lemma_unit_in(base, more);
}

/// Paths that agree up to the mark have it in the same place.
pub proof fn lemma_unit_at(path: Seq<char>, i: int, tail: Seq<char>)
    requires
        text::find(path, "/app.slice/"@) == Some(i),
    ensures
        unit_of(path.take(i) + "/app.slice/"@ + tail) == unit_in(
            path.take(i) + "/app.slice"@,
            text::split(tail, '/'),
        ),
{
    reveal_strlit("/app.slice/");
    let mark = "/app.slice/"@;
    text::lemma_find_from(path, mark, 0);
    let t = path.take(i) + mark + tail;
    assert(t.subrange(i, i + mark.len()) == mark);
    assert(path.take(i + mark.len()) == path.take(i) + path.subrange(i, i + mark.len()));
    assert(t.take(i + mark.len()) == path.take(i + mark.len()));
    assert forall|j: int| 0 <= j < i implies !text::occurs_at(t, mark, j) by {
        assert(t.subrange(j, j + mark.len()) == t.take(i + mark.len()).subrange(j, j + mark.len()));
        assert(path.subrange(j, j + mark.len()) == path.take(i + mark.len()).subrange(
            j,
            j + mark.len(),
        ));
        assert(!text::occurs_at(path, mark, j));
    }
    text::lemma_find_is(t, mark, i);
    assert(t.take(i) == path.take(i));
    assert(t.skip(i + mark.len()) == tail);
}

/// The cgroup on the first of `ls` that names one of the unified hierarchy.
pub open spec fn unified_in(ls: Seq<Seq<char>>) -> Option<Seq<char>>
    decreases ls.len(),
{
    if ls.len() == 0 {
        None
    } else if "0::"@.is_prefix_of(ls[0]) {
        Some("/sys/fs/cgroup"@ + text::trim(ls[0].skip("0::"@.len() as int)))
    } else {
        unified_in(ls.skip(1))
    }
}

/// The cgroup directory that a `/proc/<pid>/cgroup` body names.
pub open spec fn unified(content: Seq<char>) -> Option<Seq<char>> {
    unified_in(text::lines(content))
}

/// The cgroup directory of a process, from the body of its
/// `/proc/<pid>/cgroup`. None if it is in no cgroup of the unified hierarchy.
pub fn cgroup_path(content: &str) -> (r: Option<String>)
    ensures
        match r {
            Some(p) => unified(content@) == Some(p@),
            None => unified(content@) is None,
        },
{
    let mark = text::chars_of("0::");
    let all = text::lines_of(text::chars_of(content).as_slice());
    let ghost ls = text::lines(content@);
    let mut i: usize = 0;
    proof { assert(ls.skip(0) == ls); }
    while i < all.len()
        invariant
            i <= all.len(),
            ls == text::lines(content@),
            text::views(all@) == ls,
            mark@ == "0::"@,
            unified(content@) == unified_in(ls.skip(i as int)),
        decreases all.len() - i,
    {
        let line = all[i].as_slice();
        let n: usize = line.len();
        proof {
            assert(ls.skip(i as int)[0] == line@);
            assert(ls.skip(i as int).skip(1) == ls.skip(i + 1));
        }
        if text::has_prefix(line, mark.as_slice()) {
            let rel = &line[mark.len()..n];
            proof { assert(rel@ == line@.skip("0::"@.len() as int)); }
            let mut p = "/sys/fs/cgroup".to_string();
            p.append(text::string_of(text::trimmed(rel)).as_str());
            return Some(p);
        }
        i += 1;
    }
    None
}

/// The components among the pieces of a path: empty pieces are none, nor is
/// a `.` that does not begin the path.
pub open spec fn components_in(parts: Seq<Seq<char>>) -> Seq<Seq<char>>
    decreases parts.len(),
{
    if parts.len() == 0 {
        Seq::<Seq<char>>::empty()
    } else {
        let before = components_in(parts.drop_last());
        let p = parts.last();
        if p.len() == 0 || (p == "."@ && parts.len() > 1) {
            before
        } else {
            before.push(p)
        }
    }
}

/// A path that starts at the root.
pub open spec fn is_absolute(path: Seq<char>) -> bool {
    path.len() > 0 && path[0] == '/'
}

/// The components of a path; the root directory, if the path starts there, is
/// the first.
pub open spec fn components(path: Seq<char>) -> Seq<Seq<char>> {
    if is_absolute(path) {
        seq!["/"@] + components_in(text::split(path, '/'))
    } else {
        components_in(text::split(path, '/'))
    }
}

/// `path` is `root` or lies below it, component by component.
pub open spec fn lies_in(path: Seq<char>, root: Seq<char>) -> bool {
    components(root).is_prefix_of(components(path))
}

/// The components of a path.
fn components_of(path: &str) -> (r: Vec<Vec<char>>)
    ensures
        text::views(r@) == components(path@),
{
    let cs = text::chars_of(path);
    let dot = text::chars_of(".");
    let slash = text::chars_of("/");
    let parts = text::split_on(cs.as_slice(), '/');
    let ghost ps = text::split(path@, '/');
    let mut r: Vec<Vec<char>> = Vec::new();
    if cs.len() > 0 && cs[0] == '/' {
        r.push(slash);
    }
    let ghost front = text::views(r@);
    proof {
        assert(is_absolute(path@) ==> front == seq!["/"@]);
        assert(front + components_in(ps.take(0)) == front);
        assert(components(path@) == front + components_in(ps));
    }
    let mut i: usize = 0;
    while i < parts.len()
        invariant
            i <= parts.len(),
            text::views(parts@) == ps,
            dot@ == "."@,
            text::views(r@) == front + components_in(ps.take(i as int)),
        decreases parts.len() - i,
    {
        proof {
            assert(ps.take(i + 1).drop_last() == ps.take(i as int));
            assert(ps.take(i + 1).last() == parts@[i as int]@);
        }
        if parts[i].len() > 0 && !(text::same(parts[i].as_slice(), dot.as_slice()) && i > 0) {
            let ghost before = r@;
            r.push(parts[i].clone());
            proof {
                assert(text::views(r@) == text::views(before).push(ps[i as int]));
                assert(text::views(r@) == front + components_in(ps.take(i + 1)));
            }
        }
        i += 1;
    }
    proof { assert(ps.take(i as int) == ps); }
    r
}

/// Whether `path` is `root` or lies below it.
pub fn starts_with(path: &str, root: &str) -> (r: bool)
    ensures
        r == lies_in(path@, root@),
{
    let a = components_of(path);
    let b = components_of(root);
    let ghost ca = components(path@);
    let ghost cb = components(root@);
    if b.len() > a.len() {
        return false;
    }
    let mut i: usize = 0;
    while i < b.len()
        invariant
            i <= b.len() <= a.len(),
            ca == components(path@),
            cb == components(root@),
            text::views(a@) == ca,
            text::views(b@) == cb,
            forall|k: int| 0 <= k < i ==> ca[k] == cb[k],
        decreases b.len() - i,
    {
        proof {
            assert(ca[i as int] == a@[i as int]@);
            assert(cb[i as int] == b@[i as int]@);
        }
        if !text::same(a[i].as_slice(), b[i].as_slice()) {
            proof {
                assert(ca.take(cb.len() as int)[i as int] != cb[i as int]);
            }
            return false;
        }
        i += 1;
    }
    proof { assert(ca.take(cb.len() as int) == cb); }
    true
}

/// The part of the cgroup tree that belongs to one user: the user's slice, and
/// the app and session slices of the user's manager inside it.
pub struct UserScope {
    pub user_root: String,
    pub app_slice: String,
    pub session_slice: String,
}

/// The slice of the user `uid`.
pub open spec fn user_root(uid: u32) -> Seq<char> {
    "/sys/fs/cgroup/user.slice/user-"@ + text::decimal(uid as nat) + ".slice"@
}

/// The slice `name` of the manager of the user `uid`.
pub open spec fn manager_slice(uid: u32, name: Seq<char>) -> Seq<char> {
    user_root(uid) + "/user@"@ + text::decimal(uid as nat) + ".service/"@ + name
}

/// The part of the cgroup tree that belongs to the user `uid`.
pub fn user_scope(uid: u32) -> (r: UserScope)
    ensures
        r.user_root@ == user_root(uid),
        r.app_slice@ == manager_slice(uid, "app.slice"@),
        r.session_slice@ == manager_slice(uid, "session.slice"@),
{
    let id = text::decimal_of(uid as u64);
    let mut root = "/sys/fs/cgroup/user.slice/user-".to_string();
    root.append(id.as_str());
    root.append(".slice");
    let mut manager = root.clone();
    manager.append("/user@");
    manager.append(id.as_str());
    manager.append(".service/");
    let mut app = manager.clone();
    app.append("app.slice");
    manager.append("session.slice");
    UserScope { user_root: root, app_slice: app, session_slice: manager }
}

/// The components of a path with one more name at the end are those of the
/// path and that name.
pub proof fn lemma_components_of_child(dir: Seq<char>, name: Seq<char>)
    requires
        dir.len() > 0,
        name.len() > 0,
        name != "."@,
        !name.contains('/'),
    ensures
        components(dir + "/"@ + name) == components(dir).push(name),
{
    reveal_strlit("/");
    assert("/"@ == seq!['/']);
    let path = dir + "/"@ + name;
    assert(path == dir.push('/') + name);
    text::lemma_split_concat(dir, '/', name);
    text::lemma_split_unseparated(name, '/');
    let ps = text::split(path, '/');
    assert(ps.drop_last() == text::split(dir, '/'));
    assert(ps.last() == name);
    assert(path[0] == dir[0]);
    assert(components(path) == components(dir).push(name));
}

/// A slice of a user's manager lies in the slice of that user.
pub proof fn manager_slice_is_the_users(uid: u32, name: Seq<char>)
    requires
        name.len() > 0,
        name != "."@,
        !name.contains('/'),
    ensures
        lies_in(manager_slice(uid, name), user_root(uid)),
        is_absolute(user_root(uid)),
{
    reveal_strlit("/sys/fs/cgroup/user.slice/user-");
    reveal_strlit("/user@");
    reveal_strlit(".service/");
    reveal_strlit("/");
    reveal_strlit(".");
    let root = user_root(uid);
    let id = text::decimal(uid as nat);
    text::lemma_decimal_value(uid as nat);
    assert(root[0] == "/sys/fs/cgroup/user.slice/user-"@[0]);
    let manager = seq!['u', 's', 'e', 'r', '@'] + id + seq![
        '.',
        's',
        'e',
        'r',
        'v',
        'i',
        'c',
        'e',
    ];
    assert(manager[0] == 'u');
    assert(!manager.contains('/')) by {
        assert forall|i: int| 0 <= i < manager.len() implies manager[i] != '/' by {
            if 5 <= i < 5 + id.len() {
                assert(text::is_digit(id[i - 5]));
            }
        }
    }
    lemma_components_of_child(root, manager);
    let dir = root + "/"@ + manager;
    lemma_components_of_child(dir, name);
    assert(manager_slice(uid, name) == dir + "/"@ + name);
    assert(components(dir + "/"@ + name).take(components(root).len() as int) == components(root));
}

proof fn lemma_component_is_piece(parts: Seq<Seq<char>>, c: Seq<char>)
    requires
        components_in(parts).contains(c),
    ensures
        parts.contains(c),
    decreases parts.len(),
{
    if parts.len() > 0 {
        let before = components_in(parts.drop_last());
        if before.contains(c) {
            lemma_component_is_piece(parts.drop_last(), c);
            let k = choose|k: int| 0 <= k < parts.drop_last().len() && parts.drop_last()[k] == c;
            assert(parts[k] == c);
        } else {
            let k = choose|k: int| 0 <= k < components_in(parts).len() && components_in(parts)[k] == c;
            if k < before.len() {
                assert(before[k] == c);
            }
            assert(parts[parts.len() - 1] == c);
        }
    }
}

/// A file of a cgroup below `root` that is written to lies below `root` too,
/// and its path does not climb: no component of it is `..`.
pub proof fn written_file_lies_in(dir: Seq<char>, name: Seq<char>, root: Seq<char>)
    requires
        is_absolute(root),
        lies_in(dir, root),
        crate::dmem::writable_dir(dir),
        name.len() > 0,
        name != "."@,
        name != ".."@,
        !name.contains('/'),
    ensures
        lies_in(dir + "/"@ + name, root),
        !components(dir + "/"@ + name).contains(".."@),
{
    reveal_strlit("/");
    reveal_strlit("..");
    assert(dir.len() > 0) by {
        if dir.len() == 0 {
            text::lemma_split_unseparated(dir, '/');
            let ps = text::split(dir, '/');
            assert(ps.drop_last().len() == 0);
            assert(components_in(ps.drop_last()).len() == 0);
            assert(ps.last() == dir);
            assert(components(dir).len() == 0);
        }
    }
    lemma_components_of_child(dir, name);
    let all = components(dir + "/"@ + name);
    assert(all.take(components(root).len() as int) == components(dir).take(
        components(root).len() as int,
    ));
    if all.contains(".."@) {
        let k = choose|k: int| 0 <= k < all.len() && all[k] == ".."@;
        assert(all[k] == components(dir)[k]);
        assert("/"@ != ".."@);
        let inner = components_in(text::split(dir, '/'));
        if is_absolute(dir) {
            assert(inner[k - 1] == ".."@);
        }
        assert(inner.contains(".."@));
        lemma_component_is_piece(text::split(dir, '/'), ".."@);
        text::lemma_piece_occurs(dir, '/', ".."@);
    }
}

} // verus!
