//! Where Umbriel's IPC socket is: `UMBRIEL_SOCKET`, else derived from
//! `WAYLAND_DISPLAY`, else the newest `umbriel-*.sock` in the runtime dir, since
//! a systemd user service does not always inherit the compositor's environment.

use vstd::prelude::*;
use vstd::string::*;
use vstd::utf8::*;

use crate::bytes;
use crate::text;

verus! {

/// How the socket is found.
pub enum SocketPlan {
    /// It is here.
    At(String),
    /// It is in the directory `dir`: by the name `derived`, if there is one
    /// and such a file exists, else by a scan.
    In { dir: String, derived: Option<String> },
    /// There is no place to look in.
    Nowhere,
}

/// A [`SocketPlan`] with its texts.
pub enum PlanView {
    At(Seq<char>),
    In { dir: Seq<char>, derived: Option<Seq<char>> },
    Nowhere,
}

impl View for SocketPlan {
    type V = PlanView;

    open spec fn view(&self) -> PlanView {
        match self {
            SocketPlan::At(p) => PlanView::At(p@),
            SocketPlan::In { dir, derived } => PlanView::In {
                dir: dir@,
                derived: text::opt(*derived),
            },
            SocketPlan::Nowhere => PlanView::Nowhere,
        }
    }
}

/// The name of the socket for a display. An absolute display names none.
pub open spec fn socket_name(display: Option<Seq<char>>) -> Option<Seq<char>> {
    match display {
        Some(d) => if d.len() > 0 && !d.contains('/') {
            Some("umbriel-"@ + d + ".sock"@)
        } else {
            None
        },
        None => None,
    }
}

/// How the socket is found, by what the environment has under
/// `UMBRIEL_SOCKET`, `XDG_RUNTIME_DIR` and `WAYLAND_DISPLAY`.
pub open spec fn plan(
    explicit: Option<Seq<char>>,
    runtime_dir: Option<Seq<char>>,
    display: Option<Seq<char>>,
) -> PlanView {
    match (explicit, runtime_dir) {
        (Some(path), _) => PlanView::At(path),
        (None, Some(dir)) => PlanView::In { dir, derived: socket_name(display) },
        (None, None) => PlanView::Nowhere,
    }
}

fn derived_socket(display: Option<String>) -> (r: Option<String>)
    ensures
        text::opt(r) == socket_name(text::opt(display)),
{
    let d = match display {
        Some(d) => d,
        None => {
            return None;
        },
    };
    let cs = text::chars_of(d.as_str());
    proof { text::lemma_index_of(d@, '/'); }
    if cs.len() == 0 || text::find_char(cs.as_slice(), '/').is_some() {
        proof {
            if let Some(i) = text::index_of(d@, '/') {
                assert(d@.contains(d@[i]));
            }
        }
        return None;
    }
    let mut name = "umbriel-".to_string();
    name.append(d.as_str());
    name.append(".sock");
    Some(name)
}

/// How the socket is found, by what the environment has under
/// `UMBRIEL_SOCKET`, `XDG_RUNTIME_DIR` and `WAYLAND_DISPLAY`.
pub fn umbriel_socket_path(
    explicit: Option<String>,
    runtime_dir: Option<String>,
    display: Option<String>,
) -> (r: SocketPlan)
    ensures
        r@ == plan(text::opt(explicit), text::opt(runtime_dir), text::opt(display)),
{
    if let Some(path) = explicit {
        return SocketPlan::At(path);
    }
    match runtime_dir {
        Some(dir) => SocketPlan::In { dir, derived: derived_socket(display) },
        None => SocketPlan::Nowhere,
    }
}

/// A file in the runtime dir.
pub struct SocketFile {
    pub name: Vec<u8>,
    /// When it was last modified; None if that cannot be told.
    pub modified: Option<i128>,
}

/// A [`SocketFile`] with its bytes.
pub struct FileView {
    pub name: Seq<u8>,
    pub modified: Option<i128>,
}

impl View for SocketFile {
    type V = FileView;

    open spec fn view(&self) -> FileView {
        FileView { name: self.name@, modified: self.modified }
    }
}

/// The files in `v`.
pub open spec fn files(v: Seq<SocketFile>) -> Seq<FileView> {
    Seq::new(v.len(), |i: int| v[i]@)
}

/// The name of a socket of Umbriel's: `umbriel-*.sock`.
pub open spec fn is_socket_name(name: Seq<u8>) -> bool {
    encode_utf8("umbriel-"@).is_prefix_of(name) && encode_utf8(".sock"@).is_suffix_of(name)
}

/// A file modified at `a` is no newer than one modified at `b`; a time that
/// cannot be told is older than any other.
pub open spec fn no_newer(a: Option<i128>, b: Option<i128>) -> bool {
    match (a, b) {
        (None, _) => true,
        (Some(_), None) => false,
        (Some(a), Some(b)) => a <= b,
    }
}

/// The newest of the sockets among the files `fs`, the last of several.
pub open spec fn newest(fs: Seq<FileView>) -> Option<FileView>
    decreases fs.len(),
{
    if fs.len() == 0 {
        None
    } else {
        let before = newest(fs.drop_last());
        let f = fs.last();
        if !is_socket_name(f.name) {
            before
        } else {
            match before {
                Some(b) if !no_newer(b.modified, f.modified) => before,
                _ => Some(f),
            }
        }
    }
}

/// The name of the socket in the runtime dir: the derived one if it exists,
/// else the newest.
pub open spec fn chosen(
    derived: Option<Seq<char>>,
    exists_there: bool,
    listed: Option<Seq<FileView>>,
) -> Option<Seq<u8>> {
    match derived {
        Some(name) if exists_there => Some(encode_utf8(name)),
        _ => match listed {
            Some(fs) => match newest(fs) {
                Some(f) => Some(f.name),
                None => None,
            },
            None => None,
        },
    }
}

fn older_or_same(a: Option<i128>, b: Option<i128>) -> (r: bool)
    ensures
        r == no_newer(a, b),
{
    match (a, b) {
        (None, _) => true,
        (Some(_), None) => false,
        (Some(a), Some(b)) => a <= b,
    }
}

/// Whether `b` begins with `p`.
fn starts_with_bytes(b: &[u8], p: &[u8]) -> (r: bool)
    ensures
        r == p@.is_prefix_of(b@),
{
    if p.len() > b.len() {
        return false;
    }
    bytes::same_bytes(&b[0..p.len()], p)
}

/// The name of the socket in the runtime dir, which lists `listed` (None if it
/// cannot be listed). The derived one counts only if it exists: the user
/// manager can hold a `WAYLAND_DISPLAY` from another compositor or an earlier
/// session, and an absolute one names no `umbriel-*.sock` at all. Either way
/// the scan decides.
pub fn socket_in_runtime_dir(
    derived: Option<String>,
    derived_exists: bool,
    listed: Option<Vec<SocketFile>>,
) -> (r: Option<Vec<u8>>)
    ensures
        match r {
            Some(name) => chosen(
                text::opt(derived),
                derived_exists,
                match listed {
                    Some(v) => Some(files(v@)),
                    None => None,
                },
            ) == Some(name@),
            None => chosen(
                text::opt(derived),
                derived_exists,
                match listed {
                    Some(v) => Some(files(v@)),
                    None => None,
                },
            ) is None,
        },
{
    if derived_exists {
        if let Some(name) = derived {
            return Some(bytes::copied(name.as_str().as_bytes()));
        }
    }
    let fs = match listed {
        Some(fs) => fs,
        None => {
            return None;
        },
    };
    let ghost all = files(fs@);
    let first = "umbriel-";
    let last = ".sock";
    let mut best: Option<usize> = None;
    let mut i: usize = 0;
    while i < fs.len()
        invariant
            i <= fs.len(),
            all == files(fs@),
            first@ == "umbriel-"@,
            last@ == ".sock"@,
            match best {
                Some(b) => b < fs.len() && newest(all.take(i as int)) == Some(fs@[b as int]@),
                None => newest(all.take(i as int)) is None,
            },
        decreases fs.len() - i,
    {
        proof {
            assert(all.take(i + 1).drop_last() == all.take(i as int));
            assert(all.take(i + 1).last() == fs@[i as int]@);
        }
        let name = fs[i].name.as_slice();
        if starts_with_bytes(name, first.as_bytes()) && bytes::ends_with(name, last.as_bytes()) {
            best = match best {
                Some(b) if !older_or_same(fs[b].modified, fs[i].modified) => Some(b),
                _ => Some(i),
            };
        }
        i += 1;
    }
    proof { assert(all.take(i as int) == all); }
    match best {
        Some(b) => Some(bytes::copied(fs[b].name.as_slice())),
        None => None,
    }
}

/// The newest socket is one of the sockets that are there, none of them is
/// newer, and there is none only where there is no socket.
pub proof fn newest_is_newest(fs: Seq<FileView>)
    ensures
        match newest(fs) {
            Some(f) => is_socket_name(f.name) && fs.contains(f) && forall|i: int|
                0 <= i < fs.len() && is_socket_name((#[trigger] fs[i]).name) ==> no_newer(
                    fs[i].modified,
                    f.modified,
                ),
            None => forall|i: int|
                0 <= i < fs.len() ==> !is_socket_name((#[trigger] fs[i]).name),
        },
    decreases fs.len(),
{
    if fs.len() > 0 {
        let front = fs.drop_last();
        newest_is_newest(front);
        assert forall|i: int| 0 <= i < front.len() implies #[trigger] fs[i] == front[i] by {
        }
        if let Some(f) = newest(front) {
            let i = choose|i: int| 0 <= i < front.len() && front[i] == f;
            assert(fs[i] == f);
        }
        assert(fs[fs.len() - 1] == fs.last());
        assert(fs.contains(fs.last()));
    }
}

} // verus!
