//! Places in the cgroup tree below a directory, with their names as the kernel
//! has them: in bytes.

use vstd::prelude::*;
use vstd::string::*;
use vstd::utf8::*;

use crate::bytes;

verus! {

/// A place below some directory: the names on the way to it.
pub struct Place {
    pub names: Vec<Vec<u8>>,
}

impl View for Place {
    type V = Seq<Seq<u8>>;

    open spec fn view(&self) -> Seq<Seq<u8>> {
        bytes::pieces(self.names@)
    }
}

/// The places in `v`.
pub open spec fn places(v: Seq<Place>) -> Seq<Seq<Seq<u8>>> {
    Seq::new(v.len(), |i: int| v[i]@)
}

/// What a directory lists.
pub struct Entry {
    pub name: Vec<u8>,
    /// Whether it is a directory; None if that cannot be told.
    pub is_dir: Option<bool>,
}

/// An [`Entry`] with its bytes.
pub struct EntryView {
    pub name: Seq<u8>,
    pub is_dir: Option<bool>,
}

impl View for Entry {
    type V = EntryView;

    open spec fn view(&self) -> EntryView {
        EntryView { name: self.name@, is_dir: self.is_dir }
    }
}

/// The entries in `v`.
pub open spec fn entries(v: Seq<Entry>) -> Seq<EntryView> {
    Seq::new(v.len(), |i: int| v[i]@)
}

/// What was listed, if anything.
pub open spec fn listing(o: Option<Vec<Entry>>) -> Option<Seq<EntryView>> {
    match o {
        Some(v) => Some(entries(v@)),
        None => None,
    }
}

impl Place {
    /// The directory itself.
    pub fn top() -> (r: Self)
        ensures
            r@ == Seq::<Seq<u8>>::empty(),
    {
        let r = Place { names: Vec::new() };
        proof { assert(r@ == Seq::<Seq<u8>>::empty()); }
        r
    }

    /// The same place.
    pub fn copy(&self) -> (r: Self)
        ensures
            r@ == self@,
    {
        Place { names: bytes::copied_all(&self.names) }
    }

    /// What is called `name` in this place.
    pub fn child(&self, name: &[u8]) -> (r: Self)
        ensures
            r@ == self@.push(name@),
    {
        let mut names = bytes::copied_all(&self.names);
        let ghost before = names@;
        names.push(bytes::copied(name));
        proof { assert(bytes::pieces(names@) == bytes::pieces(before).push(name@)); }
        Place { names }
    }

    /// The path of this place below the directory `root`.
    pub fn path_below(&self, root: &str) -> (r: String)
        ensures
            r@ == path_text(root@, self@),
    {
        let mut path: Vec<u8> = bytes::copied(root.as_bytes());
        let mut i: usize = 0;
        proof { assert(path@ == path_bytes(encode_utf8(root@), self@.take(0))); }
        while i < self.names.len()
            invariant
                i <= self.names.len(),
                path@ == path_bytes(encode_utf8(root@), self@.take(i as int)),
            decreases self.names.len() - i,
        {
            proof {
                assert(self@.take(i + 1).drop_last() == self@.take(i as int));
                assert(self@.take(i + 1).last() == self.names@[i as int]@);
            }
            let ghost before = path@;
            let name = self.names[i].as_slice();
            let n: usize = path.len();
            if name.len() > 0 && name[0] == SLASH {
                path = Vec::new();
            } else if n > 0 && path[n - 1] != SLASH {
                path.push(SLASH);
            }
            path.extend_from_slice(name);
            proof { assert(path@ == joined(before, name@)); }
            i += 1;
        }
        proof { assert(self@.take(i as int) == self@); }
        bytes::lossy_text(path.as_slice())
    }

    /// The last name on the way to this place, as text; empty for the
    /// directory itself.
    pub fn label(&self) -> (r: String)
        ensures
            r@ == label_text(self@),
    {
        let n: usize = self.names.len();
        if n == 0 {
            bytes::lossy_text(Vec::new().as_slice())
        } else {
            bytes::lossy_text(self.names[n - 1].as_slice())
        }
    }
}

pub const SLASH: u8 = 0x2f;

/// What is called `name` in the directory `path`. A separator goes between them
/// where there is none, and an absolute name stands for itself.
pub open spec fn joined(path: Seq<u8>, name: Seq<u8>) -> Seq<u8> {
    if name.len() > 0 && name[0] == SLASH {
        name
    } else if path.len() == 0 || path.last() == SLASH {
        path + name
    } else {
        path.push(SLASH) + name
    }
}

/// The path of a place below `root`.
pub open spec fn path_bytes(root: Seq<u8>, place: Seq<Seq<u8>>) -> Seq<u8>
    decreases place.len(),
{
    if place.len() == 0 {
        root
    } else {
        joined(path_bytes(root, place.drop_last()), place.last())
    }
}

/// The path of a place below `root`, as text.
pub open spec fn path_text(root: Seq<char>, place: Seq<Seq<u8>>) -> Seq<char> {
    bytes::lossy(path_bytes(encode_utf8(root), place))
}

/// The last name on the way to a place, as text.
pub open spec fn label_text(place: Seq<Seq<u8>>) -> Seq<char> {
    bytes::lossy(
        if place.len() == 0 {
            Seq::<u8>::empty()
        } else {
            place.last()
        },
    )
}

} // verus!
