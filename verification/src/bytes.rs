//! Bytes that the kernel or another process chose, and the text in them.

use vstd::prelude::*;
use vstd::utf8::*;

verus! {

/// The text that [`lossy_text`] makes of `b`.
pub uninterp spec fn lossy(b: Seq<u8>) -> Seq<char>;

/// The bytes `b` as text, through `String::from_utf8_lossy`, which puts a
/// replacement character where they are not UTF-8. Claimed of it: that the
/// text depends on the bytes alone, and that bytes which are UTF-8 give the
/// text they encode.
#[verifier::external_body]
pub(crate) fn lossy_text(b: &[u8]) -> (r: String)
    ensures
        r@ == lossy(b@),
        valid_utf8(b@) ==> r@ == decode_utf8(b@),
{
    String::from_utf8_lossy(b).into_owned()
}

/// The bytes `b` as text, through `std::str::from_utf8`. Claimed of it: that
/// it succeeds exactly on bytes that are UTF-8, with the text they encode.
#[verifier::external_body]
pub(crate) fn utf8_text(b: &[u8]) -> (r: Option<&str>)
    ensures
        match r {
            Some(s) => valid_utf8(b@) && s@ == decode_utf8(b@),
            None => !valid_utf8(b@),
        },
{
    std::str::from_utf8(b).ok()
}

/// The byte sequences that `v` holds.
pub open spec fn pieces(v: Seq<Vec<u8>>) -> Seq<Seq<u8>> {
    Seq::new(v.len(), |i: int| v[i]@)
}

/// Whether two byte slices are the same.
pub fn same_bytes(a: &[u8], b: &[u8]) -> (r: bool)
    ensures
        r == (a@ == b@),
{
    if a.len() != b.len() {
        return false;
    }
    let mut i: usize = 0;
    while i < a.len()
        invariant
            i <= a.len(),
            a.len() == b.len(),
            forall|k: int| 0 <= k < i ==> a@[k] == b@[k],
        decreases a.len() - i,
    {
        if a[i] != b[i] {
            return false;
        }
        i += 1;
    }
    proof { assert(a@ == b@); }
    true
}

/// A copy of `b`.
pub fn copied(b: &[u8]) -> (r: Vec<u8>)
    ensures
        r@ == b@,
{
    let mut r: Vec<u8> = Vec::new();
    let mut i: usize = 0;
    while i < b.len()
        invariant
            i <= b.len(),
            r@ == b@.take(i as int),
        decreases b.len() - i,
    {
        r.push(b[i]);
        i += 1;
        proof { assert(b@.take(i as int) == b@.take(i - 1).push(b@[i - 1])); }
    }
    proof { assert(b@.take(i as int) == b@); }
    r
}

/// The pieces of `b` between its zero bytes; at least one.
pub open spec fn zero_separated(b: Seq<u8>) -> Seq<Seq<u8>>
    decreases b.len(),
{
    if b.len() == 0 {
        seq![Seq::<u8>::empty()]
    } else {
        let before = zero_separated(b.drop_last());
        if b.last() == 0 {
            before.push(Seq::<u8>::empty())
        } else {
            before.drop_last().push(before.last().push(b.last()))
        }
    }
}

/// Whether `b` ends with `p`.
pub fn ends_with(b: &[u8], p: &[u8]) -> (r: bool)
    ensures
        r == p@.is_suffix_of(b@),
{
    if p.len() > b.len() {
        return false;
    }
    same_bytes(&b[b.len() - p.len()..b.len()], p)
}

/// A copy of the byte sequences in `v`.
pub fn copied_all(v: &Vec<Vec<u8>>) -> (r: Vec<Vec<u8>>)
    ensures
        pieces(r@) == pieces(v@),
{
    let mut r: Vec<Vec<u8>> = Vec::new();
    let mut i: usize = 0;
    while i < v.len()
        invariant
            i <= v.len(),
            r@.len() == i,
            forall|k: int| 0 <= k < i ==> (#[trigger] r@[k])@ == v@[k]@,
        decreases v.len() - i,
    {
        r.push(copied(v[i].as_slice()));
        i += 1;
    }
    proof { assert(pieces(r@) == pieces(v@)); }
    r
}

} // verus!
