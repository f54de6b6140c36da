//! Text from windows and other processes, made fit for a log line or a
//! terminal, and sizes in words.

use vstd::prelude::*;

use crate::text;

verus! {

/// `s` without its control characters.
pub open spec fn visible(s: Seq<char>) -> Seq<char>
    decreases s.len(),
{
    if s.len() == 0 {
        s
    } else if text::is_control(s.last()) {
        visible(s.drop_last())
    } else {
        visible(s.drop_last()).push(s.last())
    }
}

/// The longest a unit or cgroup name can be.
pub const LOG_CAP: usize = 255;

/// What a log line shows of `s`.
pub open spec fn logged(s: Seq<char>) -> Seq<char> {
    let clean = visible(s);
    if clean.len() > LOG_CAP {
        clean.take(LOG_CAP as int).push('\u{2026}')
    } else {
        clean
    }
}

fn visible_of(s: &[char]) -> (r: Vec<char>)
    ensures
        r@ == visible(s@),
{
    let mut r: Vec<char> = Vec::new();
    let mut i: usize = 0;
    while i < s.len()
        invariant
            i <= s.len(),
            r@ == visible(s@.take(i as int)),
        decreases s.len() - i,
    {
        proof { assert(s@.take(i + 1).drop_last() == s@.take(i as int)); }
        if !text::control(s[i]) {
            r.push(s[i]);
        }
        i += 1;
    }
    proof { assert(s@.take(i as int) == s@); }
    r
}

/// Unit names and cgroup paths come from other processes, so they can carry
/// control characters that would rewrite the terminal. Strip them.
pub fn printable(raw: &str) -> (r: String)
    ensures
        r@ == visible(raw@),
{
    text::string_of(visible_of(text::chars_of(raw).as_slice()).as_slice())
}

/// Trim a string that came from a window or another process before it goes
/// into a log line: control characters would let any app forge journal
/// entries, and an overlong id would bury the rest of the line. The cap is
/// the longest a unit or cgroup name can be, so those are never cut.
pub fn loggable(raw: &str) -> (r: String)
    ensures
        r@ == logged(raw@),
{
    let clean = visible_of(text::chars_of(raw).as_slice());
    if clean.len() > LOG_CAP {
        let mut r = text::string_of(&clean.as_slice()[0..LOG_CAP]);
        r.push('\u{2026}');
        proof { assert(clean@.subrange(0, LOG_CAP as int) == clean@.take(LOG_CAP as int)); }
        r
    } else {
        text::string_of(clean.as_slice())
    }
}

/// A text without control characters stays as it is, and what is left of any
/// other holds none.
pub proof fn visible_is_clean(s: Seq<char>)
    ensures
        forall|i: int| 0 <= i < visible(s).len() ==> !text::is_control(#[trigger] visible(s)[i]),
        (forall|i: int| 0 <= i < s.len() ==> !text::is_control(#[trigger] s[i])) ==> visible(s)
            == s,
        visible(s).len() <= s.len(),
    decreases s.len(),
{
    if s.len() > 0 {
        visible_is_clean(s.drop_last());
        let before = visible(s.drop_last());
        assert forall|i: int| 0 <= i < visible(s).len() implies !text::is_control(
            #[trigger] visible(s)[i],
        ) by {
            if i < before.len() {
                assert(visible(s)[i] == before[i]);
            }
        }
        if forall|i: int| 0 <= i < s.len() ==> !text::is_control(#[trigger] s[i]) {
            assert forall|i: int| 0 <= i < s.drop_last().len() implies !text::is_control(
                #[trigger] s.drop_last()[i],
            ) by {
                assert(!text::is_control(s[i]));
            }
            assert(!text::is_control(s[s.len() - 1]));
            assert(visible(s) == s);
        }
    }
}

/// What is logged holds no control character and is never longer than the cap
/// and the mark of the cut; a name that is within the cap and holds no control
/// character is logged as it is; and logging a logged text changes nothing.
pub proof fn logged_is_safe(s: Seq<char>)
    ensures
        forall|i: int| 0 <= i < logged(s).len() ==> !text::is_control(#[trigger] logged(s)[i]),
        logged(s).len() <= LOG_CAP + 1,
        s.len() <= LOG_CAP && (forall|i: int|
            0 <= i < s.len() ==> !text::is_control(#[trigger] s[i])) ==> logged(s) == s,
        logged(logged(s)) == logged(s),
{
    visible_is_clean(s);
    let clean = visible(s);
    let once = logged(s);
    assert forall|i: int| 0 <= i < once.len() implies !text::is_control(#[trigger] once[i]) by {
        if i < LOG_CAP && i < clean.len() {
            assert(once[i] == clean[i]);
        }
    }
    visible_is_clean(once);
    if once.len() > LOG_CAP {
        assert(once.take(LOG_CAP as int) == clean.take(LOG_CAP as int));
    }
}

} // verus!
