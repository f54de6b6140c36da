//! Resolving one window to the unit to boost.

use vstd::prelude::*;

use crate::display;
use crate::scope;
use crate::text;

verus! {

/// How many generations below a process its unit is looked for.
pub const SEARCH_DEPTH: usize = 3;

/// How long a lookup may take, in milliseconds.
pub const LOOKUP_BUDGET: u64 = 800;

/// How much longer its result is waited for, in milliseconds.
pub const HANDOFF_BUDGET: u64 = 200;

/// How a window is resolved.
#[derive(Clone, Copy, Debug, PartialEq, Eq, Structural)]
pub enum Lookup {
    /// By its process, down to [`SEARCH_DEPTH`] generations below it.
    Pid(u32),
    /// By its app id.
    AppId,
    /// Not at all: there is nothing to resolve it by.
    Nothing,
}

/// The process of a window is there: `cgroup` is the body of its cgroup file.
pub open spec fn is_live(pid: Option<u32>, cgroup: Option<Seq<char>>) -> bool {
    pid is Some && match cgroup {
        Some(c) => scope::unified(c) is Some,
        None => false,
    }
}

/// How a window is resolved.
pub open spec fn lookup(pid: Option<u32>, cgroup: Option<Seq<char>>, app_id: Seq<char>) -> Lookup {
    if is_live(pid, cgroup) {
        Lookup::Pid(pid->0)
    } else if app_id.len() > 0 {
        Lookup::AppId
    } else {
        Lookup::Nothing
    }
}

/// How a window is resolved; `cgroup` is the body of `/proc/<pid>/cgroup`, if
/// it can be read. A live pid is authoritative: it resolves exactly through
/// /proc, and a pid outside app.slice means "nothing to boost" rather than a
/// licence to guess. The app_id is matched against unit names and process
/// environments only when there is no usable pid (an X11 window behind
/// xwayland-satellite, or a process that exited meanwhile).
pub fn plan_focus(pid: Option<u32>, cgroup: Option<String>, app_id: &str) -> (r: Lookup)
    ensures
        r == lookup(pid, text::opt(cgroup), app_id@),
{
    let live = match cgroup {
        Some(c) => scope::cgroup_path(c.as_str()).is_some(),
        None => false,
    };
    match pid {
        Some(p) if live => Lookup::Pid(p),
        _ => if app_id.is_empty() {
            Lookup::Nothing
        } else {
            Lookup::AppId
        },
    }
}

/// Where a window is live, its app id plays no part in how it is resolved.
pub proof fn live_pid_is_authoritative(
    pid: u32,
    cgroup: Seq<char>,
    app1: Seq<char>,
    app2: Seq<char>,
)
    requires
        scope::unified(cgroup) is Some,
    ensures
        lookup(Some(pid), Some(cgroup), app1) == Lookup::Pid(pid),
        lookup(Some(pid), Some(cgroup), app1) == lookup(Some(pid), Some(cgroup), app2),
{
}

/// The name of a process, by the body of its `comm` file.
pub open spec fn comm_name(content: Option<Seq<char>>) -> Seq<char> {
    match content {
        Some(c) => text::trim(c),
        None => Seq::empty(),
    }
}

/// The name of a process, by the body of its `comm` file; empty if that cannot
/// be read.
pub fn pid_comm(content: Option<String>) -> (r: String)
    ensures
        r@ == comm_name(text::opt(content)),
{
    match content {
        Some(c) => text::string_of(text::trimmed(text::chars_of(c.as_str()).as_slice())),
        None => {
            let none = String::new();
            proof { assert(none@ == Seq::<char>::empty()); }
            none
        },
    }
}

/// The unit that was found, if it lies in the user's own slice.
pub open spec fn owned(found: Option<Seq<char>>, user_root: Seq<char>) -> Option<Seq<char>> {
    match found {
        Some(c) => if scope::lies_in(c, user_root) {
            Some(c)
        } else {
            None
        },
        None => None,
    }
}

/// The unit that was found, if it is this daemon's to write. A pid may belong
/// to any user on the system; only this user's own slice is.
pub fn own_unit(found: Option<String>, user_root: &str) -> (r: Option<String>)
    ensures
        text::opt(r) == owned(text::opt(found), user_root@),
{
    match found {
        Some(c) => if scope::starts_with(c.as_str(), user_root) {
            Some(c)
        } else {
            None
        },
        None => None,
    }
}

/// What the log calls a window.
pub open spec fn source_text(pid: Option<u32>, comm: Seq<char>, app_id: Seq<char>) -> Seq<char> {
    match pid {
        Some(p) => "pid="@ + text::decimal(p as nat) + " ("@ + display::logged(comm) + ") app_id="@
            + display::logged(app_id),
        None => "app_id="@ + display::logged(app_id),
    }
}

/// What the log calls a window whose process is called `comm`.
pub fn source(pid: Option<u32>, comm: &str, app_id: &str) -> (r: String)
    ensures
        r@ == source_text(pid, comm@, app_id@),
{
    let id = display::loggable(app_id);
    match pid {
        Some(p) => {
            let mut s = "pid=".to_string();
            s.append(text::decimal_of(p as u64).as_str());
            s.append(" (");
            s.append(display::loggable(comm).as_str());
            s.append(") app_id=");
            s.append(id.as_str());
            s
        },
        None => {
            let mut s = "app_id=".to_string();
            s.append(id.as_str());
            s
        },
    }
}

/// The pid that a text writes; zero and what is no pid, such as `-1`, count as
/// none.
pub open spec fn written_pid(raw: Seq<char>) -> Option<u32> {
    match text::number(text::trim(raw), u32::MAX as nat) {
        Some(n) => if n > 0 {
            Some(n as u32)
        } else {
            None
        },
        None => None,
    }
}

/// The window that a manual call names, by the texts of its pid and app id.
/// pid `-1` means "none".
pub fn focus_window(pid: &str, app_id: &str) -> (r: (Option<u32>, String))
    ensures
        r.0 == written_pid(pid@),
        r.1@ == text::trim(app_id@),
{
    let cs = text::chars_of(pid);
    let pid: Option<u32> = match text::parse_u32(text::trimmed(cs.as_slice())) {
        Some(n) => if n > 0 {
            Some(n)
        } else {
            None
        },
        None => None,
    };
    (pid, text::string_of(text::trimmed(text::chars_of(app_id).as_slice())))
}

} // verus!
