//! Umbriel's IPC stream: what a line of it says, and which window to take from
//! a `windows` snapshot.

use vstd::prelude::*;

use crate::json;
use crate::json::{Json, JsonView};
use crate::text;

verus! {

/// A `windows` snapshot is a few kilobytes. Reading a line further than this
/// would grow the buffer without a bound the peer respects.
pub const MAX_LINE: u64 = 0x10_0000;

/// What reading a line of the stream comes to.
pub enum Line {
    /// The stream has ended.
    Closed,
    /// There is more than [`MAX_LINE`] bytes, or the end, before the newline.
    Unterminated,
    /// Reading failed.
    Failed,
    /// The line says nothing of interest.
    Ignored,
    /// Umbriel rejected the subscription, with this message.
    Rejected(String),
    /// The data of a `windows` snapshot, as JSON text; None if it has none.
    Snapshot(Option<String>),
}

/// A [`Line`] with its texts.
pub enum LineView {
    Closed,
    Unterminated,
    Failed,
    Ignored,
    Rejected(Seq<char>),
    Snapshot(Option<Seq<char>>),
}

impl View for Line {
    type V = LineView;

    open spec fn view(&self) -> LineView {
        match self {
            Line::Closed => LineView::Closed,
            Line::Unterminated => LineView::Unterminated,
            Line::Failed => LineView::Failed,
            Line::Ignored => LineView::Ignored,
            Line::Rejected(m) => LineView::Rejected(m@),
            Line::Snapshot(d) => LineView::Snapshot(text::opt(*d)),
        }
    }
}

/// What a message means whose members `err` and `event` are these values and
/// whose `data` is this text.
pub open spec fn meaning(
    err: Option<JsonView>,
    event: Option<JsonView>,
    data: Option<Seq<char>>,
) -> LineView {
    match err {
        Some(JsonView::Str(message)) => LineView::Rejected(message),
        _ => if event == Some(JsonView::Str("windows"@)) {
            LineView::Snapshot(data)
        } else {
            LineView::Ignored
        },
    }
}

/// What a message means whose members `err` and `event` are these values and
/// whose `data` is this text.
pub fn judge_message(err: Option<Json>, event: Option<Json>, data: Option<String>) -> (r: Line)
    ensures
        r@ == meaning(json::value(err), json::value(event), text::opt(data)),
{
    if let Some(Json::Str(message)) = err {
        return Line::Rejected(message);
    }
    if let Some(Json::Str(name)) = event {
        if text::same_text(name.as_str(), "windows") {
            return Line::Snapshot(data);
        }
    }
    Line::Ignored
}

/// What the message `j` means.
pub open spec fn message_meaning(j: JsonView) -> LineView {
    meaning(
        json::parsed_if(json::field(j, "err"@)),
        json::parsed_if(json::field(j, "event"@)),
        json::field(j, "data"@),
    )
}

/// What was read of the stream means: `line`, unless reading failed.
pub open spec fn line_meaning(read: bool, line: Seq<char>) -> LineView {
    if !read {
        LineView::Failed
    } else if line.len() == 0 {
        LineView::Closed
    } else if line.last() != '\n' {
        LineView::Unterminated
    } else {
        match json::parsed(line) {
            Some(j) => message_meaning(j),
            None => LineView::Ignored,
        }
    }
}

/// What reading up to [`MAX_LINE`] bytes of the stream, or to the end of a
/// line, comes to: `read` tells whether it succeeded, and `line` is what there
/// was.
pub fn take_line(read: bool, line: &str) -> (r: Line)
    ensures
        r@ == line_meaning(read, line@),
{
    if !read {
        return Line::Failed;
    }
    let cs = text::chars_of(line);
    let n: usize = cs.len();
    if n == 0 {
        return Line::Closed;
    }
    if cs[n - 1] != '\n' {
        return Line::Unterminated;
    }
    match json::parse(line) {
        Some(j) => judge_message(
            json::parse_if(json::field_of(&j, "err")),
            json::parse_if(json::field_of(&j, "event")),
            json::field_of(&j, "data"),
        ),
        None => Line::Ignored,
    }
}

/// What a snapshot says of a window.
pub struct Window {
    /// It has keyboard focus across the seat.
    pub active: bool,
    pub pid: Option<i64>,
    /// It is an X11 window.
    pub xwayland: bool,
    pub app_id: String,
}

/// A [`Window`] with its texts.
pub struct WindowView {
    pub active: bool,
    pub pid: Option<i64>,
    pub xwayland: bool,
    pub app_id: Seq<char>,
}

impl View for Window {
    type V = WindowView;

    open spec fn view(&self) -> WindowView {
        WindowView {
            active: self.active,
            pid: self.pid,
            xwayland: self.xwayland,
            app_id: self.app_id@,
        }
    }
}

/// The windows of a snapshot; None if it is none.
pub open spec fn windows_view(o: Option<Vec<Window>>) -> Option<Seq<WindowView>> {
    match o {
        Some(v) => Some(Seq::new(v@.len(), |i: int| v@[i]@)),
        None => None,
    }
}

/// The window whose members are these values.
pub open spec fn window(
    active: Option<JsonView>,
    pid: Option<JsonView>,
    xwayland: Option<JsonView>,
    app_id: Option<JsonView>,
) -> WindowView {
    WindowView {
        active: active == Some(JsonView::Bool(true)),
        pid: match pid {
            Some(JsonView::Number(n)) => n,
            _ => None,
        },
        xwayland: xwayland == Some(JsonView::Bool(true)),
        app_id: match app_id {
            Some(JsonView::Str(s)) => s,
            _ => Seq::empty(),
        },
    }
}

fn is_true(j: &Option<Json>) -> (r: bool)
    ensures
        r == (json::value(*j) == Some(JsonView::Bool(true))),
{
    match j {
        Some(Json::Bool(b)) => *b,
        _ => false,
    }
}

/// The window whose members are these values. What is missing or of another
/// type counts as not set.
pub fn window_from(
    active: Option<Json>,
    pid: Option<Json>,
    xwayland: Option<Json>,
    app_id: Option<Json>,
) -> (r: Window)
    ensures
        r@ == window(
            json::value(active),
            json::value(pid),
            json::value(xwayland),
            json::value(app_id),
        ),
{
    let app_id = match app_id {
        Some(Json::Str(s)) => s,
        _ => {
            let none = String::new();
            proof { assert(none@ == Seq::<char>::empty()); }
            none
        },
    };
    Window {
        active: is_true(&active),
        pid: match pid {
            Some(Json::Number(n)) => n,
            _ => None,
        },
        xwayland: is_true(&xwayland),
        app_id,
    }
}

/// The window that the value `j` describes.
pub open spec fn window_in(j: Option<JsonView>) -> WindowView {
    match j {
        Some(j) => window(
            json::parsed_if(json::field(j, "active"@)),
            json::parsed_if(json::field(j, "pid"@)),
            json::parsed_if(json::field(j, "xwayland"@)),
            json::parsed_if(json::field(j, "app_id"@)),
        ),
        None => window(None, None, None, None),
    }
}

fn window_of(j: Option<Json>) -> (r: Window)
    ensures
        r@ == window_in(json::value(j)),
{
    match j {
        Some(j) => window_from(
            json::parse_if(json::field_of(&j, "active")),
            json::parse_if(json::field_of(&j, "pid")),
            json::parse_if(json::field_of(&j, "xwayland")),
            json::parse_if(json::field_of(&j, "app_id")),
        ),
        None => window_from(None, None, None, None),
    }
}

/// The windows that the snapshot data `t` lists; None if it is no array.
pub open spec fn windows_in(t: Option<Seq<char>>) -> Option<Seq<WindowView>> {
    match json::parsed_if(t) {
        Some(JsonView::Array(items)) => Some(
            items.map_values(|item: Seq<char>| window_in(json::parsed(item))),
        ),
        _ => None,
    }
}

/// The windows that the snapshot data `data` lists, as JSON text; None if it
/// is no array.
pub fn read_windows(data: Option<String>) -> (r: Option<Vec<Window>>)
    ensures
        windows_view(r) == windows_in(text::opt(data)),
{
    let items = match json::parse_if(data) {
        Some(Json::Array(items)) => items,
        _ => {
            return None;
        },
    };
    let mut v: Vec<Window> = Vec::new();
    let mut i: usize = 0;
    while i < items.len()
        invariant
            i <= items.len(),
            v@.len() == i,
            forall|k: int|
                0 <= k < i ==> (#[trigger] v@[k])@ == window_in(json::parsed(items@[k]@)),
        decreases items.len() - i,
    {
        v.push(window_of(json::parse(items[i].as_str())));
        i += 1;
    }
    proof {
        assert(windows_view(Some(v))->0 == windows_in(text::opt(data))->0);
    }
    Some(v)
}

/// The pid that resolves a window: that of a native Wayland client.
pub open spec fn native_pid(w: WindowView) -> Option<u32> {
    match w.pid {
        Some(p) => if !w.xwayland && 0 < p <= u32::MAX {
            Some(p as u32)
        } else {
            None
        },
        None => None,
    }
}

/// What is taken of a window: its pid and app id, if it has either.
pub open spec fn taken(w: WindowView) -> Option<(Option<u32>, Seq<char>)> {
    if native_pid(w) is None && w.app_id.len() == 0 {
        None
    } else {
        Some((native_pid(w), w.app_id))
    }
}

/// What is taken of the first active one of the windows `ws`.
pub open spec fn picked_of(ws: Seq<WindowView>) -> Option<(Option<u32>, Seq<char>)>
    decreases ws.len(),
{
    if ws.len() == 0 {
        None
    } else if ws[0].active {
        taken(ws[0])
    } else {
        picked_of(ws.skip(1))
    }
}

/// What is taken of a snapshot.
pub open spec fn picked(ws: Option<Seq<WindowView>>) -> Option<(Option<u32>, Seq<char>)> {
    match ws {
        Some(ws) => picked_of(ws),
        None => None,
    }
}

/// A pid and an app id.
pub open spec fn pick_view(o: Option<(Option<u32>, String)>) -> Option<(Option<u32>, Seq<char>)> {
    match o {
        Some((pid, app_id)) => Some((pid, app_id@)),
        None => None,
    }
}

/// The window to boost from one `windows` snapshot: the seat-global `active`
/// entry (`focused` is per workspace). Its pid counts only for a native
/// Wayland client; X11 windows report the xwayland-satellite bridge, or -1.
pub fn pick_window(windows: &Option<Vec<Window>>) -> (r: Option<(Option<u32>, String)>)
    ensures
        pick_view(r) == picked(windows_view(*windows)),
{
    let ws = match windows {
        Some(ws) => ws,
        None => {
            return None;
        },
    };
    let ghost all = windows_view(*windows)->0;
    let mut i: usize = 0;
    proof { assert(all.skip(0) == all); }
    while i < ws.len()
        invariant
            i <= ws.len(),
            all.len() == ws@.len(),
            forall|k: int| 0 <= k < all.len() ==> #[trigger] all[k] == ws@[k]@,
            picked_of(all.skip(i as int)) == picked_of(all),
            picked(windows_view(*windows)) == picked_of(all),
        decreases ws.len() - i,
    {
        proof { assert(all.skip(i as int)[0] == ws@[i as int]@); }
        if ws[i].active {
            let pid: Option<u32> = match ws[i].pid {
                Some(p) => if !ws[i].xwayland && 0 < p && p <= 0xffff_ffff {
                    Some(p as u32)
                } else {
                    None
                },
                None => None,
            };
            if pid.is_none() && ws[i].app_id.as_str().is_empty() {
                return None;
            }
            return Some((pid, ws[i].app_id.clone()));
        }
        proof { assert(all.skip(i as int).skip(1) == all.skip(i + 1)); }
        i += 1;
    }
    None
}

/// An X11 window is never resolved by its pid, and whatever is picked has a
/// pid above zero or an app id.
pub proof fn picked_window_can_be_resolved(ws: Seq<WindowView>)
    ensures
        picked_of(ws) matches Some((pid, app_id)) ==> (pid matches Some(p) ==> p > 0) && (pid
            is Some || app_id.len() > 0) && exists|i: int|
            0 <= i < ws.len() && (#[trigger] ws[i]).active && taken(ws[i]) == Some((pid, app_id))
                && (pid is Some ==> !ws[i].xwayland),
    decreases ws.len(),
{
    if ws.len() > 0 {
        if ws[0].active {
        } else {
            picked_window_can_be_resolved(ws.skip(1));
            if let Some((pid, app_id)) = picked_of(ws) {
                let i = choose|i: int|
                    0 <= i < ws.skip(1).len() && (#[trigger] ws.skip(1)[i]).active && taken(
                        ws.skip(1)[i],
                    ) == Some((pid, app_id)) && (pid is Some ==> !ws.skip(1)[i].xwayland);
                assert(ws.skip(1)[i] == ws[i + 1]);
            }
        }
    }
}

} // verus!
