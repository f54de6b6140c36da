//! What the control program prints.

use vstd::prelude::*;

use crate::display;
use crate::text;

verus! {

/// What the arguments ask the control program for.
#[derive(Clone, Copy, Debug, PartialEq, Eq, Structural)]
pub enum Command {
    Status,
    Help,
    Version,
    /// The argument is not known.
    Unknown,
}

/// What the first argument asks for.
pub open spec fn command_for(arg: Option<Seq<char>>) -> Command {
    match arg {
        None => Command::Status,
        Some(a) => if a == "--help"@ || a == "-h"@ {
            Command::Help
        } else if a == "--version"@ || a == "-V"@ {
            Command::Version
        } else {
            Command::Unknown
        },
    }
}

/// What the first argument asks the control program for.
pub fn command(arg: Option<String>) -> (r: Command)
    ensures
        r == command_for(text::opt(arg)),
{
    match arg {
        None => Command::Status,
        Some(a) => {
            let a = a.as_str();
            if text::same_text(a, "--help") || text::same_text(a, "-h") {
                Command::Help
            } else if text::same_text(a, "--version") || text::same_text(a, "-V") {
                Command::Version
            } else {
                Command::Unknown
            }
        },
    }
}

/// The value of a property of the daemon.
pub enum PropValue {
    Text(String),
    Number(u64),
    /// Any other value, as it is printed.
    Other(String),
}

/// A [`PropValue`] with its texts.
pub enum PropView {
    Text(Seq<char>),
    Number(u64),
    Other(Seq<char>),
}

impl View for PropValue {
    type V = PropView;

    open spec fn view(&self) -> PropView {
        match self {
            PropValue::Text(s) => PropView::Text(s@),
            PropValue::Number(n) => PropView::Number(*n),
            PropValue::Other(s) => PropView::Other(s@),
        }
    }
}

/// A property, if the daemon has it.
pub open spec fn prop(o: Option<PropValue>) -> Option<PropView> {
    match o {
        Some(v) => Some(v@),
        None => None,
    }
}

/// How a value is printed.
pub open spec fn printed(v: PropView) -> Seq<char> {
    match v {
        PropView::Text(s) => if s.len() == 0 {
            "(none)"@
        } else {
            display::visible(s)
        },
        PropView::Number(n) => text::decimal(n as nat),
        PropView::Other(s) => s,
    }
}

/// How a value is printed.
pub fn format_val(v: &PropValue) -> (r: String)
    ensures
        r@ == printed(v@),
{
    match v {
        PropValue::Text(s) => if s.as_str().is_empty() {
            "(none)".to_string()
        } else {
            display::printable(s.as_str())
        },
        PropValue::Number(n) => text::decimal_of(*n),
        PropValue::Other(s) => s.clone(),
    }
}

/// How a value is printed that the daemon may not have.
pub open spec fn printed_or(v: Option<PropView>, missing: Seq<char>) -> Seq<char> {
    match v {
        Some(v) => printed(v),
        None => missing,
    }
}

fn format_or(v: &Option<PropValue>, missing: &str) -> (r: String)
    ensures
        r@ == printed_or(prop(*v), missing@),
{
    match v {
        Some(v) => format_val(v),
        None => missing.to_string(),
    }
}

/// The GiB in `mib` MiB, in hundredths, to the nearest one and to the even one
/// of two.
pub open spec fn gib_hundredths(mib: nat) -> nat {
    let down = mib * 100 / 1024;
    let rest = mib * 100 % 1024;
    if rest > 512 || (rest == 512 && down % 2 == 1) {
        down + 1
    } else {
        down
    }
}

/// A number of hundredths with its two decimals.
pub open spec fn hundredths_text(h: nat) -> Seq<char> {
    text::decimal(h / 100).push('.').push(text::digit_char(h / 10 % 10)).push(
        text::digit_char(h % 10),
    )
}

/// How a number of bytes is printed.
pub open spec fn bytes_text(b: u64) -> Seq<char> {
    let mib = b as nat / 0x10_0000;
    text::decimal(b as nat) + " ("@ + text::decimal(mib) + " MiB"@ + (if mib >= 1024 {
        ", "@ + hundredths_text(gib_hundredths(mib)) + " GiB"@
    } else {
        Seq::empty()
    }) + ")"@
}

fn digit_of(n: u64) -> (r: char)
    requires
        n < 10,
    ensures
        r == text::digit_char(n as nat),
{
    (n as u8 + 48) as char
}

/// A number of bytes, and how many MiB and GiB that is.
pub fn human_bytes(b: u64) -> (r: String)
    ensures
        r@ == bytes_text(b),
{
    let mib: u64 = b / 0x10_0000;
    let mut s = text::decimal_of(b);
    s.append(" (");
    s.append(text::decimal_of(mib).as_str());
    s.append(" MiB");
    if mib >= 1024 {
        let down: u64 = mib * 100 / 1024;
        let rest: u64 = mib * 100 % 1024;
        let h: u64 = if rest > 512 || (rest == 512 && down % 2 == 1) {
            down + 1
        } else {
            down
        };
        s.append(", ");
        s.append(text::decimal_of(h / 100).as_str());
        s.push('.');
        s.push(digit_of(h / 10 % 10));
        s.push(digit_of(h % 10));
        s.append(" GiB");
    }
    s.append(")");
    proof {
        assert(s@ =~= bytes_text(b));
    }
    s
}

/// What the daemon says of itself.
pub struct Status {
    pub following: Option<PropValue>,
    pub drm_key: Option<PropValue>,
    pub vram_total: u64,
    /// The boost ratio, as a percentage.
    pub boost_percent: String,
    pub boosted_bytes: u64,
    /// The protection of session.slice; zero if it is off.
    pub session_low: u64,
    /// The ceiling on app.slice; zero if it is off.
    pub app_ceiling: u64,
    pub current_unit: Option<PropValue>,
    pub boosted_cgroup: Option<PropValue>,
}

/// How the socket that the daemon follows is printed.
pub open spec fn following_text(v: Option<PropView>) -> Seq<char> {
    if printed_or(v, "(none)"@) == "(none)"@ {
        "(not connected - waiting for Umbriel)"@
    } else {
        printed(v->0)
    }
}

/// How a setting is printed that may be off.
pub open spec fn setting_text(value: u64) -> Seq<char> {
    if value == 0 {
        "off"@
    } else {
        bytes_text(value)
    }
}

/// The lines that are printed.
pub open spec fn status_text(s: Status) -> Seq<Seq<char>> {
    seq![
        "=== Umbriel VRAM Booster Status ==="@,
        "Daemon:           running"@,
        "Following:        "@ + following_text(prop(s.following)),
        "DRM key:          "@ + printed_or(prop(s.drm_key), "?"@),
        "VRAM total:       "@ + bytes_text(s.vram_total),
        "Boost ratio:      "@ + s.boost_percent@ + "%"@,
        "Boosted bytes:    "@ + bytes_text(s.boosted_bytes),
        "Session low:      "@ + setting_text(s.session_low),
        "App ceiling:      "@ + setting_text(s.app_ceiling),
        "Current unit:     "@ + printed_or(prop(s.current_unit), "(none)"@),
        "Boosted cgroup:   "@ + printed_or(prop(s.boosted_cgroup), "(none)"@),
    ]
}

fn labelled(label: &str, value: &str) -> (r: String)
    ensures
        r@ == label@ + value@,
{
    let mut s = label.to_string();
    s.append(value);
    s
}

fn format_setting(value: u64) -> (r: String)
    ensures
        r@ == setting_text(value),
{
    if value == 0 {
        "off".to_string()
    } else {
        human_bytes(value)
    }
}

/// The lines that are printed about the daemon.
pub fn status_lines(s: &Status) -> (r: Vec<String>)
    ensures
        text::strings(r@) == status_text(*s),
{
    let known = format_or(&s.following, "(none)");
    let following = if text::same_text(known.as_str(), "(none)") {
        "(not connected - waiting for Umbriel)".to_string()
    } else {
        known
    };
    let mut percent = labelled("Boost ratio:      ", s.boost_percent.as_str());
    percent.append("%");
    let mut r: Vec<String> = Vec::new();
    r.push("=== Umbriel VRAM Booster Status ===".to_string());
    r.push("Daemon:           running".to_string());
    r.push(labelled("Following:        ", following.as_str()));
    r.push(labelled("DRM key:          ", format_or(&s.drm_key, "?").as_str()));
    r.push(labelled("VRAM total:       ", human_bytes(s.vram_total).as_str()));
    r.push(percent);
    r.push(labelled("Boosted bytes:    ", human_bytes(s.boosted_bytes).as_str()));
    r.push(labelled("Session low:      ", format_setting(s.session_low).as_str()));
    r.push(labelled("App ceiling:      ", format_setting(s.app_ceiling).as_str()));
    r.push(labelled("Current unit:     ", format_or(&s.current_unit, "(none)").as_str()));
    r.push(labelled("Boosted cgroup:   ", format_or(&s.boosted_cgroup, "(none)").as_str()));
    proof {
        assert(text::strings(r@) =~= status_text(*s));
    }
    r
}

/// Whatever the daemon sends, a text of it is printed without control
/// characters.
pub proof fn printed_texts_are_clean(s: Seq<char>)
    ensures
        forall|i: int|
            0 <= i < printed(PropView::Text(s)).len() ==> !text::is_control(
                #[trigger] printed(PropView::Text(s))[i],
            ),
{
    reveal_strlit("(none)");
    display::visible_is_clean(s);
}

} // verus!
