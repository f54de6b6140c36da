//! Values kept on the user's slices: the protection of `session.slice`, and
//! the ceiling on `app.slice`.
//!
//! A value is written only where the file holds its unset value, left alone
//! where someone else set it, and put back while it is still the daemon's.
//! Like the boost, this is a conversation: see [`SliceRequest`].

use vstd::prelude::*;

use crate::display;
use crate::dmem;
use crate::dmem::WriteOutcome;
use crate::scope;
use crate::text;

verus! {

/// Where a [`SliceSetting`] stands, as last seen.
#[derive(Clone, Copy, Debug, PartialEq, Eq, Structural)]
pub enum SliceState {
    /// Not looked at yet, the slice has no such file for the GPU, or the
    /// write did not finish.
    Unknown,
    /// The slice holds this daemon's value.
    Held,
    /// Written, but the old value stayed: a kernel before 7.3 refuses a
    /// `dmem.max` below what the slice already uses, without an error.
    Refused,
    /// The write failed.
    Failed,
    /// The slice has a value of someone else's, which is left alone.
    Foreign,
}

/// What a setting is waiting for.
#[derive(Clone, Copy, Debug, PartialEq, Eq, Structural)]
pub enum SliceTask {
    Idle,
    /// Reading what the slice has.
    Reading,
    /// Writing the value.
    Writing,
    /// Reading whether the value stayed.
    Rereading,
    /// Reading whether the value is there to be taken off.
    Checking,
    /// Writing the unset value.
    Restoring,
}

/// What a setting needs done next.
pub enum SliceRequest {
    /// Read the file `file` of `dir`.
    Read { dir: String, file: String },
    /// Set the file `file` of `dir` to `value`, without waiting for evictions.
    Write { dir: String, file: String, value: String },
    /// Nothing: the operation is over. Tells whether the setting stands
    /// otherwise than before.
    Done { changed: bool },
}

/// The answer to a [`SliceRequest`].
pub enum SliceReply {
    /// The body of the file; None if it cannot be read.
    Content(Option<String>),
    /// How the write went.
    Written(WriteOutcome),
}

/// A [`SliceRequest`] with its texts.
pub enum RequestView {
    Read { dir: Seq<char>, file: Seq<char> },
    Write { dir: Seq<char>, file: Seq<char>, value: Seq<char> },
    Done { changed: bool },
}

/// A [`SliceReply`] with its texts.
pub enum ReplyView {
    Content(Option<Seq<char>>),
    Written(WriteOutcome),
}

impl View for SliceRequest {
    type V = RequestView;

    open spec fn view(&self) -> RequestView {
        match self {
            SliceRequest::Read { dir, file } => RequestView::Read { dir: dir@, file: file@ },
            SliceRequest::Write { dir, file, value } => RequestView::Write {
                dir: dir@,
                file: file@,
                value: value@,
            },
            SliceRequest::Done { changed } => RequestView::Done { changed: *changed },
        }
    }
}

impl View for SliceReply {
    type V = ReplyView;

    open spec fn view(&self) -> ReplyView {
        match self {
            SliceReply::Content(c) => ReplyView::Content(text::opt(*c)),
            SliceReply::Written(outcome) => ReplyView::Written(*outcome),
        }
    }
}

/// A dmem value that is kept on one of the user's slices. It is checked at
/// every focus change rather than once: the slices are made anew when the
/// user manager restarts, and a refused value is worth trying again.
pub struct SliceSetting {
    /// What it is, for the log.
    what: &'static str,
    dir: String,
    file: &'static str,
    /// What the file holds when nobody set it.
    unset: &'static str,
    value: u64,
    state: SliceState,
    task: SliceTask,
}

/// A [`SliceSetting`] with its texts.
pub struct Setting {
    pub what: Seq<char>,
    pub dir: Seq<char>,
    pub file: Seq<char>,
    pub unset: Seq<char>,
    pub value: u64,
    pub state: SliceState,
    pub task: SliceTask,
}

impl View for SliceSetting {
    type V = Setting;

    closed spec fn view(&self) -> Setting {
        Setting {
            what: self.what@,
            dir: self.dir@,
            file: self.file@,
            unset: self.unset@,
            value: self.value,
            state: self.state,
            task: self.task,
        }
    }
}

/// The value of the setting as the file shows it.
pub open spec fn ours(s: Setting) -> Seq<char> {
    text::decimal(s.value as nat)
}

/// What a file sets the GPU `key` to.
pub open spec fn current(content: Option<Seq<char>>, key: Seq<char>) -> Option<Seq<char>> {
    match content {
        Some(c) => dmem::entry(c, key),
        None => None,
    }
}

pub open spec fn read(s: Setting, task: SliceTask) -> (Setting, RequestView) {
    (Setting { task, ..s }, RequestView::Read { dir: s.dir, file: s.file })
}

pub open spec fn write(s: Setting, task: SliceTask, value: Seq<char>) -> (Setting, RequestView) {
    (Setting { task, ..s }, RequestView::Write { dir: s.dir, file: s.file, value })
}

/// The operation is over and the setting stands at `state`.
pub open spec fn settled(s: Setting, state: SliceState) -> (Setting, RequestView) {
    (
        Setting { state, task: SliceTask::Idle, ..s },
        RequestView::Done { changed: state != s.state },
    )
}

/// The request that a setting waits for the answer to.
pub open spec fn outstanding(s: Setting) -> RequestView {
    match s.task {
        SliceTask::Idle => RequestView::Done { changed: false },
        SliceTask::Reading | SliceTask::Rereading | SliceTask::Checking => RequestView::Read {
            dir: s.dir,
            file: s.file,
        },
        SliceTask::Writing => RequestView::Write { dir: s.dir, file: s.file, value: ours(s) },
        SliceTask::Restoring => RequestView::Write { dir: s.dir, file: s.file, value: s.unset },
    }
}

/// What the answer `reply` leads to, for the GPU `key`. An answer of the
/// wrong kind leaves the request outstanding.
pub open spec fn resumed(s: Setting, key: Seq<char>, reply: ReplyView) -> (Setting, RequestView) {
    match (s.task, reply) {
        (SliceTask::Reading, ReplyView::Content(c)) => match current(c, key) {
            None => settled(s, SliceState::Unknown),
            Some(v) => if v == ours(s) {
                settled(s, SliceState::Held)
            } else if v == s.unset {
                write(s, SliceTask::Writing, ours(s))
            } else {
                settled(s, SliceState::Foreign)
            },
        },
        (SliceTask::Writing, ReplyView::Written(outcome)) => match outcome {
            WriteOutcome::Wrote => read(s, SliceTask::Rereading),
            WriteOutcome::Failed => settled(s, SliceState::Failed),
            _ => settled(s, SliceState::Unknown),
        },
        (SliceTask::Rereading, ReplyView::Content(c)) => if current(c, key) == Some(ours(s)) {
            settled(s, SliceState::Held)
        } else {
            settled(s, SliceState::Refused)
        },
        (SliceTask::Checking, ReplyView::Content(c)) => if current(c, key) == Some(ours(s)) {
            write(s, SliceTask::Restoring, s.unset)
        } else {
            settled(s, s.state)
        },
        (SliceTask::Restoring, ReplyView::Written(_)) => settled(s, SliceState::Unknown),
        _ => (s, outstanding(s)),
    }
}

/// What `content` sets the GPU `key` to.
fn current_of(content: &Option<String>, key: &str) -> (r: Option<String>)
    ensures
        text::opt(r) == current(text::opt(*content), key@),
{
    match content {
        Some(c) => dmem::dmem_entry(c.as_str(), key),
        None => None,
    }
}

impl SliceSetting {
    /// `dmem.low` of session.slice, where the compositor usually runs.
    pub fn session_protection(session_slice: &str, value: u64) -> (r: Self)
        ensures
            r@ == (Setting {
                what: "the protection of session.slice"@,
                dir: session_slice@,
                file: "dmem.low"@,
                unset: "0"@,
                value,
                state: SliceState::Unknown,
                task: SliceTask::Idle,
            }),
    {
        SliceSetting {
            what: "the protection of session.slice",
            dir: session_slice.to_string(),
            file: "dmem.low",
            unset: "0",
            value,
            state: SliceState::Unknown,
            task: SliceTask::Idle,
        }
    }

    /// `dmem.max` of app.slice.
    pub fn ceiling(app_slice: &str, value: u64) -> (r: Self)
        ensures
            r@ == (Setting {
                what: "the ceiling on app.slice"@,
                dir: app_slice@,
                file: "dmem.max"@,
                unset: "max"@,
                value,
                state: SliceState::Unknown,
                task: SliceTask::Idle,
            }),
    {
        SliceSetting {
            what: "the ceiling on app.slice",
            dir: app_slice.to_string(),
            file: "dmem.max",
            unset: "max",
            value,
            state: SliceState::Unknown,
            task: SliceTask::Idle,
        }
    }

    /// What it is, for the log.
    pub fn what(&self) -> (r: &'static str)
        ensures
            r@ == self@.what,
    {
        self.what
    }

    /// The file it is kept in.
    pub fn file(&self) -> (r: &'static str)
        ensures
            r@ == self@.file,
    {
        self.file
    }

    /// The value that is kept.
    pub fn value(&self) -> (r: u64)
        ensures
            r == self@.value,
    {
        self.value
    }

    /// Where it stands, as last seen.
    pub fn state(&self) -> (r: SliceState)
        ensures
            r == self@.state,
    {
        self.state
    }

    fn read(&mut self, task: SliceTask) -> (r: SliceRequest)
        ensures
            (final(self)@, r@) == read(old(self)@, task),
    {
        self.task = task;
        SliceRequest::Read { dir: self.dir.clone(), file: self.file.to_string() }
    }

    fn write(&mut self, task: SliceTask, value: String) -> (r: SliceRequest)
        ensures
            (final(self)@, r@) == write(old(self)@, task, value@),
    {
        self.task = task;
        SliceRequest::Write { dir: self.dir.clone(), file: self.file.to_string(), value }
    }

    fn settle(&mut self, state: SliceState) -> (r: SliceRequest)
        ensures
            (final(self)@, r@) == settled(old(self)@, state),
    {
        let changed = state != self.state;
        self.task = SliceTask::Idle;
        self.state = state;
        SliceRequest::Done { changed }
    }

    /// Start putting the value where the slice has its unset value.
    pub fn ensure(&mut self) -> (r: SliceRequest)
        ensures
            (final(self)@, r@) == read(old(self)@, SliceTask::Reading),
    {
        self.read(SliceTask::Reading)
    }

    /// Start putting the unset value back, if the file still holds this
    /// daemon's.
    pub fn restore(&mut self) -> (r: SliceRequest)
        ensures
            (final(self)@, r@) == read(old(self)@, SliceTask::Checking),
    {
        self.read(SliceTask::Checking)
    }

    /// Go on with the answer to the outstanding request, for `drm_key`.
    pub fn resume(&mut self, drm_key: &str, reply: SliceReply) -> (r: SliceRequest)
        ensures
            (final(self)@, r@) == resumed(old(self)@, drm_key@, reply@),
    {
        let ours = text::decimal_of(self.value);
        match (self.task, reply) {
            (SliceTask::Reading, SliceReply::Content(c)) => match current_of(&c, drm_key) {
                None => self.settle(SliceState::Unknown),
                Some(v) => if text::same_text(v.as_str(), ours.as_str()) {
                    self.settle(SliceState::Held)
                } else if text::same_text(v.as_str(), self.unset) {
                    self.write(SliceTask::Writing, ours)
                } else {
                    self.settle(SliceState::Foreign)
                },
            },
            (SliceTask::Writing, SliceReply::Written(outcome)) => match outcome {
                WriteOutcome::Wrote => self.read(SliceTask::Rereading),
                WriteOutcome::Failed => self.settle(SliceState::Failed),
                _ => self.settle(SliceState::Unknown),
            },
            (SliceTask::Rereading, SliceReply::Content(c)) => {
                let stayed = match current_of(&c, drm_key) {
                    Some(v) => text::same_text(v.as_str(), ours.as_str()),
                    None => false,
                };
                if stayed {
                    self.settle(SliceState::Held)
                } else {
                    self.settle(SliceState::Refused)
                }
            },
            (SliceTask::Checking, SliceReply::Content(c)) => {
                let still = match current_of(&c, drm_key) {
                    Some(v) => text::same_text(v.as_str(), ours.as_str()),
                    None => false,
                };
                if still {
                    self.write(SliceTask::Restoring, self.unset.to_string())
                } else {
                    self.settle(self.state)
                }
            },
            (SliceTask::Restoring, SliceReply::Written(_)) => self.settle(SliceState::Unknown),
            _ => self.outstanding(),
        }
    }

    /// The request that an answer is waited for; `Done` if there is none.
    pub fn outstanding(&self) -> (r: SliceRequest)
        ensures
            r@ == outstanding(self@),
    {
        match self.task {
            SliceTask::Idle => SliceRequest::Done { changed: false },
            SliceTask::Reading | SliceTask::Rereading | SliceTask::Checking => SliceRequest::Read {
                dir: self.dir.clone(),
                file: self.file.to_string(),
            },
            SliceTask::Writing => SliceRequest::Write {
                dir: self.dir.clone(),
                file: self.file.to_string(),
                value: text::decimal_of(self.value),
            },
            SliceTask::Restoring => SliceRequest::Write {
                dir: self.dir.clone(),
                file: self.file.to_string(),
                value: self.unset.to_string(),
            },
        }
    }
}

/// What is left for app.slice when `raw` MiB of `vram` bytes are reserved;
/// None if that is not a whole number of MiB below the VRAM size.
pub open spec fn left_by(raw: Seq<char>, vram: u64) -> Option<u64> {
    match text::number(raw, u64::MAX as nat) {
        Some(mib) => if mib * 0x10_0000 < vram {
            Some((vram - mib * 0x10_0000) as u64)
        } else {
            None
        },
        None => None,
    }
}

/// Why a reserve is refused.
pub open spec fn reserve_message(raw: Seq<char>) -> Seq<char> {
    "VRAM_RESERVE_MIB="@ + display::logged(raw)
        + " is not a whole number of MiB below the VRAM size"@
}

/// The ceiling on app.slice that the setting `VRAM_RESERVE_MIB` asks for:
/// none where it is not set. An invalid reserve is an error rather than a
/// fallback: the unit then fails with the reason in its log.
pub fn ceiling_setting(raw: Option<&str>, vram_total: u64) -> (r: Result<Option<u64>, String>)
    ensures
        match raw {
            None => r == Ok::<Option<u64>, String>(None),
            Some(raw) => match left_by(raw@, vram_total) {
                Some(v) => r == Ok::<Option<u64>, String>(Some(v)),
                None => r matches Err(e) && e@ == reserve_message(raw@),
            },
        },
{
    let raw = match raw {
        None => {
            return Ok(None);
        },
        Some(raw) => raw,
    };
    if let Some(mib) = text::parse_u64(text::chars_of(raw).as_slice()) {
        let reserve: u128 = mib as u128 * 0x10_0000;
        if reserve < vram_total as u128 {
            return Ok(Some(vram_total - reserve as u64));
        }
    }
    let mut message = "VRAM_RESERVE_MIB=".to_string();
    message.append(display::loggable(raw).as_str());
    message.append(" is not a whole number of MiB below the VRAM size");
    Err(message)
}

/// Why a protection setting is refused.
pub open spec fn protect_message(raw: Seq<char>) -> Seq<char> {
    "VRAM_PROTECT_SESSION="@ + display::logged(raw) + " is not 0 or 1"@
}

/// Whether session.slice is protected, as the setting `VRAM_PROTECT_SESSION`
/// asks for: it is, where it is not set.
pub fn protection_setting(raw: Option<&str>) -> (r: Result<bool, String>)
    ensures
        match raw {
            None => r == Ok::<bool, String>(true),
            Some(raw) => if raw@ == "1"@ {
                r == Ok::<bool, String>(true)
            } else if raw@ == "0"@ {
                r == Ok::<bool, String>(false)
            } else {
                r matches Err(e) && e@ == protect_message(raw@)
            },
        },
{
    let raw = match raw {
        None => {
            return Ok(true);
        },
        Some(raw) => raw,
    };
    proof {
        reveal_strlit("0");
        reveal_strlit("1");
        assert("0"@[0] != "1"@[0]);
    }
    if text::same_text(raw, "1") {
        return Ok(true);
    }
    if text::same_text(raw, "0") {
        return Ok(false);
    }
    let mut message = "VRAM_PROTECT_SESSION=".to_string();
    message.append(display::loggable(raw).as_str());
    message.append(" is not 0 or 1");
    Err(message)
}

/// A value is written only over what the daemon may replace: its own value
/// where the file was just read to hold the unset one, and the unset value
/// where it was just read to hold the daemon's. Whatever else a file holds,
/// nothing is written to it.
pub proof fn writes_only_over_its_own(s: Setting, key: Seq<char>, reply: ReplyView)
    requires
        s.task is Reading || s.task is Rereading || s.task is Checking,
        reply is Content,
    ensures
        ({
            let found = current(reply->Content_0, key);
            let request = resumed(s, key, reply).1;
            &&& request is Write <==> (s.task is Reading && found == Some(s.unset) && found
                != Some(ours(s))) || (s.task is Checking && found == Some(ours(s)))
            &&& request matches RequestView::Write { dir, file, value } ==> dir == s.dir && file
                == s.file && value == (if s.task is Reading {
                ours(s)
            } else {
                s.unset
            })
        }),
{
}

/// A setting of one of the user's slices writes nothing but its own value and
/// the unset one, to its own file, which lies below the user's slice and whose
/// path does not climb out of it; and it goes on being that setting.
pub proof fn setting_stays_in_the_users_slice(
    s: Setting,
    key: Seq<char>,
    reply: ReplyView,
    uid: u32,
)
    requires
        s.dir == scope::manager_slice(uid, "app.slice"@) || s.dir == scope::manager_slice(
            uid,
            "session.slice"@,
        ),
        s.file == "dmem.max"@ || s.file == "dmem.low"@,
    ensures
        resumed(s, key, reply).1 matches RequestView::Write { dir, file, value } ==> {
            &&& dir == s.dir && file == s.file
            &&& value == ours(s) || value == s.unset
            &&& scope::lies_in(dir + "/"@ + file, scope::user_root(uid))
            &&& dmem::writable_dir(dir) ==> !scope::components(dir + "/"@ + file).contains(".."@)
        },
        resumed(s, key, reply).0 == (Setting {
            state: resumed(s, key, reply).0.state,
            task: resumed(s, key, reply).0.task,
            ..s
        }),
{
    reveal_strlit("app.slice");
    reveal_strlit("session.slice");
    reveal_strlit("dmem.max");
    reveal_strlit("dmem.low");
    reveal_strlit(".");
    reveal_strlit("..");
    let root = scope::user_root(uid);
    assert forall|i: int| 0 <= i < "app.slice"@.len() implies "app.slice"@[i] != '/' by {}
    assert forall|i: int| 0 <= i < "session.slice"@.len() implies "session.slice"@[i] != '/' by {}
    assert forall|i: int| 0 <= i < s.file.len() implies s.file[i] != '/' by {}
    scope::manager_slice_is_the_users(uid, "app.slice"@);
    scope::manager_slice_is_the_users(uid, "session.slice"@);
    scope::lemma_components_of_child(s.dir, s.file);
    let below = scope::components(s.dir + "/"@ + s.file);
    let n = scope::components(root).len() as int;
    assert(below.take(n) == scope::components(s.dir).take(n));
    if dmem::writable_dir(s.dir) {
        scope::written_file_lies_in(s.dir, s.file, root);
    }
}

/// The value that someone else set stays: where a file holds neither the unset
/// value nor the daemon's, both operations end at once, and only the state
/// tells that it was seen.
pub proof fn foreign_value_is_left_alone(s: Setting, key: Seq<char>, content: Seq<char>)
    requires
        dmem::entry(content, key) is Some,
        dmem::entry(content, key) != Some(s.unset),
        dmem::entry(content, key) != Some(ours(s)),
    ensures
        resumed(read(s, SliceTask::Reading).0, key, ReplyView::Content(Some(content))) == settled(
            s,
            SliceState::Foreign,
        ),
        resumed(read(s, SliceTask::Checking).0, key, ReplyView::Content(Some(content))) == settled(
            s,
            s.state,
        ),
{
}

/// A value that a daemon left behind is taken over: where the file holds the
/// value already, it counts as held, and nothing is written.
pub proof fn own_value_is_taken_over(s: Setting, key: Seq<char>, content: Seq<char>)
    requires
        dmem::entry(content, key) == Some(ours(s)),
    ensures
        resumed(read(s, SliceTask::Reading).0, key, ReplyView::Content(Some(content))) == settled(
            s,
            SliceState::Held,
        ),
{
}

/// A kernel that keeps the old value without an error is noticed, and the
/// next check writes the value again.
pub proof fn refused_value_is_tried_again(s: Setting, key: Seq<char>, content: Seq<char>)
    requires
        dmem::entry(content, key) == Some(s.unset),
        s.unset != ours(s),
    ensures
        ({
            let written = resumed(
                read(s, SliceTask::Reading).0,
                key,
                ReplyView::Content(Some(content)),
            ).0;
            let reread = resumed(written, key, ReplyView::Written(WriteOutcome::Wrote)).0;
            let refused = resumed(reread, key, ReplyView::Content(Some(content))).0;
            &&& refused == Setting { state: SliceState::Refused, task: SliceTask::Idle, ..s }
            &&& resumed(
                read(refused, SliceTask::Reading).0,
                key,
                ReplyView::Content(Some(content)),
            ).1 == write(refused, SliceTask::Writing, ours(s)).1
        }),
{
}

/// A value goes on and comes off again: where a file holds the unset value,
/// `ensure` writes the daemon's and finds it there, and `restore` then writes
/// the unset value back, after which the file sets the GPU as before.
pub proof fn set_then_restored(s: Setting, key: Seq<char>, content: Seq<char>)
    requires
        key.len() > 0,
        text::no_white(key),
        s.unset.len() > 0,
        text::no_white(s.unset),
        s.unset != ours(s),
        dmem::entry(content, key) == Some(s.unset),
    ensures
        ({
            let (written, request) = resumed(
                read(s, SliceTask::Reading).0,
                key,
                ReplyView::Content(Some(content)),
            );
            let set = dmem::entry_line(key, ours(s));
            let reread = resumed(written, key, ReplyView::Written(WriteOutcome::Wrote)).0;
            let held = resumed(reread, key, ReplyView::Content(Some(set))).0;
            let (restoring, back) = resumed(
                read(held, SliceTask::Checking).0,
                key,
                ReplyView::Content(Some(set)),
            );
            let ended = resumed(restoring, key, ReplyView::Written(WriteOutcome::Wrote)).0;
            &&& request == RequestView::Write { dir: s.dir, file: s.file, value: ours(s) }
            &&& held == Setting { state: SliceState::Held, task: SliceTask::Idle, ..s }
            &&& back == RequestView::Write { dir: s.dir, file: s.file, value: s.unset }
            &&& ended == Setting { state: SliceState::Unknown, task: SliceTask::Idle, ..s }
            &&& dmem::entry(dmem::entry_line(key, s.unset), key) == Some(s.unset)
        }),
{
    text::lemma_decimal_value(s.value as nat);
    dmem::read_after_write(key, ours(s), key);
    dmem::read_after_write(key, s.unset, key);
}

} // verus!
