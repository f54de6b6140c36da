//! What becomes of a value on a slice, from beginning to end.

use vstd::prelude::*;

use crate::display;
use crate::dmem;
use crate::dmem::WriteOutcome;
use crate::slices;
use crate::slices::{ReplyView, RequestView, Setting, SliceState, SliceTask};
use crate::text;

verus! {

/// The setting `s`, at rest and standing at `state`, and the end of the
/// operation that brought it there.
pub open spec fn ended(s: Setting, state: SliceState) -> (Setting, RequestView) {
    (
        Setting { state, task: SliceTask::Idle, ..s },
        RequestView::Done { changed: s.state != state },
    )
}

/// Setting a value, by what the file first holds: nothing for the GPU, or no
/// file, leaves it unknown; the value itself counts as held; over the unset
/// value the value is written; and any other value stays.
pub proof fn setting_goes_by_what_is_there(s: Setting, key: Seq<char>, content: Seq<char>)
    requires
        s.task is Reading,
    ensures
        slices::resumed(s, key, ReplyView::Content(None)) == ended(s, SliceState::Unknown),
        match dmem::entry(content, key) {
            None => slices::resumed(s, key, ReplyView::Content(Some(content))) == ended(
                s,
                SliceState::Unknown,
            ),
            Some(v) => {
                let next = slices::resumed(s, key, ReplyView::Content(Some(content)));
                &&& v == text::decimal(s.value as nat) ==> next == ended(s, SliceState::Held)
                &&& v != text::decimal(s.value as nat) && v == s.unset ==> next == (
                    Setting { task: SliceTask::Writing, ..s },
                    RequestView::Write {
                        dir: s.dir,
                        file: s.file,
                        value: text::decimal(s.value as nat),
                    },
                )
                &&& v != text::decimal(s.value as nat) && v != s.unset ==> next == ended(
                    s,
                    SliceState::Foreign,
                )
            },
        },
{
}

/// After the value was written, the file is read again, and the value is held
/// only if it is seen there; else it was refused. A write that failed counts as
/// failed, and one that did not finish leaves the value unknown.
pub proof fn a_value_is_held_only_if_seen(s: Setting, key: Seq<char>, content: Seq<char>)
    ensures
        s.task is Writing ==> {
            &&& slices::resumed(s, key, ReplyView::Written(WriteOutcome::Wrote)) == (
                Setting { task: SliceTask::Rereading, ..s },
                RequestView::Read { dir: s.dir, file: s.file },
            )
            &&& slices::resumed(s, key, ReplyView::Written(WriteOutcome::Failed)) == ended(
                s,
                SliceState::Failed,
            )
            &&& forall|o: WriteOutcome|
                !(o is Wrote) && !(o is Failed) ==> #[trigger] slices::resumed(
                    s,
                    key,
                    ReplyView::Written(o),
                ) == ended(s, SliceState::Unknown)
        },
        s.task is Rereading ==> {
            &&& slices::resumed(s, key, ReplyView::Content(Some(content))) == ended(
                s,
                if dmem::entry(content, key) == Some(text::decimal(s.value as nat)) {
                    SliceState::Held
                } else {
                    SliceState::Refused
                },
            )
            &&& slices::resumed(s, key, ReplyView::Content(None)) == ended(s, SliceState::Refused)
        },
{
}

/// Taking a value off: where the file still holds it, the unset value is
/// written, and however that goes the setting is unknown after it. Where the
/// file holds anything else, nothing is done.
pub proof fn a_value_is_taken_off_only_if_seen(
    s: Setting,
    key: Seq<char>,
    content: Seq<char>,
    outcome: WriteOutcome,
)
    ensures
        s.task is Checking ==> {
            &&& slices::resumed(s, key, ReplyView::Content(None)) == (
                Setting { task: SliceTask::Idle, ..s },
                RequestView::Done { changed: false },
            )
            &&& dmem::entry(content, key) == Some(text::decimal(s.value as nat))
                ==> slices::resumed(s, key, ReplyView::Content(Some(content))) == (
                Setting { task: SliceTask::Restoring, ..s },
                RequestView::Write { dir: s.dir, file: s.file, value: s.unset },
            )
            &&& dmem::entry(content, key) != Some(text::decimal(s.value as nat))
                ==> slices::resumed(s, key, ReplyView::Content(Some(content))) == (
                Setting { task: SliceTask::Idle, ..s },
                RequestView::Done { changed: false },
            )
        },
        s.task is Restoring ==> slices::resumed(s, key, ReplyView::Written(outcome)) == ended(
            s,
            SliceState::Unknown,
        ),
{
}

/// Both operations begin by reading the file of the setting, and leave the
/// setting what it is.
pub proof fn settings_begin_by_reading(s: Setting, task: SliceTask)
    ensures
        slices::read(s, task) == (
            Setting { task, ..s },
            RequestView::Read { dir: s.dir, file: s.file },
        ),
{
}

/// The request that was made last is the one that is outstanding: an answer of
/// the other kind asks for it again and changes nothing.
pub proof fn a_wrong_answer_asks_again(s: Setting, key: Seq<char>, reply: ReplyView)
    ensures
        ({
            let (next, request) = slices::resumed(s, key, reply);
            &&& !(request is Done) ==> slices::outstanding(next) == request
            &&& request is Done && !(s.task is Idle) ==> next.task is Idle
            &&& next.task is Idle <==> request is Done
        }),
        s.task is Idle ==> slices::resumed(s, key, reply) == (
            s,
            RequestView::Done { changed: false },
        ),
        (s.task is Reading || s.task is Rereading || s.task is Checking) && reply is Written
            ==> slices::resumed(s, key, reply) == (
            s,
            RequestView::Read { dir: s.dir, file: s.file },
        ),
        s.task is Writing && reply is Content ==> slices::resumed(s, key, reply) == (
            s,
            RequestView::Write {
                dir: s.dir,
                file: s.file,
                value: text::decimal(s.value as nat),
            },
        ),
        s.task is Restoring && reply is Content ==> slices::resumed(s, key, reply) == (
            s,
            RequestView::Write { dir: s.dir, file: s.file, value: s.unset },
        ),
{
}

/// What is left and what is reserved make up the VRAM, and something is left;
/// a reserve that takes all of it, and what is no number, leave no ceiling.
pub proof fn ceiling_and_reserve_make_up_the_vram(raw: Seq<char>, mib: nat, vram: u64, left: u64)
    ensures
        text::number(raw, u64::MAX as nat) == Some(mib) ==> (slices::left_by(raw, vram) == Some(
            left,
        ) <==> left > 0 && left + mib * 1024 * 1024 == vram),
        text::number(raw, u64::MAX as nat) is None ==> slices::left_by(raw, vram) is None,
{
    assert(mib * 1024 * 1024 == mib * 0x10_0000) by (nonlinear_arith);
}

/// A setting that is refused is shown, as a log line shows it, with the reason.
pub proof fn refused_settings_are_shown(raw: Seq<char>)
    ensures
        slices::reserve_message(raw) == "VRAM_RESERVE_MIB="@ + display::logged(raw)
            + " is not a whole number of MiB below the VRAM size"@,
        slices::protect_message(raw) == "VRAM_PROTECT_SESSION="@ + display::logged(raw)
            + " is not 0 or 1"@,
{
}

} // verus!
