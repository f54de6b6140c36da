//! How texts, sizes and places are shown.

use vstd::prelude::*;
use vstd::utf8::*;

use crate::bytes;
use crate::display;
use crate::status;
use crate::status::{PropView, Status};
use crate::text;
use crate::tree;

verus! {

/// A control character is left out, and every other character stays, where it
/// stood.
pub proof fn only_control_characters_are_left_out(a: Seq<char>, c: char, b: Seq<char>)
    ensures
        display::visible(a + b) == display::visible(a) + display::visible(b),
        c < ' ' || '\u{7f}' <= c <= '\u{9f}' ==> display::visible(seq![c]).len() == 0,
        ' ' <= c < '\u{7f}' || c > '\u{9f}' ==> display::visible(seq![c]) == seq![c],
    decreases b.len(),
{
    assert(seq![c].drop_last() == Seq::<char>::empty());
    assert(display::visible(seq![c].drop_last()) == Seq::<char>::empty());
    if b.len() == 0 {
        assert(a + b == a);
        assert(display::visible(a) + display::visible(b) == display::visible(a));
    } else {
        only_control_characters_are_left_out(a, c, b.drop_last());
        assert((a + b).drop_last() == a + b.drop_last());
        assert((a + b).last() == b.last());
    }
}

/// A log line shows a text whole up to 255 characters, and of a longer one the
/// first 255 and a mark; control characters do not count.
pub proof fn long_texts_are_cut(s: Seq<char>)
    ensures
        display::visible(s).len() <= 255 ==> display::logged(s) == display::visible(s),
        display::visible(s).len() > 255 ==> display::logged(s) == display::visible(s).take(
            255,
        ).push('\u{2026}'),
{
}

/// The decimal digits of a number: those of its tenth, and the last one. There
/// is no zero at the front, but for zero itself.
pub proof fn numbers_are_written_in_decimal(n: nat, d: nat)
    requires
        d < 10,
    ensures
        n > 0 ==> text::decimal(n * 10 + d) == text::decimal(n) + text::decimal(d),
        text::decimal(d) == seq![(0x30 + d) as char],
        text::decimal(0) == seq!['0'],
        n > 0 ==> text::decimal(n)[0] != '0',
    decreases n,
{
    if n > 0 {
        assert((n * 10 + d) / 10 == n);
        assert((n * 10 + d) % 10 == d);
        assert(text::decimal(n).push(text::digit_char(d)) == text::decimal(n) + text::decimal(d));
        if n >= 10 {
            numbers_are_written_in_decimal(n / 10, d);
            text::lemma_decimal_value(n / 10);
        }
    }
}

/// GiB are shown to the nearest hundredth, and to the even one of two that are
/// as near.
pub proof fn gib_are_rounded(mib: nat)
    ensures
        ({
            let h = status::gib_hundredths(mib);
            &&& -512 <= h * 1024 - mib * 100 <= 512
            &&& h * 1024 - mib * 100 == 512 || h * 1024 - mib * 100 == -512 ==> h % 2 == 0
        }),
{
}

/// Hundredths are shown as a whole number, a dot and two digits.
pub proof fn hundredths_have_two_decimals(whole: nat, tenths: nat, rest: nat)
    requires
        tenths < 10,
        rest < 10,
    ensures
        status::hundredths_text(whole * 100 + tenths * 10 + rest) == text::decimal(whole) + seq!['.']
            + text::decimal(tenths) + text::decimal(rest),
{
    let h = whole * 100 + tenths * 10 + rest;
    assert(h / 100 == whole);
    assert(h / 10 == whole * 10 + tenths);
    assert(h / 10 % 10 == tenths);
    assert(h % 10 == rest);
}

/// A size is shown in bytes and whole MiB, and from one GiB on in GiB too.
pub proof fn sizes_are_shown_so(b: u64, mib: nat)
    requires
        mib * 1024 * 1024 <= b < (mib + 1) * 1024 * 1024,
    ensures
        mib < 1024 ==> status::bytes_text(b) == text::decimal(b as nat) + " ("@ + text::decimal(mib)
            + " MiB)"@,
        mib >= 1024 ==> status::bytes_text(b) == text::decimal(b as nat) + " ("@ + text::decimal(
            mib,
        ) + " MiB, "@ + status::hundredths_text(status::gib_hundredths(mib)) + " GiB)"@,
{
    assert(b as nat / 0x10_0000 == mib) by (nonlinear_arith)
        requires
            mib * 1024 * 1024 <= b < (mib + 1) * 1024 * 1024,
    ;
    reveal_strlit(" MiB");
    reveal_strlit(" GiB");
    reveal_strlit(")");
    reveal_strlit(", ");
    reveal_strlit(" MiB)");
    reveal_strlit(" MiB, ");
    reveal_strlit(" GiB)");
    assert(" MiB"@ + Seq::<char>::empty() + ")"@ == " MiB)"@);
    assert(" MiB"@ + ", "@ == " MiB, "@);
    assert(" GiB"@ + ")"@ == " GiB)"@);
    let front = text::decimal(b as nat) + " ("@ + text::decimal(mib);
    let gib = status::hundredths_text(status::gib_hundredths(mib));
    if mib < 1024 {
        assert(status::bytes_text(b) == front + (" MiB"@ + Seq::<char>::empty() + ")"@));
    } else {
        assert(status::bytes_text(b) == front + (" MiB"@ + ", "@) + gib + (" GiB"@ + ")"@));
    }
}

/// What the control program is asked for by its first argument.
pub proof fn arguments_ask_for_these(a: Seq<char>)
    ensures
        status::command_for(None) is Status,
        status::command_for(Some(a)) is Help <==> a == "--help"@ || a == "-h"@,
        status::command_for(Some(a)) is Version <==> a == "--version"@ || a == "-V"@,
        !(status::command_for(Some(a)) is Status),
{
    reveal_strlit("--help");
    reveal_strlit("-h");
    reveal_strlit("--version");
    reveal_strlit("-V");
    assert("--help"@.len() == 6 && "-h"@.len() == 2);
    assert("--version"@.len() == 9 && "-V"@.len() == 2);
    assert("-h"@[1] != "-V"@[1]);
}

/// How values are shown: a text without its control characters, an empty one as
/// none, a number in decimal, and a setting of zero as off.
pub proof fn values_are_shown_so(s: Seq<char>, n: u64)
    ensures
        s.len() > 0 ==> status::printed(PropView::Text(s)) == display::visible(s),
        status::printed(PropView::Text(Seq::empty())) == "(none)"@,
        status::printed(PropView::Number(n)) == text::decimal(n as nat),
        status::printed(PropView::Other(s)) == s,
        status::setting_text(0) == "off"@,
        n > 0 ==> status::setting_text(n) == status::bytes_text(n),
        status::following_text(None) == "(not connected - waiting for Umbriel)"@,
        status::following_text(Some(PropView::Text(Seq::empty())))
            == "(not connected - waiting for Umbriel)"@,
        s.len() > 0 && display::visible(s) != "(none)"@ ==> status::following_text(
            Some(PropView::Text(s)),
        ) == display::visible(s),
{
}

/// The path of a place below a directory: the names on the way to it, each
/// after a slash; one that is there already is not put twice.
pub proof fn paths_join_the_names(root: Seq<u8>, place: Seq<Seq<u8>>, name: Seq<u8>)
    requires
        name.len() == 0 || name[0] != 0x2f,
    ensures
        tree::path_bytes(root, Seq::empty()) == root,
        ({
            let dir = tree::path_bytes(root, place);
            &&& dir.len() > 0 && dir.last() != 0x2f ==> tree::path_bytes(root, place.push(name))
                == dir + seq![0x2fu8] + name
            &&& dir.len() == 0 || dir.last() == 0x2f ==> tree::path_bytes(root, place.push(name))
                == dir + name
            &&& tree::path_bytes(root, place.push(seq![0x2fu8] + name)) == seq![0x2fu8] + name
        }),
{
    assert(place.push(name).drop_last() == place);
    assert(place.push(seq![0x2fu8] + name).drop_last() == place);
}

/// A path is the text of its bytes below those of the directory, and the label
/// of a place that of its last name.
pub proof fn places_are_shown_as_text(root: Seq<char>, place: Seq<Seq<u8>>, name: Seq<u8>)
    ensures
        tree::path_text(root, place) == bytes::lossy(tree::path_bytes(encode_utf8(root), place)),
        tree::label_text(place.push(name)) == bytes::lossy(name),
        tree::label_text(Seq::empty()) == bytes::lossy(Seq::empty()),
{
}

/// The status has eleven lines, each with its own label and its own value.
pub proof fn status_lines_are_these(s: Status)
    ensures
        ({
            let lines = status::status_text(s);
            &&& lines.len() == 11
            &&& lines[0] == "=== Umbriel VRAM Booster Status ==="@
            &&& lines[1] == "Daemon:           running"@
            &&& lines[2] == "Following:        "@ + status::following_text(
                status::prop(s.following),
            )
            &&& s.drm_key is None ==> lines[3] == "DRM key:          "@ + "?"@
            &&& s.drm_key is Some ==> lines[3] == "DRM key:          "@ + status::printed(
                s.drm_key->0@,
            )
            &&& lines[4] == "VRAM total:       "@ + status::bytes_text(s.vram_total)
            &&& lines[5] == "Boost ratio:      "@ + s.boost_percent@ + "%"@
            &&& lines[6] == "Boosted bytes:    "@ + status::bytes_text(s.boosted_bytes)
            &&& lines[7] == "Session low:      "@ + status::setting_text(s.session_low)
            &&& lines[8] == "App ceiling:      "@ + status::setting_text(s.app_ceiling)
            &&& s.current_unit is None ==> lines[9] == "Current unit:     "@ + "(none)"@
            &&& s.current_unit is Some ==> lines[9] == "Current unit:     "@ + status::printed(
                s.current_unit->0@,
            )
            &&& s.boosted_cgroup is None ==> lines[10] == "Boosted cgroup:   "@ + "(none)"@
            &&& s.boosted_cgroup is Some ==> lines[10] == "Boosted cgroup:   "@ + status::printed(
                s.boosted_cgroup->0@,
            )
        }),
{
}

} // verus!
