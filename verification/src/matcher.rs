//! Which `app.slice` unit a Wayland `app_id` belongs to, for windows whose pid
//! Umbriel cannot report (X11 through xwayland-satellite).

use vstd::prelude::*;
use vstd::string::*;
use vstd::utf8::*;

use crate::bytes;
use crate::text;

verus! {

pub const DIGIT_0: u8 = 0x30;

pub const DIGIT_9: u8 = 0x39;

pub const SMALL_A: u8 = 0x61;

pub const SMALL_F: u8 = 0x66;

pub const SMALL_X: u8 = 0x78;

pub const CAPITAL_A: u8 = 0x41;

pub const CAPITAL_F: u8 = 0x46;

pub const BACKSLASH: u8 = 0x5c;

/// What the byte `b` stands for as a hexadecimal digit.
pub open spec fn hex_digit(b: u8) -> Option<u8> {
    if DIGIT_0 <= b <= DIGIT_9 {
        Some((b - DIGIT_0) as u8)
    } else if SMALL_A <= b <= SMALL_F {
        Some((b - SMALL_A + 10) as u8)
    } else if CAPITAL_A <= b <= CAPITAL_F {
        Some((b - CAPITAL_A + 10) as u8)
    } else {
        None
    }
}

/// The byte that two hexadecimal digits write.
pub open spec fn hex_pair(a: u8, b: u8) -> Option<u8> {
    match (hex_digit(a), hex_digit(b)) {
        (Some(high), Some(low)) => Some((high * 16 + low) as u8),
        _ => None,
    }
}

/// The byte that `s` writes as `\xNN` at its start.
pub open spec fn escape_at_start(s: Seq<u8>) -> Option<u8> {
    if s.len() > 3 && s[0] == BACKSLASH && s[1] == SMALL_X {
        hex_pair(s[2], s[3])
    } else {
        None
    }
}

/// `s` with every `\xNN` replaced by the byte it writes.
pub open spec fn unescaped(s: Seq<u8>) -> Seq<u8>
    decreases s.len(),
{
    if s.len() == 0 {
        s
    } else {
        match escape_at_start(s) {
            Some(b) => seq![b] + unescaped(s.skip(4)),
            None => seq![s[0]] + unescaped(s.skip(1)),
        }
    }
}

fn read_hex_digit(b: u8) -> (r: Option<u8>)
    ensures
        r == hex_digit(b),
        r matches Some(d) ==> d < 16,
{
    if DIGIT_0 <= b && b <= DIGIT_9 {
        Some(b - DIGIT_0)
    } else if SMALL_A <= b && b <= SMALL_F {
        Some(b - SMALL_A + 10)
    } else if CAPITAL_A <= b && b <= CAPITAL_F {
        Some(b - CAPITAL_A + 10)
    } else {
        None
    }
}

fn read_hex_pair(a: u8, b: u8) -> (r: Option<u8>)
    ensures
        r == hex_pair(a, b),
{
    match (read_hex_digit(a), read_hex_digit(b)) {
        (Some(high), Some(low)) => Some(high * 16 + low),
        _ => None,
    }
}

/// `s` with every `\xNN` replaced by the byte it writes.
fn unescape_bytes(s: &[u8]) -> (r: Vec<u8>)
    ensures
        r@ == unescaped(s@),
{
    let mut out: Vec<u8> = Vec::new();
    let mut i: usize = 0;
    let n: usize = s.len();
    proof { assert(s@.skip(0) == s@); }
    while i < n
        invariant
            i <= n,
            n == s.len(),
            out@ + unescaped(s@.skip(i as int)) == unescaped(s@),
        decreases n - i,
    {
        let ghost rest = s@.skip(i as int);
        let ghost before = out@;
        let escape: Option<u8> = if n - i > 3 && s[i] == BACKSLASH && s[i + 1] == SMALL_X {
            read_hex_pair(s[i + 2], s[i + 3])
        } else {
            None
        };
        proof { assert(escape == escape_at_start(rest)); }
        match escape {
            Some(b) => {
                out.push(b);
                i += 4;
                proof {
                    assert(rest.skip(4) == s@.skip(i as int));
                    assert(out@ + unescaped(rest.skip(4)) == before + (seq![b] + unescaped(
                        rest.skip(4),
                    )));
                }
            },
            None => {
                out.push(s[i]);
                i += 1;
                proof {
                    assert(rest.skip(1) == s@.skip(i as int));
                    assert(out@ + unescaped(rest.skip(1)) == before + (seq![rest[0]] + unescaped(
                        rest.skip(1),
                    )));
                }
            },
        }
    }
    proof {
        assert(s@.skip(i as int).len() == 0);
        assert(out@ + unescaped(s@.skip(i as int)) == out@);
    }
    out
}

/// What [`unescape_unit_name`] makes of a unit name.
pub open spec fn plain_name(name: Seq<char>) -> Seq<char> {
    bytes::lossy(unescaped(encode_utf8(name)))
}

/// Undo systemd unit-name escaping (`\xNN` -> byte) so `app-code\x2doss@...`
/// compares as `code-oss`.
pub fn unescape_unit_name(name: &str) -> (r: String)
    ensures
        r@ == plain_name(name@),
        valid_utf8(unescaped(encode_utf8(name@))) ==> r@ == decode_utf8(
            unescaped(encode_utf8(name@)),
        ),
        !name@.contains('\\') ==> r@ == name@,
{
    proof {
        if !name@.contains('\\') {
            unescaping_keeps_plain_names(name@);
        }
    }
    bytes::lossy_text(unescape_bytes(name.as_bytes()).as_slice())
}

proof fn lemma_high_bytes(c: u32)
    by (bit_vector)
    ensures
        has_width_1_encoding(c) && c != 0x5c ==> leading_byte_width_1(c) != 0x5c,
        leading_byte_width_2(c) != 0x5c,
        leading_byte_width_3(c) != 0x5c,
        leading_byte_width_4(c) != 0x5c,
        last_continuation_byte(c) != 0x5c,
        second_last_continuation_byte(c) != 0x5c,
        third_last_continuation_byte(c) != 0x5c,
{
}

proof fn lemma_no_backslash(name: Seq<char>)
    requires
        !name.contains('\\'),
    ensures
        !encode_utf8(name).contains(BACKSLASH),
    decreases name.len(),
{
    if name.len() > 0 {
        let rest = name.drop_first();
        assert forall|i: int| 0 <= i < rest.len() implies rest[i] != '\\' by {
            assert(name.contains(name[i + 1]));
        }
        lemma_no_backslash(rest);
        assert(name.contains(name[0]));
        let c = name[0] as u32;
        lemma_high_bytes(c);
        char_is_scalar(name[0]);
        char_u32_cast(name[0], c);
        assert(c != 0x5c);
        let head = encode_scalar(c);
        assert forall|i: int| 0 <= i < head.len() implies head[i] != BACKSLASH by {
        }
        let tail = encode_utf8(rest);
        assert forall|i: int| 0 <= i < (head + tail).len() implies (head + tail)[i]
            != BACKSLASH by {
            if i >= head.len() {
                assert((head + tail)[i] == tail[i - head.len()]);
                assert(tail.contains(tail[i - head.len()]));
            }
        }
    }
}

proof fn lemma_unescaped_plain(b: Seq<u8>)
    requires
        !b.contains(BACKSLASH),
    ensures
        unescaped(b) == b,
    decreases b.len(),
{
    if b.len() > 0 {
        assert(b.contains(b[0]));
        assert forall|i: int| 0 <= i < b.skip(1).len() implies b.skip(1)[i] != BACKSLASH by {
            assert(b.contains(b[i + 1]));
        }
        lemma_unescaped_plain(b.skip(1));
        assert(seq![b[0]] + b.skip(1) == b);
    }
}

/// A name without a backslash holds no escape: unescaping leaves its bytes as
/// they are.
pub proof fn unescaping_keeps_plain_names(name: Seq<char>)
    requires
        !name.contains('\\'),
    ensures
        unescaped(encode_utf8(name)) == encode_utf8(name),
        valid_utf8(unescaped(encode_utf8(name))),
        decode_utf8(unescaped(encode_utf8(name))) == name,
{
    lemma_no_backslash(name);
    lemma_unescaped_plain(encode_utf8(name));
    encode_utf8_valid_utf8(name);
    encode_utf8_decode_utf8(name);
}

/// `s` without the suffix `p`, if it ends in it.
pub open spec fn without_suffix(s: Seq<char>, p: Seq<char>) -> Option<Seq<char>> {
    if p.is_suffix_of(s) {
        Some(s.take(s.len() - p.len()))
    } else {
        None
    }
}

/// `s` without the prefix `p`, if it begins with it.
pub open spec fn without_prefix(s: Seq<char>, p: Seq<char>) -> Option<Seq<char>> {
    if p.is_prefix_of(s) {
        Some(s.skip(p.len() as int))
    } else {
        None
    }
}

/// What follows the first `c` in `s`, or all of `s` if there is none.
pub open spec fn after_first(s: Seq<char>, c: char) -> Seq<char> {
    match text::index_of(s, c) {
        Some(i) => s.skip(i + 1),
        None => s,
    }
}

/// What precedes the first `c` in `s`, or all of `s` if there is none.
pub open spec fn before_first(s: Seq<char>, c: char) -> Seq<char> {
    match text::index_of(s, c) {
        Some(i) => s.take(i),
        None => s,
    }
}

/// What follows the last `c` in `s`, or all of `s` if there is none.
pub open spec fn after_last(s: Seq<char>, c: char) -> Seq<char> {
    match text::last_index_of(s, c) {
        Some(i) => s.skip(i + 1),
        None => s,
    }
}

/// `s` without the components at its end that are numbers.
pub open spec fn without_numbers(s: Seq<char>) -> Seq<char>
    decreases s.len(),
{
    match text::last_index_of(s, '-') {
        Some(i) => if 0 <= i < s.len() - 1 && text::all_digits(s.skip(i + 1)) {
            without_numbers(s.take(i))
        } else {
            s
        },
        None => s,
    }
}

/// What the stem of a unit name holds besides its prefix.
pub open spec fn unprefixed(stem: Seq<char>) -> Seq<char> {
    match without_prefix(stem, "app-"@) {
        Some(rest) => rest,
        None => match without_prefix(stem, "dbus-"@) {
            Some(rest) => after_first(rest, '-'),
            None => stem,
        },
    }
}

/// The stem of a service or a scope.
pub open spec fn stem(name: Seq<char>) -> Option<Seq<char>> {
    match without_suffix(name, ".service"@) {
        Some(s) => Some(s),
        None => without_suffix(name, ".scope"@),
    }
}

/// The part of an unescaped unit name that names the app.
pub open spec fn core_of(name: Seq<char>) -> Option<Seq<char>> {
    match stem(name) {
        Some(s) => Some(without_numbers(before_first(unprefixed(s), '@'))),
        None => None,
    }
}

fn strip_suffix<'a>(s: &'a [char], p: &str) -> (r: Option<&'a [char]>)
    ensures
        match r {
            Some(rest) => without_suffix(s@, p@) == Some(rest@),
            None => without_suffix(s@, p@) is None,
        },
{
    let p = text::chars_of(p);
    if text::has_suffix(s, p.as_slice()) {
        let n: usize = s.len() - p.len();
        proof { assert(s@.subrange(0, n as int) == s@.take(n as int)); }
        Some(&s[0..n])
    } else {
        None
    }
}

fn strip_prefix<'a>(s: &'a [char], p: &str) -> (r: Option<&'a [char]>)
    ensures
        match r {
            Some(rest) => without_prefix(s@, p@) == Some(rest@),
            None => without_prefix(s@, p@) is None,
        },
{
    let p = text::chars_of(p);
    if text::has_prefix(s, p.as_slice()) {
        proof { assert(s@.subrange(p@.len() as int, s@.len() as int) == s@.skip(p@.len() as int)); }
        Some(&s[p.len()..s.len()])
    } else {
        None
    }
}

fn strip_numbers(s: &[char]) -> (r: &[char])
    ensures
        r@ == without_numbers(s@),
{
    let mut n: usize = s.len();
    proof { assert(s@.take(n as int) == s@); }
    loop
        invariant
            n <= s.len(),
            without_numbers(s@.take(n as int)) == without_numbers(s@),
        decreases n,
    {
        let cur = &s[0..n];
        proof {
            assert(cur@ == s@.take(n as int));
            text::lemma_index_of(cur@, '-');
        }
        match text::find_last_char(cur, '-') {
            Some(i) if i < n - 1 && text::digits_only(&s[i + 1..n]) => {
                proof {
                    assert(s@.subrange(i + 1, n as int) == cur@.skip(i + 1));
                    assert(cur@.take(i as int) == s@.take(i as int));
                }
                n = i;
            },
            _ => {
                proof {
                    if let Some(i) = text::last_index_of(cur@, '-') {
                        assert(s@.subrange(i + 1, n as int) == cur@.skip(i + 1));
                    }
                }
                return cur;
            },
        }
    }
}

/// Strip the systemd unit framing from an unescaped unit file name so only
/// app-identifying tokens remain: see [`app_unit_core`].
pub fn unit_core(name: &str) -> (r: Option<String>)
    ensures
        text::opt(r) == core_of(name@),
{
    let cs = text::chars_of(name);
    let stem = match strip_suffix(cs.as_slice(), ".service") {
        Some(s) => s,
        None => match strip_suffix(cs.as_slice(), ".scope") {
            Some(s) => s,
            None => {
                return None;
            },
        },
    };
    let core = match strip_prefix(stem, "app-") {
        Some(rest) => rest,
        None => match strip_prefix(stem, "dbus-") {
            Some(rest) => match text::find_char(rest, '-') {
                Some(i) => {
                    proof {
                        text::lemma_index_of(rest@, '-');
                        assert(rest@.subrange(i + 1, rest@.len() as int) == rest@.skip(i + 1));
                    }
                    let n: usize = rest.len();
                    &rest[i + 1..n]
                },
                None => rest,
            },
            None => stem,
        },
    };
    let framed = match text::find_char(core, '@') {
        Some(i) => {
            proof {
                text::lemma_index_of(core@, '@');
                assert(core@.subrange(0, i as int) == core@.take(i as int));
            }
            &core[0..i]
        },
        None => core,
    };
    Some(text::string_of(strip_numbers(framed)))
}

/// Strip the systemd unit framing from a unit file name so only app-identifying
/// tokens remain: `app-<launcher>-<AppID>-<RANDOM>.scope`,
/// `app-<AppID>@<RANDOM>.service`, `dbus-:1.2-<Name>@0.service`, or any other
/// `<prefix>-<id>-<numbers>.scope` such as leyen's `leyen-<gameid>-<epoch>-<n>.scope`.
/// Trailing numeric components are pids, epochs, nonces.
pub fn app_unit_core(unit: &str) -> (r: Option<String>)
    ensures
        text::opt(r) == core_of(plain_name(unit@)),
{
    unit_core(unescape_unit_name(unit).as_str())
}

/// The tokens `have` and what the name `t` adds to them: itself with its
/// capitals made small, unless it is too short, the bare `app`, or there.
pub open spec fn with_token(have: Seq<Seq<char>>, t: Seq<char>) -> Seq<Seq<char>> {
    let low = text::lower(t);
    if low.len() >= 3 && low != "app"@ && !have.contains(low) {
        have.push(low)
    } else {
        have
    }
}

/// The tokens `have` and what the names `ts` add to them.
pub open spec fn with_tokens(have: Seq<Seq<char>>, ts: Seq<Seq<char>>) -> Seq<Seq<char>>
    decreases ts.len(),
{
    if ts.len() == 0 {
        have
    } else {
        with_token(with_tokens(have, ts.drop_last()), ts.last())
    }
}

/// The names in one part of an id: itself, its last dot segment and its `_`
/// pieces.
pub open spec fn part_names(part: Seq<char>) -> Seq<Seq<char>> {
    seq![part, after_last(part, '.')] + text::split(part, '_')
}

/// The tokens `have` and what the parts of an id add to them.
pub open spec fn with_parts(have: Seq<Seq<char>>, parts: Seq<Seq<char>>) -> Seq<Seq<char>>
    decreases parts.len(),
{
    if parts.len() == 0 {
        have
    } else {
        with_tokens(with_parts(have, parts.drop_last()), part_names(parts.last()))
    }
}

/// Those of `ts` that hold a character.
pub open spec fn nonempty(ts: Seq<Seq<char>>) -> Seq<Seq<char>>
    decreases ts.len(),
{
    if ts.len() == 0 {
        ts
    } else if ts.last().len() == 0 {
        nonempty(ts.drop_last())
    } else {
        nonempty(ts.drop_last()).push(ts.last())
    }
}

/// The parts of an id that name the app: all of several but the first, which
/// names a launcher.
pub open spec fn naming_parts(core: Seq<char>) -> Seq<Seq<char>> {
    let parts = nonempty(text::split(core, '-'));
    if parts.len() > 1 {
        parts.skip(1)
    } else {
        parts
    }
}

/// The tokens of an id.
pub open spec fn tokens(core: Seq<char>) -> Seq<Seq<char>> {
    with_parts(with_token(Seq::empty(), core), naming_parts(core))
}

fn add_token(have: &mut Vec<String>, t: &[char])
    ensures
        text::strings(final(have)@) == with_token(text::strings(old(have)@), t@),
{
    let low = text::lowered(t);
    let app = text::chars_of("app");
    let s = text::string_of(low.as_slice());
    if low.len() >= 3 && !text::same(low.as_slice(), app.as_slice()) && !text::contains_text(
        have,
        s.as_str(),
    ) {
        have.push(s);
        proof {
            assert(text::strings(have@) == text::strings(old(have)@).push(low@));
        }
    }
}

fn add_part(have: &mut Vec<String>, part: &[char])
    ensures
        text::strings(final(have)@) == with_tokens(text::strings(old(have)@), part_names(part@)),
{
    let ghost start = text::strings(have@);
    let ghost names = part_names(part@);
    let ghost pieces = text::split(part@, '_');
    add_token(have, part);
    proof {
        assert(names.take(1).drop_last() == Seq::<Seq<char>>::empty());
        assert(with_tokens(start, names.take(1).drop_last()) == start);
        assert(text::strings(have@) == with_tokens(start, names.take(1)));
        assert(names.take(2).drop_last() == names.take(1));
    }
    match text::find_last_char(part, '.') {
        Some(i) => {
            let n: usize = part.len();
            proof { assert(part@.subrange(i + 1, n as int) == part@.skip(i + 1)); }
            add_token(have, &part[i + 1..n]);
        },
        None => {
            add_token(have, part);
        },
    }
    let subs = text::split_on(part, '_');
    let mut k: usize = 0;
    while k < subs.len()
        invariant
            k <= subs.len(),
            text::views(subs@) == pieces,
            names == seq![part@, after_last(part@, '.')] + pieces,
            text::strings(have@) == with_tokens(start, names.take(2 + k)),
        decreases subs.len() - k,
    {
        proof {
            assert(names.take(3 + k).drop_last() == names.take(2 + k));
            assert(names.take(3 + k).last() == pieces[k as int]);
        }
        add_token(have, subs[k].as_slice());
        k += 1;
    }
    proof { assert(names.take(2 + k) == names); }
}

fn without_empty(ts: Vec<Vec<char>>) -> (r: Vec<Vec<char>>)
    ensures
        text::views(r@) == nonempty(text::views(ts@)),
{
    let ghost all = text::views(ts@);
    let mut r: Vec<Vec<char>> = Vec::new();
    let mut k: usize = 0;
    proof { assert(text::views(r@) == nonempty(all.take(0))); }
    while k < ts.len()
        invariant
            k <= ts.len(),
            all == text::views(ts@),
            text::views(r@) == nonempty(all.take(k as int)),
        decreases ts.len() - k,
    {
        let ghost before = r@;
        proof { assert(all.take(k + 1).drop_last() == all.take(k as int)); }
        if ts[k].len() > 0 {
            let mut t: Vec<char> = Vec::new();
            t.extend_from_slice(ts[k].as_slice());
            r.push(t);
            proof {
                assert(t@ == ts@[k as int]@);
                assert(text::views(r@) == text::views(before).push(t@));
            }
        }
        k += 1;
    }
    proof { assert(all.take(k as int) == all); }
    r
}

/// Name tokens an app.slice unit core or a Wayland app_id can be compared by.
/// The whole string always counts. When it has several `-` parts, the first is
/// a launcher name (`flatpak-org.mozilla.firefox`, `leyen-<uuid>`) and is
/// skipped; every other part also yields its last dot segment and its `_`
/// pieces, so `steam_app_ly5550` gives `steam` and `ly5550`. Tokens shorter
/// than three characters and the bare `app` are dropped: they identify nothing.
pub fn name_tokens(core: &str) -> (r: Vec<String>)
    ensures
        text::strings(r@) == tokens(core@),
{
    let cs = text::chars_of(core);
    let mut have: Vec<String> = Vec::new();
    proof { assert(text::strings(have@) == Seq::<Seq<char>>::empty()); }
    add_token(&mut have, cs.as_slice());
    let ghost start = text::strings(have@);
    let parts = without_empty(text::split_on(cs.as_slice(), '-'));
    let skip: usize = if parts.len() > 1 {
        1
    } else {
        0
    };
    let ghost used = naming_parts(core@);
    proof {
        assert(used == text::views(parts@).skip(skip as int));
        assert(start == with_parts(start, used.take(0)));
    }
    let mut k: usize = skip;
    while k < parts.len()
        invariant
            skip <= k <= parts.len(),
            used == text::views(parts@).skip(skip as int),
            text::strings(have@) == with_parts(start, used.take(k - skip)),
        decreases parts.len() - k,
    {
        proof {
            assert(used.take(k + 1 - skip).drop_last() == used.take(k - skip));
            assert(used.take(k + 1 - skip).last() == parts@[k as int]@);
        }
        add_part(&mut have, parts[k].as_slice());
        k += 1;
    }
    proof { assert(used.take(k - skip) == used); }
    have
}

/// The game id in the app id of a Proton/umu window.
pub open spec fn game_id(app_id: Seq<char>) -> Option<Seq<char>> {
    match without_prefix(app_id, "steam_app_"@) {
        Some(id) => if id.len() > 0 {
            Some(id)
        } else {
            None
        },
        None => None,
    }
}

/// The game id a Proton/umu window advertises: `steam_app_<id>`.
pub fn steam_app_id(app_id: &str) -> (r: Option<&str>)
    ensures
        match r {
            Some(id) => game_id(app_id@) == Some(id@),
            None => game_id(app_id@) is None,
        },
{
    let cs = text::chars_of(app_id);
    let prefix = text::chars_of("steam_app_");
    if text::has_prefix(cs.as_slice(), prefix.as_slice()) && cs.len() > prefix.len() {
        proof {
            assert(app_id@.subrange(prefix@.len() as int, app_id@.len() as int) == app_id@.skip(
                prefix@.len() as int,
            ));
        }
        Some(app_id.substring_char(prefix.len(), cs.len()))
    } else {
        None
    }
}

/// Two lists of tokens have one in common.
pub open spec fn share_token(a: Seq<Seq<char>>, b: Seq<Seq<char>>) -> bool {
    exists|i: int| 0 <= i < a.len() && #[trigger] b.contains(a[i])
}

/// The unescaped unit name carries a token that identifies `app_id`.
pub open spec fn name_identifies(name: Seq<char>, app_id: Seq<char>) -> bool {
    app_id.len() > 0 && match core_of(name) {
        Some(core) => share_token(tokens(core), tokens(app_id)),
        None => false,
    }
}

/// True if the unescaped unit name carries a token that identifies `app_id`.
pub fn name_matches_app_id(name: &str, app_id: &str) -> (r: bool)
    ensures
        r == name_identifies(name@, app_id@),
{
    if app_id.is_empty() {
        return false;
    }
    let core = match unit_core(name) {
        Some(core) => core,
        None => {
            return false;
        },
    };
    let wanted = name_tokens(app_id);
    let have = name_tokens(core.as_str());
    let mut i: usize = 0;
    while i < have.len()
        invariant
            i <= have.len(),
            app_id@.len() > 0,
            core_of(name@) == Some(core@),
            text::strings(have@) == tokens(core@),
            text::strings(wanted@) == tokens(app_id@),
            forall|k: int| 0 <= k < i ==> !tokens(app_id@).contains(#[trigger] tokens(core@)[k]),
        decreases have.len() - i,
    {
        if text::contains_text(&wanted, have[i].as_str()) {
            proof { assert(tokens(app_id@).contains(tokens(core@)[i as int])); }
            return true;
        }
        proof { assert(tokens(core@)[i as int] == have@[i as int]@); }
        i += 1;
    }
    false
}

/// True if the unit name carries a token that identifies `app_id`.
pub fn unit_matches_app_id(unit: &str, app_id: &str) -> (r: bool)
    ensures
        r == name_identifies(plain_name(unit@), app_id@),
{
    name_matches_app_id(unescape_unit_name(unit).as_str(), app_id)
}

/// A variable that holds a Steam or umu game id.
pub open spec fn is_game_variable(name: Seq<char>) -> bool {
    name == "SteamAppId"@ || name == "SteamGameId"@ || name == "STEAM_COMPAT_APP_ID"@ || name
        == "GAMEID"@
}

/// The variable `entry` carries `id` as a game id.
pub open spec fn variable_names_game(entry: Seq<char>, id: Seq<char>) -> bool {
    match text::index_of(entry, '=') {
        Some(i) => is_game_variable(entry.take(i)) && (entry.skip(i + 1) == id || entry.skip(i + 1)
            == "umu-"@ + id),
        None => false,
    }
}

/// The bytes of a variable carry `id` as a game id.
pub open spec fn entry_names_game(entry: Seq<u8>, id: Seq<char>) -> bool {
    valid_utf8(entry) && variable_names_game(decode_utf8(entry), id)
}

/// One of the variables carries `id` as a game id.
pub open spec fn some_entry_names_game(entries: Seq<Seq<u8>>, id: Seq<char>) -> bool {
    exists|i: int| 0 <= i < entries.len() && #[trigger] entry_names_game(entries[i], id)
}

/// The environ block carries `id` as a game id.
pub open spec fn names_game(environ: Seq<u8>, id: Seq<char>) -> bool {
    some_entry_names_game(bytes::zero_separated(environ), id)
}

fn variable_has_game_id(entry: &str, id: &str) -> (r: bool)
    ensures
        r == variable_names_game(entry@, id@),
{
    let cs = text::chars_of(entry);
    let i: usize = match text::find_char(cs.as_slice(), '=') {
        Some(i) => i,
        None => {
            return false;
        },
    };
    let n: usize = cs.len();
    let name = text::string_of(&cs.as_slice()[0..i]);
    let value = text::string_of(&cs.as_slice()[i + 1..n]);
    proof {
        assert(cs@.subrange(0, i as int) == entry@.take(i as int));
        assert(cs@.subrange(i + 1, n as int) == entry@.skip(i + 1));
    }
    let known = text::same_text(name.as_str(), "SteamAppId") || text::same_text(
        name.as_str(),
        "SteamGameId",
    ) || text::same_text(name.as_str(), "STEAM_COMPAT_APP_ID") || text::same_text(
        name.as_str(),
        "GAMEID",
    );
    let mut umu = "umu-".to_string();
    umu.append(id);
    known && (text::same_text(value.as_str(), id) || text::same_text(
        value.as_str(),
        umu.as_str(),
    ))
}

fn entry_has_game_id(entry: &[u8], id: &str) -> (r: bool)
    ensures
        r == entry_names_game(entry@, id@),
{
    match bytes::utf8_text(entry) {
        Some(s) => variable_has_game_id(s, id),
        None => false,
    }
}

/// True if a NUL-separated environ block carries `id` as a Steam/umu game id.
pub fn environ_has_game_id(environ: &[u8], id: &str) -> (r: bool)
    ensures
        r == names_game(environ@, id@),
{
    let mut found = false;
    let mut entry: Vec<u8> = Vec::new();
    let mut i: usize = 0;
    proof {
        assert(bytes::zero_separated(environ@.take(0)) == seq![entry@]);
        assert(bytes::zero_separated(environ@.take(0)).drop_last() == Seq::<Seq<u8>>::empty());
    }
    while i < environ.len()
        invariant
            i <= environ.len(),
            bytes::zero_separated(environ@.take(i as int)).len() >= 1,
            bytes::zero_separated(environ@.take(i as int)).last() == entry@,
            found == some_entry_names_game(
                bytes::zero_separated(environ@.take(i as int)).drop_last(),
                id@,
            ),
        decreases environ.len() - i,
    {
        let ghost before = bytes::zero_separated(environ@.take(i as int));
        let ghost now = bytes::zero_separated(environ@.take(i + 1));
        proof { assert(environ@.take(i + 1).drop_last() == environ@.take(i as int)); }
        let b: u8 = environ[i];
        if b == 0 {
            let named = entry_has_game_id(entry.as_slice(), id);
            proof {
                assert(now.drop_last() == before);
                lemma_some_entry(before, id@);
            }
            found = found || named;
            entry = Vec::new();
        } else {
            entry.push(b);
            proof { assert(now.drop_last() == before.drop_last()); }
        }
        i += 1;
    }
    proof {
        assert(environ@.take(i as int) == environ@);
        lemma_some_entry(bytes::zero_separated(environ@), id@);
    }
    found || entry_has_game_id(entry.as_slice(), id)
}

proof fn lemma_some_entry(entries: Seq<Seq<u8>>, id: Seq<char>)
    requires
        entries.len() > 0,
    ensures
        some_entry_names_game(entries, id) <==> some_entry_names_game(entries.drop_last(), id)
            || entry_names_game(entries.last(), id),
{
    let front = entries.drop_last();
    if some_entry_names_game(front, id) {
        let i = choose|i: int| 0 <= i < front.len() && #[trigger] entry_names_game(front[i], id);
        assert(entry_names_game(entries[i], id));
    }
    if entry_names_game(entries.last(), id) {
        assert(entry_names_game(entries[entries.len() - 1], id));
    }
    if some_entry_names_game(entries, id) {
        let i = choose|i: int|
            0 <= i < entries.len() && #[trigger] entry_names_game(entries[i], id);
        if i < front.len() {
            assert(entry_names_game(front[i], id));
        }
    }
}

/// How many bytes of a command name the kernel keeps.
pub const COMM_LEN: usize = 15;

/// A command name identifies the token `t`: it is the token, or what the
/// kernel keeps of it.
pub open spec fn command_is(comm: Seq<char>, t: Seq<char>) -> bool {
    t == comm || (encode_utf8(comm).len() == COMM_LEN && encode_utf8(t).len() > COMM_LEN
        && comm.is_prefix_of(t))
}

/// The body of a `comm` file identifies `app_id`.
pub open spec fn command_identifies(content: Seq<char>, app_id: Seq<char>) -> bool {
    let comm = text::lower(text::trim(content));
    comm.len() > 0 && exists|i: int|
        0 <= i < tokens(app_id).len() && #[trigger] command_is(comm, tokens(app_id)[i])
}

/// True if a process whose `comm` file holds `content` has a command name that
/// identifies `app_id`. Covers units whose name says nothing about the app:
/// `run-*.scope` from `systemd-run --scope`, and `dbus-:1.2-<Name>@0.service`
/// from D-Bus activation. comm is truncated to 15 bytes, so compare by prefix
/// too.
pub fn comm_matches_app_id(content: &str, app_id: &str) -> (r: bool)
    ensures
        r == command_identifies(content@, app_id@),
{
    let cs = text::chars_of(content);
    let low = text::lowered(text::trimmed(cs.as_slice()));
    if low.len() == 0 {
        return false;
    }
    let comm = text::string_of(low.as_slice());
    let wanted = name_tokens(app_id);
    let mut i: usize = 0;
    while i < wanted.len()
        invariant
            i <= wanted.len(),
            comm@ == text::lower(text::trim(content@)),
            comm@ == low@,
            low@.len() > 0,
            text::strings(wanted@) == tokens(app_id@),
            forall|k: int| 0 <= k < i ==> !command_is(comm@, #[trigger] tokens(app_id@)[k]),
        decreases wanted.len() - i,
    {
        let t = wanted[i].as_str();
        proof { assert(tokens(app_id@)[i as int] == t@); }
        let tc = text::chars_of(t);
        if text::same_text(t, comm.as_str()) || (comm.as_str().as_bytes().len() == COMM_LEN
            && t.as_bytes().len() > COMM_LEN && text::has_prefix(tc.as_slice(), low.as_slice())) {
            proof { assert(command_is(comm@, tokens(app_id@)[i as int])); }
            return true;
        }
        i += 1;
    }
    false
}

} // verus!
