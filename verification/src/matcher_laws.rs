//! What holds of the names that units and app ids are compared by.

use vstd::prelude::*;
use vstd::utf8::*;

use crate::bytes;
use crate::matcher;
use crate::seqs;
use crate::text;
use crate::text_laws;

verus! {

/// A token that can identify something.
pub open spec fn identifies(t: Seq<char>) -> bool {
    t.len() >= 3 && t != "app"@ && text::lower(t) == t
}

/// The tokens `ts` can each identify something, and none occurs twice.
pub open spec fn proper(ts: Seq<Seq<char>>) -> bool {
    ts.no_duplicates() && forall|i: int| 0 <= i < ts.len() ==> identifies(#[trigger] ts[i])
}

proof fn lemma_lower_twice(s: Seq<char>)
    ensures
        text::lower(text::lower(s)) == text::lower(s),
{
    assert forall|i: int| 0 <= i < s.len() implies text::lower_char(
        text::lower_char(#[trigger] s[i]),
    ) == text::lower_char(s[i]) by {
    }
    assert(text::lower(text::lower(s)) =~= text::lower(s));
}

proof fn lemma_with_token(have: Seq<Seq<char>>, t: Seq<char>)
    requires
        proper(have),
    ensures
        proper(matcher::with_token(have, t)),
{
    lemma_lower_twice(t);
}

proof fn lemma_with_tokens(have: Seq<Seq<char>>, ts: Seq<Seq<char>>)
    requires
        proper(have),
    ensures
        proper(matcher::with_tokens(have, ts)),
    decreases ts.len(),
{
    if ts.len() > 0 {
        lemma_with_tokens(have, ts.drop_last());
        lemma_with_token(matcher::with_tokens(have, ts.drop_last()), ts.last());
    }
}

proof fn lemma_with_parts(have: Seq<Seq<char>>, parts: Seq<Seq<char>>)
    requires
        proper(have),
    ensures
        proper(matcher::with_parts(have, parts)),
    decreases parts.len(),
{
    if parts.len() > 0 {
        lemma_with_parts(have, parts.drop_last());
        lemma_with_tokens(
            matcher::with_parts(have, parts.drop_last()),
            matcher::part_names(parts.last()),
        );
    }
}

/// Every token has three characters or more, none of them a capital letter of
/// ASCII, is not the bare `app`, and occurs once.
pub proof fn tokens_are_proper(core: Seq<char>)
    ensures
        proper(matcher::tokens(core)),
{
    assert(proper(Seq::<Seq<char>>::empty()));
    lemma_with_token(Seq::empty(), core);
    lemma_with_parts(
        matcher::with_token(Seq::empty(), core),
        matcher::naming_parts(core),
    );
}

/// The texts `ts` with their capitals made small.
pub open spec fn lower_all(ts: Seq<Seq<char>>) -> Seq<Seq<char>> {
    ts.map_values(|t: Seq<char>| text::lower(t))
}


proof fn lemma_lower_split(s: Seq<char>, sep: char)
    requires
        text::lower_char(sep) == sep,
        forall|c: char| #[trigger] text::lower_char(c) == sep ==> c == sep,
    ensures
        text::split(text::lower(s), sep) == lower_all(text::split(s, sep)),
    decreases s.len(),
{
    let low = text::lower(s);
    if s.len() == 0 {
        assert(low =~= s);
        assert(lower_all(text::split(s, sep)) =~= seq![Seq::<char>::empty()]) by {
            assert(text::lower(Seq::<char>::empty()) =~= Seq::<char>::empty());
        }
    } else {
        lemma_lower_split(s.drop_last(), sep);
        assert(low.drop_last() =~= text::lower(s.drop_last()));
        assert(low.last() == text::lower_char(s.last()));
        let before = text::split(s.drop_last(), sep);
        text::lemma_split(s.drop_last(), sep);
        if s.last() == sep {
            assert(text::lower(Seq::<char>::empty()) =~= Seq::<char>::empty());
            assert(text::split(low, sep) =~= lower_all(text::split(s, sep)));
        } else {
            assert(text::lower(before.last().push(s.last())) =~= text::lower(before.last()).push(
                text::lower_char(s.last()),
            ));
            assert(text::split(low, sep) =~= lower_all(text::split(s, sep)));
        }
    }
}

proof fn lemma_lower_after_last(s: Seq<char>)
    ensures
        matcher::after_last(text::lower(s), '.') == text::lower(matcher::after_last(s, '.')),
{
    let low = text::lower(s);
    text::lemma_index_of(s, '.');
    text::lemma_index_of(low, '.');
    match text::last_index_of(s, '.') {
        Some(i) => {
            assert(low[i] == '.');
            assert(low.contains(low[i]));
            let j = text::last_index_of(low, '.')->0;
            assert(s[j] == '.') by {
                assert(low[j] == text::lower_char(s[j]));
            }
            assert(i == j);
            assert(low.skip(i + 1) =~= text::lower(s.skip(i + 1)));
        },
        None => {
            if low.contains('.') {
                let j = choose|j: int| 0 <= j < low.len() && low[j] == '.';
                assert(low[j] == text::lower_char(s[j]));
                assert(s.contains(s[j]));
            }
        },
    }
}

proof fn lemma_lower_nonempty(ts: Seq<Seq<char>>)
    ensures
        matcher::nonempty(lower_all(ts)) == lower_all(matcher::nonempty(ts)),
    decreases ts.len(),
{
    if ts.len() == 0 {
        assert(lower_all(ts) =~= ts);
    } else {
        let low = lower_all(ts);
        lemma_lower_nonempty(ts.drop_last());
        assert(low.drop_last() =~= lower_all(ts.drop_last()));
        assert(low.last() == text::lower(ts.last()));
        assert(matcher::nonempty(low) =~= lower_all(matcher::nonempty(ts)));
    }
}

proof fn lemma_lower_with_tokens(have: Seq<Seq<char>>, ts: Seq<Seq<char>>)
    ensures
        matcher::with_tokens(have, lower_all(ts)) == matcher::with_tokens(have, ts),
    decreases ts.len(),
{
    if ts.len() > 0 {
        lemma_lower_with_tokens(have, ts.drop_last());
        assert(lower_all(ts).drop_last() =~= lower_all(ts.drop_last()));
        lemma_lower_twice(ts.last());
    }
}

proof fn lemma_lower_part(part: Seq<char>)
    ensures
        matcher::part_names(text::lower(part)) == lower_all(matcher::part_names(part)),
{
    lemma_lower_after_last(part);
    lemma_lower_split(part, '_');
    assert(matcher::part_names(text::lower(part)) =~= lower_all(matcher::part_names(part)));
}

proof fn lemma_lower_with_parts(have: Seq<Seq<char>>, parts: Seq<Seq<char>>)
    ensures
        matcher::with_parts(have, lower_all(parts)) == matcher::with_parts(have, parts),
    decreases parts.len(),
{
    if parts.len() > 0 {
        lemma_lower_with_parts(have, parts.drop_last());
        assert(lower_all(parts).drop_last() =~= lower_all(parts.drop_last()));
        lemma_lower_part(parts.last());
        lemma_lower_with_tokens(
            matcher::with_parts(have, parts.drop_last()),
            matcher::part_names(parts.last()),
        );
    }
}

/// Two ids that differ only in which of their ASCII letters are capitals have
/// the same tokens.
pub proof fn tokens_ignore_case(a: Seq<char>, b: Seq<char>)
    requires
        text::lower(a) == text::lower(b),
    ensures
        matcher::tokens(a) == matcher::tokens(b),
{
    lemma_tokens_of_lower(a);
    lemma_tokens_of_lower(b);
}

proof fn lemma_tokens_of_lower(s: Seq<char>)
    ensures
        matcher::tokens(text::lower(s)) == matcher::tokens(s),
{
    lemma_lower_twice(s);
    lemma_lower_split(s, '-');
    lemma_lower_nonempty(text::split(s, '-'));
    let parts = matcher::naming_parts(s);
    assert(matcher::naming_parts(text::lower(s)) =~= lower_all(parts));
    lemma_lower_with_parts(matcher::with_token(Seq::empty(), s), parts);
}

/// Whether a unit name identifies an app id does not depend on the case of the
/// id.
pub proof fn matching_ignores_case(name: Seq<char>, a: Seq<char>, b: Seq<char>)
    requires
        text::lower(a) == text::lower(b),
    ensures
        matcher::name_identifies(name, a) == matcher::name_identifies(name, b),
{
    assert(text::lower(a).len() == a.len());
    assert(text::lower(b).len() == b.len());
    tokens_ignore_case(a, b);
}

/// No unit is named after an empty app id, and no process is.
pub proof fn empty_id_matches_nothing(name: Seq<char>, comm: Seq<char>)
    ensures
        !matcher::name_identifies(name, Seq::empty()),
        !matcher::command_identifies(comm, Seq::empty()),
{
    let none = Seq::<char>::empty();
    assert(text::lower(none) =~= none);
    let parts = text::split(none, '-');
    assert(parts.drop_last() =~= Seq::<Seq<char>>::empty());
    assert(matcher::nonempty(parts.drop_last()).len() == 0);
    assert(matcher::nonempty(parts).len() == 0);
    assert(matcher::tokens(none).len() == 0);
}

/// A unit that a launcher named `app-<id>@<random>.service` identifies the app
/// id, unless the id leaves no token to compare by, holds an `@`, or ends in a
/// number, which is taken off as a nonce.
pub proof fn unit_named_after_its_app_matches(id: Seq<char>, random: Seq<char>)
    requires
        matcher::tokens(id).len() > 0,
        id.len() > 0,
        !id.contains('@'),
        matcher::without_numbers(id) == id,
    ensures
        matcher::name_identifies("app-"@ + id + "@"@ + random + ".service"@, id),
{
    reveal_strlit("app-");
    reveal_strlit("@");
    reveal_strlit(".service");
    let stem = "app-"@ + id + "@"@ + random;
    let name = stem + ".service"@;
    assert(name.skip(name.len() - ".service"@.len()) =~= ".service"@);
    assert(".service"@.is_suffix_of(name));
    assert(name.take(name.len() - ".service"@.len()) =~= stem);
    assert(matcher::stem(name) == Some(stem));
    assert("app-"@.is_prefix_of(stem)) by {
        assert(stem.take(4) =~= "app-"@);
    }
    let rest = id + "@"@ + random;
    assert(stem.skip("app-"@.len() as int) =~= rest);
    assert(matcher::unprefixed(stem) == rest);
    text::lemma_index_of(rest, '@');
    let k = id.len() as int;
    assert(rest[k] == '@');
    assert(rest.contains(rest[k]));
    let i = text::index_of(rest, '@')->0;
    if i < k {
        assert(rest[i] == id[i]);
        assert(id.contains(id[i]));
    }
    assert(i == k);
    assert(rest.take(k) =~= id);
    assert(matcher::core_of(name) == Some(id));
    let ts = matcher::tokens(id);
    assert(ts.contains(ts[0]));
}

/// The hexadecimal digit for a number below sixteen, with small letters or with
/// capitals.
pub open spec fn hex_of(n: u8, capitals: bool) -> u8 {
    if n < 10 {
        (0x30 + n) as u8
    } else if capitals {
        (0x41 + n - 10) as u8
    } else {
        (0x61 + n - 10) as u8
    }
}

/// An escape stands for its byte: a backslash, an `x` and the two hexadecimal
/// digits of the byte, with small letters or capitals.
pub proof fn escapes_stand_for_their_byte(b: u8, high: bool, low: bool, rest: Seq<u8>)
    ensures
        matcher::unescaped(
            seq![0x5cu8, 0x78u8, hex_of((b / 16) as u8, high), hex_of((b % 16) as u8, low)] + rest,
        ) == seq![b] + matcher::unescaped(rest),
{
    let (h, l) = (hex_of((b / 16) as u8, high), hex_of((b % 16) as u8, low));
    let s = seq![0x5cu8, 0x78u8, h, l] + rest;
    assert(s[0] == 0x5c && s[1] == 0x78 && s[2] == h && s[3] == l);
    assert(s.skip(4) == rest);
    assert(matcher::hex_digit(h) == Some((b / 16) as u8));
    assert(matcher::hex_digit(l) == Some((b % 16) as u8));
}

/// A hexadecimal digit.
pub open spec fn is_hex(b: u8) -> bool {
    0x30 <= b <= 0x39 || 0x41 <= b <= 0x46 || 0x61 <= b <= 0x66
}

/// What does not begin an escape is kept: any byte but a backslash, and a
/// backslash that no `x` and two hexadecimal digits follow.
pub proof fn other_bytes_are_kept(s: Seq<u8>)
    requires
        s.len() > 0,
        s[0] != 0x5c || s.len() < 4 || s[1] != 0x78 || !is_hex(s[2]) || !is_hex(s[3]),
    ensures
        matcher::unescaped(s) == seq![s[0]] + matcher::unescaped(s.skip(1)),
        matcher::unescaped(Seq::empty()).len() == 0,
{
}

/// Numbers at the end are taken off, one after the other; an end that is empty
/// or holds anything but digits stays, and so does a core without a dash.
pub proof fn numbers_at_the_end_are_taken_off(core: Seq<char>, end: Seq<char>)
    requires
        !end.contains('-'),
    ensures
        end.len() > 0 && text::all_digits(end) ==> matcher::without_numbers(
            core.push('-') + end,
        ) == matcher::without_numbers(core),
        end.len() == 0 || !text::all_digits(end) ==> matcher::without_numbers(
            core.push('-') + end,
        ) == core.push('-') + end,
        matcher::without_numbers(end) == end,
{
    let s = core.push('-') + end;
    let at = core.len() as int;
    assert(s[at] == '-');
    assert forall|j: int| at < j < s.len() implies s[j] != '-' by {
        assert(end.contains(end[j - at - 1]));
    }
    text::lemma_last_index_is(s, '-', at);
    assert(s.skip(at + 1) == end);
    assert(s.take(at) == core);
    text::lemma_index_of(end, '-');
}

/// What stands before the part of a unit name that names the app.
pub enum Lead {
    /// `app-`
    App,
    /// `dbus-`, and a name on the bus
    Dbus(Seq<char>),
    /// `dbus-` alone, before a name without a dash.
    BareDbus,
    /// Nothing.
    Bare,
}

/// The text of a lead.
pub open spec fn lead_text(lead: Lead) -> Seq<char> {
    match lead {
        Lead::App => "app-"@,
        Lead::Dbus(a) => "dbus-"@ + a + "-"@,
        Lead::BareDbus => "dbus-"@,
        Lead::Bare => Seq::empty(),
    }
}

/// A core, and what a launcher put behind it.
pub open spec fn framed(core: Seq<char>, random: Option<Seq<char>>) -> Seq<char> {
    match random {
        Some(r) => core + "@"@ + r,
        None => core,
    }
}

/// What names the app in a unit name: what stands between `app-`, or `dbus-`
/// and a name on the bus, or nothing, and an `@`, or the end, of the name of a
/// service or scope, less the numbers at its end. The name of any other unit
/// names none.
pub proof fn cores_stand_within_their_frame(
    lead: Lead,
    core: Seq<char>,
    random: Option<Seq<char>>,
    service: bool,
    other: Seq<char>,
)
    requires
        !core.contains('@'),
        lead matches Lead::Dbus(a) ==> !a.contains('-'),
        lead is BareDbus ==> !framed(core, random).contains('-'),
        lead is Bare ==> !"app-"@.is_prefix_of(framed(core, random)) && !"dbus-"@.is_prefix_of(
            framed(core, random),
        ),
        !".service"@.is_suffix_of(other),
        !".scope"@.is_suffix_of(other),
    ensures
        matcher::core_of(
            lead_text(lead) + framed(core, random) + (if service {
                ".service"@
            } else {
                ".scope"@
            }),
        ) == Some(matcher::without_numbers(core)),
        matcher::core_of(other) is None,
{
    let tail = match random {
        Some(r) => "@"@ + r,
        None => Seq::empty(),
    };
    let inner = framed(core, random);
    assert(inner == core + tail);
    let stem = lead_text(lead) + inner;
    lemma_stem(stem, service);
    lemma_unprefixed(lead, inner);
    assert(matcher::before_first(inner, '@') == core) by {
        reveal_strlit("@");
        text::lemma_index_of(inner, '@');
        match random {
            Some(r) => {
                let k = core.len() as int;
                assert(inner[k] == '@');
                assert(inner.contains(inner[k]));
                let i = text::index_of(inner, '@')->0;
                if i < k {
                    assert(inner[i] == core[i]);
                    assert(core.contains(core[i]));
                }
                assert(i == k);
                assert(inner.take(k) == core);
            },
            None => {
                assert(inner == core);
            },
        }
    }
}

proof fn lemma_stem(stem: Seq<char>, service: bool)
    ensures
        matcher::stem(
            stem + (if service {
                ".service"@
            } else {
                ".scope"@
            }),
        ) == Some(stem),
{
    reveal_strlit(".service");
    reveal_strlit(".scope");
    let (a, b) = (".service"@, ".scope"@);
    let name = stem + (if service { a } else { b });
    if service {
        assert(name.skip(name.len() - a.len()) == a);
        assert(name.take(name.len() - a.len()) == stem);
    } else {
        assert(name.last() == 'e');
        if a.is_suffix_of(name) {
            assert(a[4] == name.skip(name.len() - a.len())[4]);
            assert(name[name.len() - 4] == b[2]);
        }
        assert(name.skip(name.len() - b.len()) == b);
        assert(name.take(name.len() - b.len()) == stem);
    }
}

proof fn lemma_unprefixed(lead: Lead, inner: Seq<char>)
    requires
        lead matches Lead::Dbus(a) ==> !a.contains('-'),
        lead is BareDbus ==> !inner.contains('-'),
        lead is Bare ==> !"app-"@.is_prefix_of(inner) && !"dbus-"@.is_prefix_of(inner),
    ensures
        matcher::unprefixed(lead_text(lead) + inner) == inner,
{
    reveal_strlit("app-");
    reveal_strlit("dbus-");
    reveal_strlit("-");
    let s = lead_text(lead) + inner;
    match lead {
        Lead::App => {
            assert(s.take(4) == "app-"@);
            assert(s.skip(4) == inner);
        },
        Lead::Dbus(a) => {
            assert(s[0] == 'd');
            if "app-"@.is_prefix_of(s) {
                assert("app-"@[0] == s.take(4)[0]);
            }
            assert(s.take(5) == "dbus-"@);
            let rest = a + "-"@ + inner;
            assert(s.skip(5) == rest);
            text::lemma_index_of(rest, '-');
            let k = a.len() as int;
            assert(rest[k] == '-');
            assert(rest.contains(rest[k]));
            let i = text::index_of(rest, '-')->0;
            if i < k {
                assert(rest[i] == a[i]);
                assert(a.contains(a[i]));
            }
            assert(i == k);
            assert(rest.skip(k + 1) == inner);
        },
        Lead::BareDbus => {
            assert(s[0] == 'd');
            if "app-"@.is_prefix_of(s) {
                assert("app-"@[0] == s.take(4)[0]);
            }
            assert(s.take(5) == "dbus-"@);
            assert(s.skip(5) == inner);
            text::lemma_index_of(inner, '-');
        },
        Lead::Bare => {
            assert(s == inner);
        },
    }
}

/// The name `n` gives the token `t`: it is the name with its capitals made
/// small, and can identify something.
pub open spec fn gives(n: Seq<char>, t: Seq<char>) -> bool {
    text::lower(n) == t && t.len() >= 3 && t != "app"@
}

proof fn lemma_with_token_contains(have: Seq<Seq<char>>, n: Seq<char>, t: Seq<char>)
    ensures
        matcher::with_token(have, n).contains(t) <==> have.contains(t) || gives(n, t),
{
    seqs::lemma_contains_push(have, text::lower(n), t);
}

proof fn lemma_with_tokens_contains(have: Seq<Seq<char>>, ns: Seq<Seq<char>>, t: Seq<char>)
    ensures
        matcher::with_tokens(have, ns).contains(t) <==> have.contains(t) || exists|i: int|
            0 <= i < ns.len() && gives(#[trigger] ns[i], t),
    decreases ns.len(),
{
    if ns.len() > 0 {
        let front = ns.drop_last();
        lemma_with_tokens_contains(have, front, t);
        lemma_with_token_contains(matcher::with_tokens(have, front), ns.last(), t);
        if gives(ns.last(), t) {
            assert(gives(ns[ns.len() - 1], t));
        }
        if exists|i: int| 0 <= i < front.len() && gives(#[trigger] front[i], t) {
            let i = choose|i: int| 0 <= i < front.len() && gives(#[trigger] front[i], t);
            assert(gives(ns[i], t));
        }
        if exists|i: int| 0 <= i < ns.len() && gives(#[trigger] ns[i], t) {
            let i = choose|i: int| 0 <= i < ns.len() && gives(#[trigger] ns[i], t);
            if i < front.len() {
                assert(gives(front[i], t));
            }
        }
    }
}

/// One part of an id gives the token `t`: as a whole, by what follows its last
/// dot, or by one of the pieces between its underscores.
pub open spec fn part_gives(part: Seq<char>, t: Seq<char>) -> bool {
    ||| gives(part, t)
    ||| gives(text::split(part, '.').last(), t)
    ||| exists|i: int|
        0 <= i < text::split(part, '_').len() && gives(#[trigger] text::split(part, '_')[i], t)
}

proof fn lemma_part_contains(have: Seq<Seq<char>>, part: Seq<char>, t: Seq<char>)
    ensures
        matcher::with_tokens(have, matcher::part_names(part)).contains(t) <==> have.contains(t)
            || part_gives(part, t),
{
    let names = matcher::part_names(part);
    let pieces = text::split(part, '_');
    lemma_with_tokens_contains(have, names, t);
    lemma_last_piece(part, '.');
    assert(names[0] == part);
    assert(names[1] == text::split(part, '.').last());
    if exists|i: int| 0 <= i < names.len() && gives(#[trigger] names[i], t) {
        let i = choose|i: int| 0 <= i < names.len() && gives(#[trigger] names[i], t);
        if i >= 2 {
            assert(pieces[i - 2] == names[i]);
        }
    }
    if exists|i: int| 0 <= i < pieces.len() && gives(#[trigger] pieces[i], t) {
        let i = choose|i: int| 0 <= i < pieces.len() && gives(#[trigger] pieces[i], t);
        assert(names[i + 2] == pieces[i]);
    }
    if gives(part, t) {
        assert(gives(names[0], t));
    }
    if gives(text::split(part, '.').last(), t) {
        assert(gives(names[1], t));
    }
}

proof fn lemma_last_piece(s: Seq<char>, c: char)
    ensures
        matcher::after_last(s, c) == text::split(s, c).last(),
{
    text::lemma_index_of(s, c);
    match text::last_index_of(s, c) {
        Some(i) => {
            let tail = s.skip(i + 1);
            assert(s == s.take(i).push(c) + tail);
            text::lemma_split_concat(s.take(i), c, tail);
            assert forall|j: int| 0 <= j < tail.len() implies tail[j] != c by {
                assert(tail[j] == s[i + 1 + j]);
            }
            text::lemma_split_unseparated(tail, c);
        },
        None => {
            text::lemma_split_unseparated(s, c);
        },
    }
}

proof fn lemma_parts_contain(have: Seq<Seq<char>>, parts: Seq<Seq<char>>, t: Seq<char>)
    ensures
        matcher::with_parts(have, parts).contains(t) <==> have.contains(t) || exists|k: int|
            0 <= k < parts.len() && part_gives(#[trigger] parts[k], t),
    decreases parts.len(),
{
    if parts.len() > 0 {
        let front = parts.drop_last();
        lemma_parts_contain(have, front, t);
        lemma_part_contains(matcher::with_parts(have, front), parts.last(), t);
        if part_gives(parts.last(), t) {
            assert(part_gives(parts[parts.len() - 1], t));
        }
        if exists|k: int| 0 <= k < front.len() && part_gives(#[trigger] front[k], t) {
            let k = choose|k: int| 0 <= k < front.len() && part_gives(#[trigger] front[k], t);
            assert(part_gives(parts[k], t));
        }
        if exists|k: int| 0 <= k < parts.len() && part_gives(#[trigger] parts[k], t) {
            let k = choose|k: int| 0 <= k < parts.len() && part_gives(#[trigger] parts[k], t);
            if k < front.len() {
                assert(part_gives(front[k], t));
            }
        }
    }
}

proof fn lemma_nonempty(ts: Seq<Seq<char>>)
    ensures
        matcher::nonempty(ts) == ts.filter(|p: Seq<char>| p.len() > 0),
    decreases ts.len(),
{
    reveal(Seq::filter);
    if ts.len() > 0 {
        lemma_nonempty(ts.drop_last());
    }
}

/// Which tokens an id has: it gives them as a whole, or one of the parts
/// between its dashes does, of which the first does not count where there are
/// several. A token is written small, has three characters or more and is not
/// the bare `app`.
pub proof fn tokens_are_these(core: Seq<char>, t: Seq<char>)
    ensures
        matcher::tokens(core).contains(t) <==> {
            let parts = text::split(core, '-').filter(|p: Seq<char>| p.len() > 0);
            ||| gives(core, t)
            ||| exists|k: int|
                0 <= k < parts.len() && (k > 0 || parts.len() == 1) && part_gives(
                    #[trigger] parts[k],
                    t,
                )
        },
{
    let none = Seq::<Seq<char>>::empty();
    let parts = text::split(core, '-').filter(|p: Seq<char>| p.len() > 0);
    lemma_nonempty(text::split(core, '-'));
    let used = matcher::naming_parts(core);
    lemma_with_token_contains(none, core, t);
    lemma_parts_contain(matcher::with_token(none, core), used, t);
    let skip: int = if parts.len() > 1 { 1 } else { 0 };
    assert(used == parts.skip(skip));
    if exists|k: int| 0 <= k < used.len() && part_gives(#[trigger] used[k], t) {
        let k = choose|k: int| 0 <= k < used.len() && part_gives(#[trigger] used[k], t);
        assert(parts[k + skip] == used[k]);
        assert(part_gives(parts[k + skip], t));
    }
    if exists|k: int|
        0 <= k < parts.len() && (k > 0 || parts.len() == 1) && part_gives(#[trigger] parts[k], t) {
        let k = choose|k: int|
            0 <= k < parts.len() && (k > 0 || parts.len() == 1) && part_gives(
                #[trigger] parts[k],
                t,
            );
        assert(used[k - skip] == parts[k]);
        assert(part_gives(used[k - skip], t));
    }
}

/// A unit name identifies an app id if and only if the id is not empty and the
/// two have a token in common.
pub proof fn a_common_token_identifies(name: Seq<char>, app_id: Seq<char>)
    ensures
        matcher::name_identifies(name, app_id) <==> app_id.len() > 0 && matcher::core_of(name)
            is Some && exists|t: Seq<char>| #[trigger]
            matcher::tokens(app_id).contains(t) && matcher::tokens(
                matcher::core_of(name)->0,
            ).contains(t),
{
    if let Some(core) = matcher::core_of(name) {
        let a = matcher::tokens(core);
        let b = matcher::tokens(app_id);
        if matcher::share_token(a, b) {
            let i = choose|i: int| 0 <= i < a.len() && #[trigger] b.contains(a[i]);
            assert(a.contains(a[i]));
        }
        if exists|t: Seq<char>| #[trigger] b.contains(t) && a.contains(t) {
            let t = choose|t: Seq<char>| #[trigger] b.contains(t) && a.contains(t);
            let i = choose|i: int| 0 <= i < a.len() && a[i] == t;
            assert(b.contains(a[i]));
        }
    }
}

/// The game id of a window is what follows `steam_app_` in its app id, if
/// anything does; no other app id has one.
pub proof fn game_ids_follow_their_prefix(id: Seq<char>, app_id: Seq<char>)
    ensures
        id.len() > 0 ==> matcher::game_id("steam_app_"@ + id) == Some(id),
        matcher::game_id("steam_app_"@) is None,
        matcher::game_id(app_id) == Some(id) ==> app_id == "steam_app_"@ + id && id.len() > 0,
{
    let p = "steam_app_"@;
    assert((p + id).take(p.len() as int) == p);
    assert((p + id).skip(p.len() as int) == id);
    assert(p.skip(p.len() as int).len() == 0);
    if matcher::game_id(app_id) == Some(id) {
        assert(app_id == app_id.take(p.len() as int) + app_id.skip(p.len() as int));
    }
}

/// The variable `name` set to `value`.
pub open spec fn variable(name: Seq<char>, value: Seq<char>) -> Seq<u8> {
    encode_utf8(name.push('=') + value)
}

proof fn lemma_variable(name: Seq<char>, value: Seq<char>, id: Seq<char>)
    requires
        !name.contains('='),
    ensures
        matcher::entry_names_game(variable(name, value), id) <==> matcher::is_game_variable(name)
            && (value == id || value == "umu-"@ + id),
{
    let e = name.push('=') + value;
    encode_utf8_valid_utf8(e);
    encode_utf8_decode_utf8(e);
    text::lemma_index_of(e, '=');
    let k = name.len() as int;
    assert(e[k] == '=');
    assert(e.contains(e[k]));
    let i = text::index_of(e, '=')->0;
    if i < k {
        assert(e[i] == name[i]);
        assert(name.contains(name[i]));
    }
    assert(e.take(k) == name);
    assert(e.skip(k + 1) == value);
}

/// Which variables carry a game id: one of the four names, set to the id or to
/// `umu-` and the id. A variable of another name, or with another value, does
/// not.
pub proof fn four_variables_carry_game_ids(name: Seq<char>, value: Seq<char>, id: Seq<char>)
    requires
        !name.contains('='),
    ensures
        matcher::entry_names_game(variable(name, value), id) <==> (name == "SteamAppId"@ || name
            == "SteamGameId"@ || name == "STEAM_COMPAT_APP_ID"@ || name == "GAMEID"@) && (value
            == id || value == "umu-"@ + id),
{
    lemma_variable(name, value, id);
}

/// An environment carries a game id if one of its variables does, whichever: a
/// variable ends at a zero byte, and what follows is looked at on its own.
pub proof fn any_variable_can_carry(entry: Seq<u8>, rest: Seq<u8>, id: Seq<char>)
    requires
        !entry.contains(0u8),
    ensures
        matcher::names_game(entry.push(0u8) + rest, id) <==> matcher::entry_names_game(entry, id)
            || matcher::names_game(rest, id),
        matcher::names_game(entry, id) <==> matcher::entry_names_game(entry, id),
{
    lemma_zero_unseparated(entry);
    lemma_zero_concat(entry, rest);
    let ps = bytes::zero_separated(rest);
    let all = bytes::zero_separated(entry.push(0u8) + rest);
    assert(all == seq![entry] + ps);
    if matcher::entry_names_game(entry, id) {
        assert(matcher::entry_names_game(all[0], id));
        assert(matcher::entry_names_game(seq![entry][0], id));
    }
    if matcher::names_game(rest, id) {
        let i = choose|i: int| 0 <= i < ps.len() && #[trigger] matcher::entry_names_game(ps[i], id);
        assert(matcher::entry_names_game(all[i + 1], id));
    }
    if matcher::names_game(entry.push(0u8) + rest, id) {
        let i = choose|i: int|
            0 <= i < all.len() && #[trigger] matcher::entry_names_game(all[i], id);
        if i > 0 {
            assert(matcher::entry_names_game(ps[i - 1], id));
        }
    }
}

proof fn lemma_zero_unseparated(b: Seq<u8>)
    requires
        !b.contains(0u8),
    ensures
        bytes::zero_separated(b) == seq![b],
    decreases b.len(),
{
    if b.len() == 0 {
        assert(b == Seq::<u8>::empty());
    } else {
        assert forall|i: int| 0 <= i < b.drop_last().len() implies b.drop_last()[i] != 0u8 by {
            assert(b.contains(b[i]));
        }
        lemma_zero_unseparated(b.drop_last());
        let before = bytes::zero_separated(b.drop_last());
        assert(b.contains(b[b.len() - 1]));
        assert(b == b.drop_last().push(b.last()));
        assert(before.drop_last().push(before.last().push(b.last())) == seq![b]);
    }
}

proof fn lemma_zero_concat(a: Seq<u8>, b: Seq<u8>)
    requires
        bytes::zero_separated(a) == seq![a],
    ensures
        bytes::zero_separated(a.push(0u8) + b) == seq![a] + bytes::zero_separated(b),
        bytes::zero_separated(b).len() > 0,
    decreases b.len(),
{
    let s = a.push(0u8) + b;
    if b.len() == 0 {
        assert(s == a.push(0u8));
        assert(s.drop_last() == a);
        assert(seq![a].push(Seq::<u8>::empty()) == seq![a] + bytes::zero_separated(b));
    } else {
        lemma_zero_concat(a, b.drop_last());
        assert(s.drop_last() == a.push(0u8) + b.drop_last());
        let before = bytes::zero_separated(b.drop_last());
        let all = seq![a] + before;
        assert(all.last() == before.last());
        assert(all.drop_last() == seq![a] + before.drop_last());
        assert(bytes::zero_separated(s) == seq![a] + bytes::zero_separated(b));
    }
}

/// A command name, whatever white space is around it and whichever of its
/// letters are capitals, identifies an app id if it is one of its tokens, or
/// the first fifteen bytes of a longer one; and only then.
pub proof fn commands_are_cut_tokens(
    before: Seq<char>,
    comm: Seq<char>,
    after: Seq<char>,
    app_id: Seq<char>,
)
    requires
        text_laws::blank(before),
        text_laws::blank(after),
        comm.len() > 0,
        !text::is_white(comm[0]),
        !text::is_white(comm.last()),
    ensures
        matcher::command_identifies(before + comm + after, app_id) <==> exists|t: Seq<char>| {
            &&& #[trigger] matcher::tokens(app_id).contains(t)
            &&& text::lower(comm) == t || (encode_utf8(text::lower(comm)).len() == 15
                && encode_utf8(t).len() > 15 && text::lower(comm).is_prefix_of(t))
        },
        !matcher::command_identifies(before, app_id),
{
    text_laws::trimming_takes_off_blanks(before, comm, after);
    text_laws::trimming_takes_off_blanks(before, Seq::empty(), Seq::empty());
    assert(before + Seq::<char>::empty() + Seq::<char>::empty() == before);
    let ts = matcher::tokens(app_id);
    let low = text::lower(comm);
    if matcher::command_identifies(before + comm + after, app_id) {
        let i = choose|i: int| 0 <= i < ts.len() && #[trigger] matcher::command_is(low, ts[i]);
        assert(ts.contains(ts[i]));
    }
    if exists|t: Seq<char>| {
        &&& #[trigger] ts.contains(t)
        &&& low == t || (encode_utf8(low).len() == 15 && encode_utf8(t).len() > 15
            && low.is_prefix_of(t))
    } {
        let t = choose|t: Seq<char>| {
            &&& #[trigger] ts.contains(t)
            &&& low == t || (encode_utf8(low).len() == 15 && encode_utf8(t).len() > 15
                && low.is_prefix_of(t))
        };
        let i = choose|i: int| 0 <= i < ts.len() && ts[i] == t;
        assert(matcher::command_is(low, ts[i]));
    }
}

/// The names in the parts of an id, in their order: of each part itself, what
/// follows its last dot, and the pieces between its underscores.
pub open spec fn names_in(parts: Seq<Seq<char>>) -> Seq<Seq<char>>
    decreases parts.len(),
{
    if parts.len() == 0 {
        Seq::empty()
    } else {
        let part = parts.last();
        names_in(parts.drop_last()) + (seq![part, text::split(part, '.').last()] + text::split(
            part,
            '_',
        ))
    }
}

/// The names in an id: itself, and those in its parts between dashes, without
/// the first of several.
pub open spec fn names_of(core: Seq<char>) -> Seq<Seq<char>> {
    let parts = text::split(core, '-').filter(|p: Seq<char>| p.len() > 0);
    seq![core] + names_in(
        if parts.len() > 1 {
            parts.skip(1)
        } else {
            parts
        },
    )
}

proof fn lemma_with_tokens_add(have: Seq<Seq<char>>, a: Seq<Seq<char>>, b: Seq<Seq<char>>)
    ensures
        matcher::with_tokens(have, a + b) == matcher::with_tokens(matcher::with_tokens(have, a), b),
    decreases b.len(),
{
    if b.len() == 0 {
        assert(a + b == a);
    } else {
        lemma_with_tokens_add(have, a, b.drop_last());
        assert((a + b).drop_last() == a + b.drop_last());
    }
}

proof fn lemma_with_parts_names(have: Seq<Seq<char>>, parts: Seq<Seq<char>>)
    ensures
        matcher::with_parts(have, parts) == matcher::with_tokens(have, names_in(parts)),
    decreases parts.len(),
{
    if parts.len() > 0 {
        lemma_with_parts_names(have, parts.drop_last());
        lemma_last_piece(parts.last(), '.');
        lemma_with_tokens_add(
            have,
            names_in(parts.drop_last()),
            matcher::part_names(parts.last()),
        );
    }
}

proof fn lemma_tokens_of_names(core: Seq<char>)
    ensures
        matcher::tokens(core) == matcher::with_tokens(Seq::empty(), names_of(core)),
{
    let none = Seq::<Seq<char>>::empty();
    lemma_nonempty(text::split(core, '-'));
    let used = matcher::naming_parts(core);
    let one = seq![core];
    lemma_with_tokens_add(none, one, names_in(used));
    lemma_with_parts_names(matcher::with_token(none, core), used);
    assert(one.drop_last() == none);
    assert(matcher::with_tokens(none, none) == none);
    assert(matcher::with_tokens(none, one) == matcher::with_token(none, core));
}

/// Of the names `ns`, one that gives the token `t` comes before every one that
/// gives `u`.
pub open spec fn given_before(ns: Seq<Seq<char>>, t: Seq<char>, u: Seq<char>) -> bool {
    exists|a: int|
        0 <= a < ns.len() && gives(#[trigger] ns[a], t) && forall|b: int|
            0 <= b <= a ==> !gives(#[trigger] ns[b], u)
}

proof fn lemma_tokens_ordered(ns: Seq<Seq<char>>, i: int, j: int)
    requires
        0 <= i < j < matcher::with_tokens(Seq::empty(), ns).len(),
    ensures
        given_before(
            ns,
            matcher::with_tokens(Seq::empty(), ns)[i],
            matcher::with_tokens(Seq::empty(), ns)[j],
        ),
    decreases ns.len(),
{
    let none = Seq::<Seq<char>>::empty();
    let front = ns.drop_last();
    let before = matcher::with_tokens(none, front);
    let all = matcher::with_tokens(none, ns);
    let (t, u) = (all[i], all[j]);
    assert(before[i] == t);
    if j < before.len() {
        lemma_tokens_ordered(front, i, j);
        let a = choose|a: int|
            0 <= a < front.len() && gives(#[trigger] front[a], t) && forall|b: int|
                0 <= b <= a ==> !gives(#[trigger] front[b], u);
        assert(gives(ns[a], t));
        assert forall|b: int| 0 <= b <= a implies !gives(#[trigger] ns[b], u) by {
            assert(ns[b] == front[b]);
        }
    } else {
        assert(before.contains(t));
        assert(!before.contains(u));
        lemma_with_tokens_contains(none, front, t);
        lemma_with_tokens_contains(none, front, u);
        let a = choose|a: int| 0 <= a < front.len() && gives(#[trigger] front[a], t);
        assert(gives(ns[a], t));
        assert forall|b: int| 0 <= b <= a implies !gives(#[trigger] ns[b], u) by {
            assert(ns[b] == front[b]);
        }
    }
}

/// The tokens of an id come in the order of the names in it that give them, by
/// the first of those names.
pub proof fn tokens_come_in_order(core: Seq<char>, i: int, j: int)
    requires
        0 <= i < j < matcher::tokens(core).len(),
    ensures
        given_before(names_of(core), matcher::tokens(core)[i], matcher::tokens(core)[j]),
{
    lemma_tokens_of_names(core);
    lemma_tokens_ordered(names_of(core), i, j);
}

/// A unit name is compared as the text of its bytes once their escapes are
/// undone; a name without a backslash as it is.
pub proof fn names_are_compared_unescaped(name: Seq<char>)
    ensures
        matcher::plain_name(name) == bytes::lossy(matcher::unescaped(encode_utf8(name))),
        !name.contains('\\') ==> matcher::plain_name(name) == bytes::lossy(encode_utf8(name)),
{
    if !name.contains('\\') {
        matcher::unescaping_keeps_plain_names(name);
    }
}

} // verus!
