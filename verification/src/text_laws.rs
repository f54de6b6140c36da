//! What holds of texts: their lines, words, ends and numbers.

use vstd::prelude::*;

use crate::text;

verus! {

/// Reading lines goes from the front: what stands before the first line feed,
/// less one carriage return at its end, is the first line, and the rest is read
/// on its own. Nothing has no line, and a text without a line feed is one.
pub proof fn first_line_comes_first(line: Seq<char>, rest: Seq<char>)
    requires
        !line.contains('\n'),
    ensures
        line.len() > 0 && line.last() == '\r' ==> text::lines(line.push('\n') + rest) == seq![
            line.drop_last(),
        ] + text::lines(rest),
        line.len() == 0 || line.last() != '\r' ==> text::lines(line.push('\n') + rest) == seq![
            line,
        ] + text::lines(rest),
        line.len() > 0 ==> text::lines(line) == seq![line],
        line.len() == 0 ==> text::lines(line).len() == 0,
{
    text::lemma_split_unseparated(line, '\n');
    text::lemma_split_concat(line, '\n', rest);
    text::lemma_split(rest, '\n');
    let parts = text::split(rest, '\n');
    let all = text::split(line.push('\n') + rest, '\n');
    let own = if line.len() > 0 && line.last() == '\r' {
        line.drop_last()
    } else {
        line
    };
    assert(all == seq![line] + parts);
    assert(all.last() == parts.last());
    assert(all.drop_last() == seq![line] + parts.drop_last());
    assert(all.drop_last().map_values(|p: Seq<char>| text::without_cr(p)) == seq![own]
        + parts.drop_last().map_values(|p: Seq<char>| text::without_cr(p)));
    assert(text::lines(line.push('\n') + rest) == seq![own] + text::lines(rest));
    assert(text::split(line, '\n').drop_last().len() == 0);
    assert(text::split(line, '\n').last() == line);
    assert(text::split(line, '\n').drop_last().map_values(
        |p: Seq<char>| text::without_cr(p),
    ).len() == 0);
    if line.len() > 0 {
        assert(text::lines(line) == seq![line]);
    }
}

/// Every character of `s` is white space.
pub open spec fn blank(s: Seq<char>) -> bool {
    forall|i: int| 0 <= i < s.len() ==> text::is_white(#[trigger] s[i])
}

proof fn lemma_trim_start(s: Seq<char>) -> (a: int)
    ensures
        0 <= a <= s.len(),
        blank(s.take(a)),
        text::trim_start(s) == s.skip(a),
        a < s.len() ==> !text::is_white(s[a]),
    decreases s.len(),
{
    if s.len() > 0 && text::is_white(s[0]) {
        let b = lemma_trim_start(s.skip(1));
        assert(s.skip(1).skip(b) == s.skip(b + 1));
        assert forall|i: int| 0 <= i < s.take(b + 1).len() implies text::is_white(
            #[trigger] s.take(b + 1)[i],
        ) by {
            if i > 0 {
                assert(s.take(b + 1)[i] == s.skip(1).take(b)[i - 1]);
            }
        }
        b + 1
    } else {
        assert(s.skip(0) == s);
        0
    }
}

proof fn lemma_trim_end(s: Seq<char>) -> (b: int)
    ensures
        0 <= b <= s.len(),
        blank(s.skip(b)),
        text::trim_end(s) == s.take(b),
        b > 0 ==> !text::is_white(s[b - 1]),
    decreases s.len(),
{
    if s.len() > 0 && text::is_white(s.last()) {
        let b = lemma_trim_end(s.drop_last());
        assert(s.drop_last().take(b) == s.take(b));
        assert forall|i: int| 0 <= i < s.skip(b).len() implies text::is_white(
            #[trigger] s.skip(b)[i],
        ) by {
            if i < s.skip(b).len() - 1 {
                assert(s.skip(b)[i] == s.drop_last().skip(b)[i]);
            }
        }
        b
    } else {
        assert(s.take(s.len() as int) == s);
        s.len() as int
    }
}

/// Trimming takes off white space at both ends and nothing else: what lies
/// between blanks, and neither begins nor ends with one, is what is left.
pub proof fn trimming_takes_off_blanks(before: Seq<char>, s: Seq<char>, after: Seq<char>)
    requires
        blank(before),
        blank(after),
        s.len() > 0 ==> !text::is_white(s[0]) && !text::is_white(s.last()),
    ensures
        text::trim(before + s + after) == s,
{
    let all = before + s + after;
    let a = lemma_trim_start(all);
    let rest = all.skip(a);
    let b = lemma_trim_end(rest);
    if s.len() > 0 {
        if a < before.len() {
            assert(all[a] == before[a]);
        } else if a > before.len() {
            assert(all.take(a)[before.len() as int] == s[0]);
        }
        assert(a == before.len());
        assert(rest == s + after);
        if b > s.len() {
            assert(rest[b - 1] == after[b - 1 - s.len()]);
        } else if b < s.len() {
            assert(rest.skip(b)[s.len() - 1 - b] == s.last());
        }
        assert(rest.take(b) == s);
    } else {
        assert(blank(all)) by {
            assert forall|i: int| 0 <= i < all.len() implies text::is_white(
                #[trigger] all[i],
            ) by {
                if i < before.len() {
                    assert(all[i] == before[i]);
                } else {
                    assert(all[i] == after[i - before.len()]);
                }
            }
        }
        if b > 0 {
            assert(rest[b - 1] == all[a + b - 1]);
        }
        assert(rest.take(b) == s);
    }
}

/// A number is read from its decimal digits, with any number of zeros and at
/// most one plus sign before them, if it is not too large.
pub proof fn numbers_are_read(n: nat, max: nat, digits: Seq<char>)
    requires
        digits.len() > 0,
        text::all_digits(digits),
    ensures
        text::number(text::decimal(n), max) == (if n <= max {
            Some(n)
        } else {
            None
        }),
        text::number(seq!['0'] + digits, max) == text::number(digits, max),
        text::number(seq!['+'] + digits, max) == text::number(digits, max),
        text::decimal(n).len() > 1 ==> text::decimal(n)[0] != '0',
{
    text::lemma_decimal_value(n);
    let zero = seq!['0'] + digits;
    assert(text::is_digit(digits[0]));
    assert(text::unsigned_digits(digits) == digits);
    assert(text::unsigned_digits(zero) == zero);
    assert(text::all_digits(zero)) by {
        assert forall|i: int| 0 <= i < zero.len() implies text::is_digit(#[trigger] zero[i]) by {
            if i > 0 {
                assert(zero[i] == digits[i - 1]);
            }
        }
    }
    lemma_leading_zero(digits);
    let plus = seq!['+'] + digits;
    assert(plus.skip(1) == digits);
    lemma_no_leading_zero(n);
}

proof fn lemma_leading_zero(digits: Seq<char>)
    ensures
        text::value(seq!['0'] + digits) == text::value(digits),
    decreases digits.len(),
{
    let zero = seq!['0'] + digits;
    if digits.len() == 0 {
        assert(zero.drop_last().len() == 0);
        assert(text::value(zero.drop_last()) == 0);
        assert(zero.last() == '0');
    } else {
        assert(zero.drop_last() == seq!['0'] + digits.drop_last());
        lemma_leading_zero(digits.drop_last());
    }
}

proof fn lemma_no_leading_zero(n: nat)
    ensures
        n > 0 ==> text::decimal(n)[0] != '0',
        n < 10 ==> text::decimal(n).len() == 1,
    decreases n,
{
    if n >= 10 {
        lemma_no_leading_zero(n / 10);
        text::lemma_decimal_value(n / 10);
        assert(text::decimal(n)[0] == text::decimal(n / 10)[0]);
    }
}

/// What is not one or more digits, but for a plus sign before them, is no
/// number.
pub proof fn other_texts_are_no_numbers(s: Seq<char>, max: nat, i: int)
    requires
        0 <= i < s.len(),
        !text::is_digit(s[i]),
        i > 0 || s[0] != '+' || s.len() == 1,
    ensures
        text::number(s, max) is None,
        text::number(Seq::empty(), max) is None,
{
    let d = text::unsigned_digits(s);
    if s[0] == '+' {
        if i > 0 {
            assert(d[i - 1] == s[i]);
        }
    }
}

/// The words of a text are its runs of other characters than white space: a
/// word is itself, white space gives none, and what two texts give with white
/// space between them is what each of them gives.
pub proof fn words_are_runs(a: Seq<char>, w: char, b: Seq<char>)
    requires
        text::is_white(w),
    ensures
        text::words(a.push(w) + b) == text::words(a) + text::words(b),
        a.len() > 0 && text::no_white(a) ==> text::words(a) == seq![a],
        a.len() == 0 ==> text::words(a).len() == 0,
{
    text::lemma_words_concat(a, w, b);
    if a.len() > 0 && text::no_white(a) {
        text::lemma_words_of_word(a);
    }
}

/// Joining puts the separator between the parts: one part is itself, and two
/// lists of parts are joined as what each of them gives.
pub proof fn joins_are_joined(a: Seq<Seq<char>>, b: Seq<Seq<char>>, sep: Seq<char>, s: Seq<char>)
    requires
        a.len() > 0,
        b.len() > 0,
    ensures
        text::join(a + b, sep) == text::join(a, sep) + sep + text::join(b, sep),
        text::join(seq![s], sep) == s,
    decreases b.len(),
{
    assert((a + b).drop_last() == a + b.drop_last());
    assert((a + b).last() == b.last());
    if b.len() == 1 {
        assert(a + b.drop_last() == a);
    } else {
        joins_are_joined(a, b.drop_last(), sep, s);
        let front = text::join(a, sep) + sep;
        assert(front + text::join(b.drop_last(), sep) + sep + b.last() == front + (text::join(
            b.drop_last(),
            sep,
        ) + sep + b.last()));
    }
}

/// Making letters small changes the twenty-six capitals of ASCII, each to its
/// own small letter, and nothing else.
pub proof fn only_capitals_are_made_small(s: Seq<char>, i: int, k: u32)
    requires
        0 <= i < s.len(),
        k < 26,
    ensures
        text::lower(s).len() == s.len(),
        s[i] as u32 == 0x41 + k ==> text::lower(s)[i] as u32 == 0x61 + k,
        (s[i] as u32) < 0x41 || s[i] as u32 > 0x5a ==> text::lower(s)[i] == s[i],
{
}

/// Which characters are white space: the controls from the tab to the carriage
/// return, the next-line control, and the spaces and separators of Unicode.
pub proof fn white_space_is_this(c: char)
    ensures
        text::is_white(c) <==> {
            ||| '\t' <= c <= '\r'
            ||| c == ' '
            ||| c == '\u{85}'
            ||| c == '\u{a0}'
            ||| c == '\u{1680}'
            ||| '\u{2000}' <= c <= '\u{200a}'
            ||| c == '\u{2028}'
            ||| c == '\u{2029}'
            ||| c == '\u{202f}'
            ||| c == '\u{205f}'
            ||| c == '\u{3000}'
        },
        text::is_digit(c) <==> '0' <= c <= '9',
        text::is_control(c) <==> c <= '\u{1f}' || '\u{7f}' <= c <= '\u{9f}',
{
}

} // verus!
