//! Text as sequences of characters: splitting, trimming, numbers and case.
//!
//! A `&str` is taken apart into its characters once; the functions below then
//! work on character slices, and their contracts on the characters themselves.

use vstd::prelude::*;

verus! {

/// `String::push` appends one character at the end.
pub assume_specification[ String::push ](s: &mut String, c: char)
    ensures
        final(s)@ == old(s)@.push(c),
;

/// The characters of `s`, in order.
pub fn chars_of(s: &str) -> (r: Vec<char>)
    ensures
        r@ == s@,
{
    let mut r: Vec<char> = Vec::new();
    for c in it: s.chars()
        invariant
            it.seq() == s@,
            r@ == s@.take(it.index() as int),
    {
        r.push(c);
    }
    r
}

/// The text made of the characters of `cs`.
pub fn string_of(cs: &[char]) -> (r: String)
    ensures
        r@ == cs@,
{
    let mut r = String::new();
    let mut i: usize = 0;
    while i < cs.len()
        invariant
            i <= cs.len(),
            r@ == cs@.take(i as int),
        decreases cs.len() - i,
    {
        r.push(cs[i]);
        i += 1;
    }
    proof { assert(cs@.take(i as int) == cs@); }
    r
}

/// The character sequences that `v` holds.
pub open spec fn views(v: Seq<Vec<char>>) -> Seq<Seq<char>> {
    Seq::new(v.len(), |i: int| v[i]@)
}

/// The texts that `v` holds.
pub open spec fn strings(v: Seq<String>) -> Seq<Seq<char>> {
    Seq::new(v.len(), |i: int| v[i]@)
}

/// The text in `o`, if there is one.
pub open spec fn opt(o: Option<String>) -> Option<Seq<char>> {
    match o {
        Some(s) => Some(s@),
        None => None,
    }
}

/// Whether two character slices hold the same text.
pub fn same(a: &[char], b: &[char]) -> (r: bool)
    ensures
        r == (a@ == b@),
{
    if a.len() != b.len() {
        return false;
    }
    let mut i: usize = 0;
    while i < a.len()
        invariant
            i <= a.len(),
            a.len() == b.len(),
            a@.take(i as int) == b@.take(i as int),
        decreases a.len() - i,
    {
        if a[i] != b[i] {
            return false;
        }
        i += 1;
        proof {
            assert(a@.take(i as int) == a@.take(i - 1).push(a@[i - 1]));
            assert(b@.take(i as int) == b@.take(i - 1).push(b@[i - 1]));
        }
    }
    proof {
        assert(a@.take(i as int) == a@);
        assert(b@.take(i as int) == b@);
    }
    true
}

/// Whether two texts are the same.
pub fn same_text(a: &str, b: &str) -> (r: bool)
    ensures
        r == (a@ == b@),
{
    same(chars_of(a).as_slice(), chars_of(b).as_slice())
}

/// Whether one of the texts in `v` is `t`.
pub fn contains_text(v: &Vec<String>, t: &str) -> (r: bool)
    ensures
        r == strings(v@).contains(t@),
{
    let mut i: usize = 0;
    while i < v.len()
        invariant
            i <= v.len(),
            forall|k: int| 0 <= k < i ==> v[k]@ != t@,
        decreases v.len() - i,
    {
        if same_text(v[i].as_str(), t) {
            proof { assert(strings(v@)[i as int] == t@); }
            return true;
        }
        i += 1;
    }
    false
}

/// Whether `s` begins with `p`.
pub fn has_prefix(s: &[char], p: &[char]) -> (r: bool)
    ensures
        r == p@.is_prefix_of(s@),
{
    if p.len() > s.len() {
        return false;
    }
    same(&s[0..p.len()], p)
}

/// Whether `s` ends with `p`.
pub fn has_suffix(s: &[char], p: &[char]) -> (r: bool)
    ensures
        r == p@.is_suffix_of(s@),
{
    if p.len() > s.len() {
        return false;
    }
    same(&s[s.len() - p.len()..s.len()], p)
}

/// `pat` stands in `s` at `i`.
pub open spec fn occurs_at(s: Seq<char>, pat: Seq<char>, i: int) -> bool {
    0 <= i && i + pat.len() <= s.len() && s.subrange(i, i + pat.len()) == pat
}

/// `pat` stands somewhere in `s`.
pub open spec fn occurs_in(s: Seq<char>, pat: Seq<char>) -> bool {
    exists|i: int| occurs_at(s, pat, i)
}

/// The first place at or after `from` where `pat` stands in `s`.
pub open spec fn find_from(s: Seq<char>, pat: Seq<char>, from: int) -> Option<int>
    decreases s.len() - from + 1,
{
    if from < 0 || from + pat.len() > s.len() {
        None
    } else if occurs_at(s, pat, from) {
        Some(from)
    } else {
        find_from(s, pat, from + 1)
    }
}

/// The first place where `pat` stands in `s`.
pub open spec fn find(s: Seq<char>, pat: Seq<char>) -> Option<int> {
    find_from(s, pat, 0)
}

/// `find_from` finds the first occurrence, and only misses if there is none.
pub proof fn lemma_find_from(s: Seq<char>, pat: Seq<char>, from: int)
    requires
        0 <= from,
    ensures
        match find_from(s, pat, from) {
            Some(i) => from <= i && occurs_at(s, pat, i) && forall|j: int|
                from <= j < i ==> !occurs_at(s, pat, j),
            None => forall|j: int| from <= j ==> !occurs_at(s, pat, j),
        },
    decreases s.len() - from + 1,
{
    if from + pat.len() <= s.len() && !occurs_at(s, pat, from) {
        lemma_find_from(s, pat, from + 1);
    }
}

/// The place of the first occurrence of `pat` in `s`.
pub fn find_text(s: &[char], pat: &[char]) -> (r: Option<usize>)
    ensures
        match r {
            Some(i) => find(s@, pat@) == Some(i as int) && i + pat@.len() <= s@.len(),
            None => find(s@, pat@) is None,
        },
{
    if pat.len() > s.len() {
        return None;
    }
    let mut i: usize = 0;
    let last: usize = s.len() - pat.len();
    loop
        invariant
            last == s.len() - pat.len(),
            i <= last,
            find(s@, pat@) == find_from(s@, pat@, i as int),
        decreases last - i,
    {
        if same(&s[i..i + pat.len()], pat) {
            return Some(i);
        }
        if i == last {
            return None;
        }
        i += 1;
    }
}

/// Whether `pat` stands somewhere in `s`.
pub fn contains(s: &[char], pat: &[char]) -> (r: bool)
    ensures
        r == occurs_in(s@, pat@),
{
    proof { lemma_find_from(s@, pat@, 0); }
    find_text(s, pat).is_some()
}

/// The first place where `c` stands in `s`.
pub open spec fn index_of(s: Seq<char>, c: char) -> Option<int>
    decreases s.len(),
{
    if s.len() == 0 {
        None
    } else {
        match index_of(s.drop_last(), c) {
            Some(i) => Some(i),
            None => if s.last() == c { Some(s.len() - 1) } else { None },
        }
    }
}

/// The last place where `c` stands in `s`.
pub open spec fn last_index_of(s: Seq<char>, c: char) -> Option<int>
    decreases s.len(),
{
    if s.len() == 0 {
        None
    } else if s.last() == c {
        Some(s.len() - 1)
    } else {
        last_index_of(s.drop_last(), c)
    }
}

/// `index_of` is the first place and `last_index_of` the last one.
pub proof fn lemma_index_of(s: Seq<char>, c: char)
    ensures
        match index_of(s, c) {
            Some(i) => 0 <= i < s.len() && s[i] == c && forall|j: int|
                0 <= j < i ==> s[j] != c,
            None => !s.contains(c),
        },
        match last_index_of(s, c) {
            Some(i) => 0 <= i < s.len() && s[i] == c && forall|j: int|
                i < j < s.len() ==> s[j] != c,
            None => !s.contains(c),
        },
    decreases s.len(),
{
    if s.len() > 0 {
        lemma_index_of(s.drop_last(), c);
        assert forall|j: int| 0 <= j < s.len() - 1 implies s[j] == s.drop_last()[j] by {}
        if index_of(s, c) is None {
            assert forall|j: int| 0 <= j < s.len() implies s[j] != c by {
                if j < s.len() - 1 {
                    assert(s.drop_last().contains(s.drop_last()[j]));
                }
            }
        }
        if last_index_of(s, c) is None {
            assert forall|j: int| 0 <= j < s.len() implies s[j] != c by {
                if j < s.len() - 1 {
                    assert(s.drop_last().contains(s.drop_last()[j]));
                }
            }
        }
    }
}

/// The place of the first `c` in `s`.
pub fn find_char(s: &[char], c: char) -> (r: Option<usize>)
    ensures
        match r {
            Some(i) => index_of(s@, c) == Some(i as int) && i < s@.len() && s@[i as int] == c,
            None => index_of(s@, c) is None,
        },
{
    proof { lemma_index_of(s@, c); }
    let mut i: usize = 0;
    while i < s.len()
        invariant
            i <= s.len(),
            forall|j: int| 0 <= j < i ==> s@[j] != c,
            match index_of(s@, c) {
                Some(i) => 0 <= i < s@.len() && s@[i] == c && forall|j: int|
                    0 <= j < i ==> s@[j] != c,
                None => !s@.contains(c),
            },
        decreases s.len() - i,
    {
        if s[i] == c {
            return Some(i);
        }
        i += 1;
    }
    None
}

/// The place of the last `c` in `s`.
pub fn find_last_char(s: &[char], c: char) -> (r: Option<usize>)
    ensures
        match r {
            Some(i) => last_index_of(s@, c) == Some(i as int) && i < s@.len() && s@[i as int] == c,
            None => last_index_of(s@, c) is None,
        },
{
    proof { lemma_index_of(s@, c); }
    let mut i: usize = s.len();
    while i > 0
        invariant
            i <= s.len(),
            forall|j: int| i <= j < s.len() ==> s@[j] != c,
            match last_index_of(s@, c) {
                Some(i) => 0 <= i < s@.len() && s@[i] == c && forall|j: int|
                    i < j < s@.len() ==> s@[j] != c,
                None => !s@.contains(c),
            },
        decreases i,
    {
        i -= 1;
        if s[i] == c {
            return Some(i);
        }
    }
    None
}

/// The pieces of `s` between the separators `sep`; at least one.
pub open spec fn split(s: Seq<char>, sep: char) -> Seq<Seq<char>>
    decreases s.len(),
{
    if s.len() == 0 {
        seq![Seq::<char>::empty()]
    } else {
        let before = split(s.drop_last(), sep);
        if s.last() == sep {
            before.push(Seq::<char>::empty())
        } else {
            before.drop_last().push(before.last().push(s.last()))
        }
    }
}

/// The texts `parts` put one after the other, with `sep` between them.
pub open spec fn join(parts: Seq<Seq<char>>, sep: Seq<char>) -> Seq<char>
    decreases parts.len(),
{
    if parts.len() == 0 {
        Seq::<char>::empty()
    } else if parts.len() == 1 {
        parts[0]
    } else {
        join(parts.drop_last(), sep) + sep + parts.last()
    }
}

/// Splitting loses nothing but the separators: there is always a piece, none
/// of them holds a separator, and joined with it they are the text again.
pub proof fn lemma_split(s: Seq<char>, sep: char)
    ensures
        split(s, sep).len() >= 1,
        forall|i: int| 0 <= i < split(s, sep).len() ==> !(#[trigger] split(s, sep)[i]).contains(sep),
        join(split(s, sep), seq![sep]) == s,
    decreases s.len(),
{
    if s.len() == 0 {
        assert(split(s, sep)[0] == s);
    } else {
        lemma_split(s.drop_last(), sep);
        let before = split(s.drop_last(), sep);
        let now = split(s, sep);
        assert(s == s.drop_last().push(s.last()));
        if s.last() == sep {
            assert(now.drop_last() == before);
            assert(join(now, seq![sep]) == s.drop_last() + seq![sep] + Seq::<char>::empty());
            assert(s.drop_last() + seq![sep] + Seq::<char>::empty() == s);
        } else {
            assert(now.drop_last() == before.drop_last());
            let grown = before.last().push(s.last());
            assert forall|i: int| 0 <= i < now.len() implies !(#[trigger] now[i]).contains(sep) by {
                if i < now.len() - 1 {
                    assert(now[i] == before[i]);
                } else {
                    assert(!before[before.len() - 1].contains(sep));
                    assert forall|k: int| 0 <= k < grown.len() implies grown[k] != sep by {
                        if k < before.last().len() {
                            assert(before.last().contains(before.last()[k]));
                        }
                    }
                }
            }
            if before.len() == 1 {
                assert(now[0] == s);
            } else {
                let front = join(before.drop_last(), seq![sep]) + seq![sep];
                assert(front + grown == (front + before.last()).push(s.last()));
            }
        }
    }
}

/// The pieces of `s` between the separators `sep`.
pub fn split_on(s: &[char], sep: char) -> (r: Vec<Vec<char>>)
    ensures
        views(r@) == split(s@, sep),
        r@.len() >= 1,
{
    let mut done: Vec<Vec<char>> = Vec::new();
    let mut cur: Vec<char> = Vec::new();
    let mut i: usize = 0;
    proof {
        assert(views(done@).push(cur@) == split(s@.take(0), sep));
    }
    while i < s.len()
        invariant
            i <= s.len(),
            views(done@).push(cur@) == split(s@.take(i as int), sep),
        decreases s.len() - i,
    {
        let c: char = s[i];
        let ghost before = views(done@).push(cur@);
        let ghost old_done = done@;
        proof {
            assert(s@.take(i + 1).drop_last() == s@.take(i as int));
            assert(before.drop_last() == views(done@));
        }
        if c == sep {
            done.push(cur);
            cur = Vec::new();
            proof {
                assert(views(done@) == before);
            }
        } else {
            cur.push(c);
        }
        i += 1;
    }
    let ghost last = cur@;
    let ghost old_done = done@;
    done.push(cur);
    proof {
        assert(s@.take(i as int) == s@);
        assert(views(done@) == views(old_done).push(last));
    }
    done
}

/// `s` without the carriage return it ends with, if it ends with one.
pub open spec fn without_cr(s: Seq<char>) -> Seq<char> {
    if s.len() > 0 && s.last() == '\r' {
        s.drop_last()
    } else {
        s
    }
}

/// The lines of `s`. A line ends at a line feed, which a carriage return may
/// precede; what follows the last line feed is a line too unless it is empty.
pub open spec fn lines(s: Seq<char>) -> Seq<Seq<char>> {
    let parts = split(s, '\n');
    let ended = parts.drop_last().map_values(|p: Seq<char>| without_cr(p));
    if parts.last().len() == 0 {
        ended
    } else {
        ended.push(parts.last())
    }
}

/// The lines of `s`.
pub fn lines_of(s: &[char]) -> (r: Vec<Vec<char>>)
    ensures
        views(r@) == lines(s@),
{
    let parts = split_on(s, '\n');
    let ghost ps = views(parts@);
    let last: usize = parts.len() - 1;
    let mut r: Vec<Vec<char>> = Vec::new();
    let mut i: usize = 0;
    while i < last
        invariant
            i <= last,
            last == parts.len() - 1,
            ps == views(parts@),
            views(r@) == ps.take(i as int).map_values(|p: Seq<char>| without_cr(p)),
        decreases last - i,
    {
        let mut line = parts[i].clone();
        let n: usize = line.len();
        if n > 0 && line[n - 1] == '\r' {
            let _ = line.pop();
        }
        proof {
            assert(line@ == without_cr(parts[i as int]@));
            assert(ps.take(i + 1) == ps.take(i as int).push(ps[i as int]));
        }
        let ghost before = r@;
        r.push(line);
        proof { assert(views(r@) == views(before).push(line@)); }
        i += 1;
    }
    proof { assert(ps.take(i as int) == ps.drop_last()); }
    if parts[last].len() > 0 {
        let ghost before = r@;
        r.push(parts[last].clone());
        proof { assert(views(r@) == views(before).push(ps.last())); }
    }
    r
}

/// The white space of Unicode.
pub open spec fn is_white(c: char) -> bool {
    let n = c as u32;
    ||| 0x09 <= n <= 0x0d
    ||| n == 0x20
    ||| n == 0x85
    ||| n == 0xa0
    ||| n == 0x1680
    ||| 0x2000 <= n <= 0x200a
    ||| n == 0x2028
    ||| n == 0x2029
    ||| n == 0x202f
    ||| n == 0x205f
    ||| n == 0x3000
}

/// Whether `c` is white space.
pub fn white(c: char) -> (r: bool)
    ensures
        r == is_white(c),
{
    let n: u32 = c as u32;
    (n >= 0x09 && n <= 0x0d) || n == 0x20 || n == 0x85 || n == 0xa0 || n == 0x1680 || (n >= 0x2000
        && n <= 0x200a) || n == 0x2028 || n == 0x2029 || n == 0x202f || n == 0x205f || n == 0x3000
}

/// No character of `s` is white space.
pub open spec fn no_white(s: Seq<char>) -> bool {
    forall|i: int| 0 <= i < s.len() ==> !is_white(#[trigger] s[i])
}

/// The words of `s`: its longest runs of characters that are not white space.
pub open spec fn words(s: Seq<char>) -> Seq<Seq<char>>
    decreases s.len(),
{
    if s.len() == 0 {
        Seq::<Seq<char>>::empty()
    } else {
        let before = words(s.drop_last());
        if is_white(s.last()) {
            before
        } else if s.len() == 1 || is_white(s[s.len() - 2]) {
            before.push(seq![s.last()])
        } else {
            before.drop_last().push(before.last().push(s.last()))
        }
    }
}

/// A word is never empty and holds no white space; a text that does not end
/// in white space has a word.
pub proof fn lemma_words(s: Seq<char>)
    ensures
        forall|i: int|
            0 <= i < words(s).len() ==> (#[trigger] words(s)[i]).len() > 0 && no_white(words(s)[i]),
        s.len() > 0 && !is_white(s.last()) ==> words(s).len() > 0,
    decreases s.len(),
{
    if s.len() > 0 {
        lemma_words(s.drop_last());
        let before = words(s.drop_last());
        let now = words(s);
        if !is_white(s.last()) && s.len() > 1 && !is_white(s[s.len() - 2]) {
            assert(s.drop_last().last() == s[s.len() - 2]);
            assert forall|i: int| 0 <= i < now.len() implies (#[trigger] now[i]).len() > 0
                && no_white(now[i]) by {
                if i < now.len() - 1 {
                    assert(now[i] == before[i]);
                } else {
                    assert(no_white(before[i]));
                }
            }
        } else if !is_white(s.last()) {
            assert forall|i: int| 0 <= i < now.len() implies (#[trigger] now[i]).len() > 0
                && no_white(now[i]) by {
                if i < now.len() - 1 {
                    assert(now[i] == before[i]);
                }
            }
        }
    }
}

/// A text without white space is its own only word.
pub proof fn lemma_words_of_word(s: Seq<char>)
    requires
        s.len() > 0,
        no_white(s),
    ensures
        words(s) == seq![s],
    decreases s.len(),
{
    let before = words(s.drop_last());
    assert(!is_white(s[s.len() - 1]));
    if s.len() == 1 {
        assert(before.len() == 0);
        assert(s == seq![s.last()]);
        assert(before.push(seq![s.last()]) == seq![s]);
    } else {
        lemma_words_of_word(s.drop_last());
        assert(!is_white(s[s.len() - 2]));
        assert(s == s.drop_last().push(s.last()));
        assert(before.drop_last().push(before.last().push(s.last())) == seq![s]);
    }
}

/// White space ends a word: what follows it is split on its own.
pub proof fn lemma_words_concat(a: Seq<char>, w: char, b: Seq<char>)
    requires
        is_white(w),
    ensures
        words(a.push(w) + b) == words(a) + words(b),
    decreases b.len(),
{
    let s = a.push(w) + b;
    if b.len() == 0 {
        assert(s == a.push(w));
        assert(s.drop_last() == a);
        assert(words(a) + words(b) == words(a));
    } else {
        lemma_words_concat(a, w, b.drop_last());
        assert(s.drop_last() == a.push(w) + b.drop_last());
        let before = words(a) + words(b.drop_last());
        if is_white(b.last()) {
        } else if b.len() == 1 {
            assert(s[s.len() - 2] == w);
            assert(words(b.drop_last()).len() == 0);
            assert(before.push(seq![b.last()]) == words(a) + words(b));
        } else {
            assert(s[s.len() - 2] == b[b.len() - 2]);
            if is_white(b[b.len() - 2]) {
                assert(before.push(seq![b.last()]) == words(a) + words(b));
            } else {
                lemma_words(b.drop_last());
                assert(b.drop_last().last() == b[b.len() - 2]);
                assert(before.last() == words(b.drop_last()).last());
                assert(before.drop_last().push(before.last().push(b.last())) == words(a) + words(
                    b,
                ));
            }
        }
    }
}

/// The words of `s`.
pub fn words_of(s: &[char]) -> (r: Vec<Vec<char>>)
    ensures
        views(r@) == words(s@),
{
    let mut done: Vec<Vec<char>> = Vec::new();
    let mut cur: Vec<char> = Vec::new();
    let mut i: usize = 0;
    proof { assert(views(done@) == words(s@.take(0))); }
    while i < s.len()
        invariant
            i <= s.len(),
            cur@.len() == 0 ==> views(done@) == words(s@.take(i as int)) && (i == 0 || is_white(
                s@[i - 1],
            )),
            cur@.len() > 0 ==> views(done@).push(cur@) == words(s@.take(i as int)) && i > 0
                && !is_white(s@[i - 1]),
        decreases s.len() - i,
    {
        let c: char = s[i];
        let ghost before = words(s@.take(i as int));
        let ghost old_done = done@;
        let ghost old_cur = cur@;
        proof {
            assert(s@.take(i + 1).drop_last() == s@.take(i as int));
        }
        if white(c) {
            if cur.len() > 0 {
                done.push(cur);
                cur = Vec::new();
                proof { assert(views(done@) == views(old_done).push(old_cur)); }
            }
        } else {
            cur.push(c);
            proof {
                if old_cur.len() > 0 {
                    assert(before.drop_last() == views(old_done));
                    assert(before.last() == old_cur);
                } else {
                    assert(cur@ == seq![c]);
                }
            }
        }
        i += 1;
    }
    proof { assert(s@.take(i as int) == s@); }
    if cur.len() > 0 {
        let ghost old_done = done@;
        let ghost last = cur@;
        done.push(cur);
        proof { assert(views(done@) == views(old_done).push(last)); }
    }
    done
}

/// `s` without the white space it begins with.
pub open spec fn trim_start(s: Seq<char>) -> Seq<char>
    decreases s.len(),
{
    if s.len() > 0 && is_white(s[0]) {
        trim_start(s.skip(1))
    } else {
        s
    }
}

/// `s` without the white space it ends with.
pub open spec fn trim_end(s: Seq<char>) -> Seq<char>
    decreases s.len(),
{
    if s.len() > 0 && is_white(s.last()) {
        trim_end(s.drop_last())
    } else {
        s
    }
}

/// `s` without the white space at both ends.
pub open spec fn trim(s: Seq<char>) -> Seq<char> {
    trim_end(trim_start(s))
}

/// `s` without the white space at both ends.
pub fn trimmed(s: &[char]) -> (r: &[char])
    ensures
        r@ == trim(s@),
{
    let mut a: usize = 0;
    proof { assert(s@.skip(0) == s@); }
    while a < s.len() && white(s[a])
        invariant
            a <= s.len(),
            trim_start(s@) == trim_start(s@.skip(a as int)),
        decreases s.len() - a,
    {
        proof {
            assert(s@.skip(a as int).skip(1) == s@.skip(a + 1));
        }
        a += 1;
    }
    let ghost t = trim_start(s@);
    proof {
        assert(t == s@.skip(a as int));
        assert(s@.subrange(a as int, s.len() as int) == t);
    }
    let mut b: usize = s.len();
    while b > a && white(s[b - 1])
        invariant
            a <= b <= s.len(),
            trim_end(t) == trim_end(s@.subrange(a as int, b as int)),
        decreases b,
    {
        proof {
            assert(s@.subrange(a as int, b as int).drop_last() == s@.subrange(a as int, b - 1));
        }
        b -= 1;
    }
    &s[a..b]
}

/// An ASCII decimal digit.
pub open spec fn is_digit(c: char) -> bool {
    '0' <= c <= '9'
}

/// Whether `c` is an ASCII decimal digit.
pub fn digit(c: char) -> (r: bool)
    ensures
        r == is_digit(c),
{
    '0' <= c && c <= '9'
}

/// Every character of `s` is a decimal digit.
pub open spec fn all_digits(s: Seq<char>) -> bool {
    forall|i: int| 0 <= i < s.len() ==> is_digit(#[trigger] s[i])
}

/// Whether every character of `s` is a decimal digit.
pub fn digits_only(s: &[char]) -> (r: bool)
    ensures
        r == all_digits(s@),
{
    let mut i: usize = 0;
    while i < s.len()
        invariant
            i <= s.len(),
            forall|k: int| 0 <= k < i ==> is_digit(#[trigger] s@[k]),
        decreases s.len() - i,
    {
        if !digit(s[i]) {
            proof { assert(!is_digit(s@[i as int])); }
            return false;
        }
        i += 1;
    }
    true
}

/// The number that a digit stands for.
pub open spec fn digit_value(c: char) -> nat {
    (c as u32 - '0' as u32) as nat
}

/// The number that a text of decimal digits stands for.
pub open spec fn value(s: Seq<char>) -> nat
    decreases s.len(),
{
    if s.len() == 0 {
        0
    } else {
        value(s.drop_last()) * 10 + digit_value(s.last())
    }
}

/// A prefix of a number is no larger than the number.
pub proof fn lemma_value_prefix(s: Seq<char>, i: int)
    requires
        0 <= i <= s.len(),
    ensures
        value(s.take(i)) <= value(s),
    decreases s.len() - i,
{
    if i < s.len() {
        lemma_value_prefix(s, i + 1);
        assert(s.take(i + 1).drop_last() == s.take(i));
    } else {
        assert(s.take(i) == s);
    }
}

/// The digits of a number written with an optional plus sign.
pub open spec fn unsigned_digits(s: Seq<char>) -> Seq<char> {
    if s.len() > 0 && s[0] == '+' {
        s.skip(1)
    } else {
        s
    }
}

/// The number that `s` writes, at most `max`: an optional plus sign followed
/// by one or more decimal digits, and nothing else.
pub open spec fn number(s: Seq<char>, max: nat) -> Option<nat> {
    let d = unsigned_digits(s);
    if d.len() > 0 && all_digits(d) && value(d) <= max {
        Some(value(d))
    } else {
        None
    }
}

/// The `u64` that `s` writes.
pub fn parse_u64(s: &[char]) -> (r: Option<u64>)
    ensures
        match r {
            Some(n) => number(s@, u64::MAX as nat) == Some(n as nat),
            None => number(s@, u64::MAX as nat) is None,
        },
{
    let start: usize = if s.len() > 0 && s[0] == '+' {
        1
    } else {
        0
    };
    let d = &s[start..s.len()];
    proof { assert(d@ == unsigned_digits(s@)); }
    if d.len() == 0 || !digits_only(d) {
        return None;
    }
    let mut n: u64 = 0;
    let mut i: usize = 0;
    while i < d.len()
        invariant
            i <= d.len(),
            all_digits(d@),
            d@ == unsigned_digits(s@),
            n == value(d@.take(i as int)),
        decreases d.len() - i,
    {
        let c: char = d[i];
        proof {
            assert(is_digit(d@[i as int]));
            assert(d@.take(i + 1).drop_last() == d@.take(i as int));
            lemma_value_prefix(d@, i + 1);
        }
        let v: u64 = (c as u32 - '0' as u32) as u64;
        if n > u64::MAX / 10 || (n == u64::MAX / 10 && v > u64::MAX % 10) {
            return None;
        }
        n = n * 10 + v;
        i += 1;
    }
    proof { assert(d@.take(i as int) == d@); }
    Some(n)
}

/// The `u32` that `s` writes.
pub fn parse_u32(s: &[char]) -> (r: Option<u32>)
    ensures
        match r {
            Some(n) => number(s@, u32::MAX as nat) == Some(n as nat),
            None => number(s@, u32::MAX as nat) is None,
        },
{
    match parse_u64(s) {
        Some(n) => if n <= u32::MAX as u64 {
            Some(n as u32)
        } else {
            None
        },
        None => None,
    }
}

/// The digit for a number below ten.
pub open spec fn digit_char(n: nat) -> char {
    ('0' as u32 + n) as char
}

/// `n` in decimal digits, without leading zeros.
pub open spec fn decimal(n: nat) -> Seq<char>
    decreases n,
{
    if n < 10 {
        seq![digit_char(n)]
    } else {
        decimal(n / 10).push(digit_char(n % 10))
    }
}

/// What is written in decimal is read back as the same number.
pub proof fn lemma_decimal_value(n: nat)
    ensures
        decimal(n).len() > 0,
        all_digits(decimal(n)),
        value(decimal(n)) == n,
        no_white(decimal(n)),
        unsigned_digits(decimal(n)) == decimal(n),
    decreases n,
{
    if n < 10 {
        let s = decimal(n);
        assert(s.drop_last().len() == 0);
        assert(value(s.drop_last()) == 0);
        assert(s.last() == digit_char(n));
    } else {
        lemma_decimal_value(n / 10);
        let s = decimal(n);
        assert(s.drop_last() == decimal(n / 10));
        assert(s[0] == decimal(n / 10)[0]);
        assert(is_digit(s[0]));
        assert forall|i: int| 0 <= i < s.len() implies is_digit(#[trigger] s[i]) && !is_white(
            s[i],
        ) by {
            if i < s.len() - 1 {
                assert(is_digit(decimal(n / 10)[i]));
            }
        }
    }
}

/// Reading back what was written gives the number, wherever it fits.
pub proof fn lemma_decimal_number(n: nat, max: nat)
    requires
        n <= max,
    ensures
        number(decimal(n), max) == Some(n),
{
    lemma_decimal_value(n);
}

/// `n` in decimal digits.
pub fn decimal_of(n: u64) -> (r: String)
    ensures
        r@ == decimal(n as nat),
    decreases n,
{
    let c: char = ('0' as u8 + (n % 10) as u8) as char;
    if n < 10 {
        let mut r = String::new();
        r.push(c);
        proof { assert(r@ == seq![digit_char(n as nat)]); }
        r
    } else {
        let mut r = decimal_of(n / 10);
        r.push(c);
        r
    }
}

/// An ASCII capital letter as its small letter; any other character as it is.
pub open spec fn lower_char(c: char) -> char {
    if 'A' <= c <= 'Z' {
        (c as u32 + 32) as char
    } else {
        c
    }
}

/// `s` with its ASCII capital letters made small.
pub open spec fn lower(s: Seq<char>) -> Seq<char> {
    s.map_values(|c: char| lower_char(c))
}

/// `s` with its ASCII capital letters made small.
pub fn lowered(s: &[char]) -> (r: Vec<char>)
    ensures
        r@ == lower(s@),
{
    let mut r: Vec<char> = Vec::new();
    let mut i: usize = 0;
    while i < s.len()
        invariant
            i <= s.len(),
            r@ == lower(s@.take(i as int)),
        decreases s.len() - i,
    {
        let c: char = s[i];
        let l: char = if 'A' <= c && c <= 'Z' {
            (c as u8 + 32) as char
        } else {
            c
        };
        proof { assert(l == lower_char(c)); }
        r.push(l);
        i += 1;
        proof { assert(s@.take(i as int) == s@.take(i - 1).push(c)); }
    }
    proof { assert(s@.take(i as int) == s@); }
    r
}

/// A control character of Unicode.
pub open spec fn is_control(c: char) -> bool {
    let n = c as u32;
    n <= 0x1f || 0x7f <= n <= 0x9f
}

/// Whether `c` is a control character.
pub fn control(c: char) -> (r: bool)
    ensures
        r == is_control(c),
{
    let n: u32 = c as u32;
    n <= 0x1f || (n >= 0x7f && n <= 0x9f)
}

/// A text without the separator is its own only piece.
pub proof fn lemma_split_unseparated(s: Seq<char>, sep: char)
    requires
        !s.contains(sep),
    ensures
        split(s, sep) == seq![s],
    decreases s.len(),
{
    if s.len() == 0 {
        assert(s == Seq::<char>::empty());
    } else {
        assert forall|i: int| 0 <= i < s.drop_last().len() implies s.drop_last()[i] != sep by {
            assert(s.contains(s[i]));
        }
        lemma_split_unseparated(s.drop_last(), sep);
        let before = split(s.drop_last(), sep);
        assert(s.contains(s[s.len() - 1]));
        assert(s == s.drop_last().push(s.last()));
        assert(before.drop_last().push(before.last().push(s.last())) == seq![s]);
    }
}

/// A text that a line feed ends, and that holds no other, is one line.
pub proof fn lemma_one_line(s: Seq<char>)
    requires
        !s.contains('\n'),
        s.len() > 0,
        s.last() != '\r',
    ensures
        lines(s.push('\n')) == seq![s],
{
    lemma_split_unseparated(s, '\n');
    let t = s.push('\n');
    assert(t.drop_last() == s);
    let parts = split(t, '\n');
    assert(parts == seq![s].push(Seq::<char>::empty()));
    assert(parts.drop_last() == seq![s]);
    assert(parts.drop_last().map_values(|p: Seq<char>| without_cr(p)) == seq![s]);
}

/// A separator ends a piece: what follows it is split on its own.
pub proof fn lemma_split_concat(a: Seq<char>, sep: char, b: Seq<char>)
    ensures
        split(a.push(sep) + b, sep) == split(a, sep) + split(b, sep),
    decreases b.len(),
{
    let s = a.push(sep) + b;
    lemma_split(a, sep);
    if b.len() == 0 {
        assert(s == a.push(sep));
        assert(s.drop_last() == a);
        assert(split(a, sep).push(Seq::<char>::empty()) == split(a, sep) + split(b, sep));
    } else {
        lemma_split_concat(a, sep, b.drop_last());
        lemma_split(b.drop_last(), sep);
        assert(s.drop_last() == a.push(sep) + b.drop_last());
        let before = split(a, sep) + split(b.drop_last(), sep);
        if b.last() == sep {
            assert(before.push(Seq::<char>::empty()) == split(a, sep) + split(b, sep));
        } else {
            assert(before.last() == split(b.drop_last(), sep).last());
            assert(before.drop_last().push(before.last().push(b.last())) == split(a, sep) + split(
                b,
                sep,
            ));
        }
    }
}

/// Pieces that hold no separator are what splitting their join gives back.
pub proof fn lemma_split_join(parts: Seq<Seq<char>>, sep: char)
    requires
        parts.len() >= 1,
        forall|i: int| 0 <= i < parts.len() ==> !(#[trigger] parts[i]).contains(sep),
    ensures
        split(join(parts, seq![sep]), sep) == parts,
    decreases parts.len(),
{
    if parts.len() == 1 {
        lemma_split_unseparated(parts[0], sep);
        assert(parts == seq![parts[0]]);
    } else {
        let front = parts.drop_last();
        assert forall|i: int| 0 <= i < front.len() implies !(#[trigger] front[i]).contains(sep) by {
            assert(front[i] == parts[i]);
        }
        lemma_split_join(front, sep);
        lemma_split_unseparated(parts[parts.len() - 1], sep);
        let a = join(front, seq![sep]);
        assert(a + seq![sep] == a.push(sep));
        lemma_split_concat(a, sep, parts.last());
        assert(front + seq![parts.last()] == parts);
    }
}

/// A place where `pat` stands, with none before it, is the first.
pub proof fn lemma_find_is(s: Seq<char>, pat: Seq<char>, i: int)
    requires
        occurs_at(s, pat, i),
        forall|j: int| 0 <= j < i ==> !occurs_at(s, pat, j),
    ensures
        find(s, pat) == Some(i),
{
    lemma_find_from(s, pat, 0);
}

/// The place of `c` with none after it is the last.
pub proof fn lemma_last_index_is(s: Seq<char>, c: char, i: int)
    requires
        0 <= i < s.len(),
        s[i] == c,
        forall|j: int| i < j < s.len() ==> s[j] != c,
    ensures
        last_index_of(s, c) == Some(i),
{
    lemma_index_of(s, c);
}

/// Every piece of a text stands in it.
pub proof fn lemma_piece_occurs(s: Seq<char>, sep: char, piece: Seq<char>)
    requires
        split(s, sep).contains(piece),
    ensures
        occurs_in(s, piece),
{
    lemma_split(s, sep);
    let parts = split(s, sep);
    let k = choose|k: int| 0 <= k < parts.len() && parts[k] == piece;
    lemma_part_occurs(parts, seq![sep], k);
}

proof fn lemma_part_occurs(parts: Seq<Seq<char>>, sep: Seq<char>, k: int)
    requires
        0 <= k < parts.len(),
    ensures
        occurs_in(join(parts, sep), parts[k]),
    decreases parts.len(),
{
    let all = join(parts, sep);
    if parts.len() == 1 {
        assert(all.subrange(0, parts[k].len() as int) == parts[k]);
        assert(occurs_at(all, parts[k], 0));
    } else if k == parts.len() - 1 {
        let at = all.len() - parts[k].len();
        assert(all.subrange(at, at + parts[k].len()) == parts[k]);
        assert(occurs_at(all, parts[k], at));
    } else {
        lemma_part_occurs(parts.drop_last(), sep, k);
        let front = join(parts.drop_last(), sep);
        let at = choose|i: int| occurs_at(front, parts[k], i);
        assert(occurs_at(front, parts.drop_last()[k], at));
        assert(all.subrange(at, at + parts[k].len()) == front.subrange(at, at + parts[k].len()));
        assert(occurs_at(all, parts[k], at));
    }
}

} // verus!
