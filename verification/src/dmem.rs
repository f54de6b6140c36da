//! The dmem files: `dmem.capacity`, `dmem.low` and `dmem.max`.
//!
//! Each line names a memory region and its value: a number of bytes, or `max`.

use vstd::prelude::*;

use crate::text;

verus! {

/// A line of a dmem file: the region and what it is set to. Lines with fewer
/// than two words say nothing; words after the second are ignored.
pub open spec fn line_entry(line: Seq<char>) -> Option<(Seq<char>, Seq<char>)> {
    let w = text::words(line);
    if w.len() >= 2 {
        Some((w[0], w[1]))
    } else {
        None
    }
}

/// The first of `ls` that is a line for the region `key` sets it to this.
pub open spec fn entry_in(ls: Seq<Seq<char>>, key: Seq<char>) -> Option<Seq<char>>
    decreases ls.len(),
{
    if ls.len() == 0 {
        None
    } else {
        match line_entry(ls[0]) {
            Some((k, v)) => if k == key {
                Some(v)
            } else {
                entry_in(ls.skip(1), key)
            },
            None => entry_in(ls.skip(1), key),
        }
    }
}

/// What the file body `content` sets the region `key` to.
pub open spec fn entry(content: Seq<char>, key: Seq<char>) -> Option<Seq<char>> {
    entry_in(text::lines(content), key)
}

/// A line that sets the region `key` to `value` bytes.
pub open spec fn line_sets(line: Seq<char>, key: Seq<char>, value: u64) -> bool {
    match line_entry(line) {
        Some((k, v)) => k == key && text::number(v, u64::MAX as nat) == Some(value as nat),
        None => false,
    }
}

/// Some line of the file body `content` sets the region `key` to `value`.
pub open spec fn holds(content: Seq<char>, key: Seq<char>, value: u64) -> bool {
    exists|i: int|
        0 <= i < text::lines(content).len() && line_sets(#[trigger] text::lines(content)[i], key, value)
}

/// The region and value on a line.
fn read_entry(line: &[char]) -> (r: Option<(Vec<char>, Vec<char>)>)
    ensures
        match r {
            Some((k, v)) => line_entry(line@) == Some((k@, v@)),
            None => line_entry(line@) is None,
        },
{
    let mut w = text::words_of(line);
    let ghost ws = text::views(w@);
    if w.len() < 2 {
        return None;
    }
    proof {
        assert(ws[0] == w@[0]@);
        assert(ws[1] == w@[1]@);
    }
    let v = w.swap_remove(1);
    let k = w.swap_remove(0);
    Some((k, v))
}

/// What `content` (a dmem.low or dmem.max file body) sets `drm_key` to: a
/// number of bytes, or `max`. None if the region is not listed.
pub fn dmem_entry(content: &str, drm_key: &str) -> (r: Option<String>)
    ensures
        match r {
            Some(v) => entry(content@, drm_key@) == Some(v@),
            None => entry(content@, drm_key@) is None,
        },
{
    let key = text::chars_of(drm_key);
    let all = text::lines_of(text::chars_of(content).as_slice());
    let ghost ls = text::lines(content@);
    let mut i: usize = 0;
    proof { assert(ls.skip(0) == ls); }
    while i < all.len()
        invariant
            i <= all.len(),
            ls == text::lines(content@),
            text::views(all@) == ls,
            key@ == drm_key@,
            entry(content@, drm_key@) == entry_in(ls.skip(i as int), drm_key@),
        decreases all.len() - i,
    {
        proof {
            assert(ls.skip(i as int)[0] == all@[i as int]@);
            assert(ls.skip(i as int).skip(1) == ls.skip(i + 1));
        }
        match read_entry(all[i].as_slice()) {
            Some((k, v)) => {
                if text::same(k.as_slice(), key.as_slice()) {
                    return Some(text::string_of(v.as_slice()));
                }
            },
            None => {},
        }
        i += 1;
    }
    None
}

/// True if `content` (a dmem.low file body) sets `drm_key` to exactly `value`.
pub fn dmem_low_has_value(content: &str, drm_key: &str, value: u64) -> (r: bool)
    ensures
        r == holds(content@, drm_key@, value),
{
    let key = text::chars_of(drm_key);
    let all = text::lines_of(text::chars_of(content).as_slice());
    let ghost ls = text::lines(content@);
    let mut i: usize = 0;
    while i < all.len()
        invariant
            i <= all.len(),
            ls == text::lines(content@),
            text::views(all@) == ls,
            key@ == drm_key@,
            forall|k: int| 0 <= k < i ==> !line_sets(#[trigger] ls[k], drm_key@, value),
        decreases all.len() - i,
    {
        proof { assert(ls[i as int] == all@[i as int]@); }
        match read_entry(all[i].as_slice()) {
            Some((k, v)) => {
                if text::same(k.as_slice(), key.as_slice()) {
                    match text::parse_u64(v.as_slice()) {
                        Some(n) => {
                            if n == value {
                                proof { assert(line_sets(ls[i as int], drm_key@, value)); }
                                return true;
                            }
                        },
                        None => {},
                    }
                }
            },
            None => {},
        }
        i += 1;
    }
    false
}

/// A region and its size as `dmem.capacity` lists them: only graphics memory
/// (`drm/`) counts, and only if there is any.
pub open spec fn capacity_line(line: Seq<char>) -> Option<(Seq<char>, u64)> {
    match line_entry(line) {
        Some((k, v)) => match text::number(v, u64::MAX as nat) {
            Some(n) => if "drm/"@.is_prefix_of(k) && n > 0 {
                Some((k, n as u64))
            } else {
                None
            },
            None => None,
        },
        None => None,
    }
}

/// The regions and sizes on the lines `ls`, in order.
pub open spec fn capacity_in(ls: Seq<Seq<char>>) -> Seq<(Seq<char>, u64)>
    decreases ls.len(),
{
    if ls.len() == 0 {
        Seq::<(Seq<char>, u64)>::empty()
    } else {
        match capacity_line(ls.last()) {
            Some(e) => capacity_in(ls.drop_last()).push(e),
            None => capacity_in(ls.drop_last()),
        }
    }
}

/// The regions and sizes that a `dmem.capacity` body lists.
pub open spec fn capacity(content: Seq<char>) -> Seq<(Seq<char>, u64)> {
    capacity_in(text::lines(content))
}

/// The regions and sizes that `v` holds.
pub open spec fn regions(v: Seq<(String, u64)>) -> Seq<(Seq<char>, u64)> {
    Seq::new(v.len(), |i: int| (v[i].0@, v[i].1))
}

/// The graphics memory regions that a `dmem.capacity` body lists, with their
/// sizes in bytes.
pub fn parse_dmem_capacity(content: &str) -> (r: Vec<(String, u64)>)
    ensures
        regions(r@) == capacity(content@),
{
    let drm = text::chars_of("drm/");
    let all = text::lines_of(text::chars_of(content).as_slice());
    let ghost ls = text::lines(content@);
    let mut r: Vec<(String, u64)> = Vec::new();
    let mut i: usize = 0;
    proof { assert(regions(r@) == capacity_in(ls.take(0))); }
    while i < all.len()
        invariant
            i <= all.len(),
            text::views(all@) == ls,
            drm@ == "drm/"@,
            regions(r@) == capacity_in(ls.take(i as int)),
        decreases all.len() - i,
    {
        let ghost before = r@;
        proof {
            assert(ls.take(i + 1).drop_last() == ls.take(i as int));
            assert(ls.take(i + 1).last() == all@[i as int]@);
        }
        match read_entry(all[i].as_slice()) {
            Some((k, v)) => {
                match text::parse_u64(v.as_slice()) {
                    Some(n) => {
                        if text::has_prefix(k.as_slice(), drm.as_slice()) && n > 0 {
                            r.push((text::string_of(k.as_slice()), n));
                            proof { assert(regions(r@) == regions(before).push((k@, n))); }
                        }
                    },
                    None => {},
                }
            },
            None => {},
        }
        i += 1;
    }
    proof { assert(ls.take(i as int) == ls); }
    r
}

/// The largest region; of several that are equally large, the last.
pub open spec fn largest(es: Seq<(Seq<char>, u64)>) -> (Seq<char>, u64)
    recommends
        es.len() > 0,
    decreases es.len(),
{
    if es.len() <= 1 {
        es[0]
    } else {
        let m = largest(es.drop_last());
        if es.last().1 >= m.1 {
            es.last()
        } else {
            m
        }
    }
}

/// The largest region is one of those listed, and none is larger.
pub proof fn lemma_largest(es: Seq<(Seq<char>, u64)>)
    requires
        es.len() > 0,
    ensures
        es.contains(largest(es)),
        forall|i: int| 0 <= i < es.len() ==> (#[trigger] es[i]).1 <= largest(es).1,
    decreases es.len(),
{
    if es.len() == 1 {
        assert(es.contains(es[0]));
    } else {
        lemma_largest(es.drop_last());
        let m = largest(es.drop_last());
        let k = choose|k: int| 0 <= k < es.drop_last().len() && es.drop_last()[k] == m;
        assert(es[k] == m);
        assert(es.contains(es[es.len() - 1]));
        assert forall|i: int| 0 <= i < es.len() implies (#[trigger] es[i]).1 <= largest(es).1 by {
            if i < es.len() - 1 {
                assert(es[i] == es.drop_last()[i]);
            }
        }
    }
}

/// The first region named `key`.
pub open spec fn named(es: Seq<(Seq<char>, u64)>, key: Seq<char>) -> Option<(Seq<char>, u64)>
    decreases es.len(),
{
    if es.len() == 0 {
        None
    } else if es[0].0 == key {
        Some(es[0])
    } else {
        named(es.skip(1), key)
    }
}

/// The names of the regions `es`.
pub open spec fn names(es: Seq<(Seq<char>, u64)>) -> Seq<Seq<char>> {
    es.map_values(|e: (Seq<char>, u64)| e.0)
}

/// What to tell the user when `dmem.capacity` lists no graphics memory.
pub open spec fn no_regions_message() -> Seq<char> {
    "no drm entries in /sys/fs/cgroup/dmem.capacity. Is dmemcg-booster.service running?"@
}

/// What to tell the user when `DRM_KEY` names no listed region.
pub open spec fn unknown_region_message(wanted: Seq<char>, es: Seq<(Seq<char>, u64)>) -> Seq<char> {
    "DRM_KEY="@ + wanted + " is not in dmem.capacity, which lists: "@ + text::join(names(es), ", "@)
}

/// The GPU to boost, from the body of `dmem.capacity`: the largest drm entry,
/// or the one `wanted` (`DRM_KEY`) names. The error is the message to show
/// the user.
pub fn choose_gpu(content: &str, wanted: Option<&str>) -> (r: Result<(String, u64), String>)
    ensures
        ({
            let es = capacity(content@);
            match wanted {
                _ if es.len() == 0 => r matches Err(m) && m@ == no_regions_message(),
                None => r matches Ok(e) && (e.0@, e.1) == largest(es),
                Some(key) => match named(es, key@) {
                    Some(found) => r matches Ok(e) && (e.0@, e.1) == found,
                    None => r matches Err(m) && m@ == unknown_region_message(key@, es),
                },
            }
        }),
{
    let entries = parse_dmem_capacity(content);
    let ghost es = capacity(content@);
    if entries.len() == 0 {
        return Err("no drm entries in /sys/fs/cgroup/dmem.capacity. Is dmemcg-booster.service running?".to_string());
    }
    match wanted {
        Some(key) => {
            let mut i: usize = 0;
            proof { assert(es.skip(0) == es); }
            while i < entries.len()
                invariant
                    i <= entries.len(),
                    regions(entries@) == es,
                    es == capacity(content@),
                    es.len() > 0,
                    wanted == Some(key),
                    named(es, key@) == named(es.skip(i as int), key@),
                decreases entries.len() - i,
            {
                proof {
                    assert(es.skip(i as int)[0] == (entries@[i as int].0@, entries@[i as int].1));
                    assert(es.skip(i as int).skip(1) == es.skip(i + 1));
                }
                if text::same_text(entries[i].0.as_str(), key) {
                    return Ok((entries[i].0.clone(), entries[i].1));
                }
                i += 1;
            }
            let mut m = "DRM_KEY=".to_string();
            m.append(key);
            m.append(" is not in dmem.capacity, which lists: ");
            let ghost front = m@;
            let mut i: usize = 0;
            proof { assert(front + text::join(names(es).take(0), ", "@) == front); }
            while i < entries.len()
                invariant
                    i <= entries.len(),
                    regions(entries@) == es,
                    m@ == front + text::join(names(es).take(i as int), ", "@),
                decreases entries.len() - i,
            {
                let ghost known = names(es).take(i as int);
                proof {
                    assert(names(es).take(i + 1).drop_last() == known);
                    assert(names(es).take(i + 1).last() == entries@[i as int].0@);
                }
                if i > 0 {
                    m.append(", ");
                }
                m.append(entries[i].0.as_str());
                proof {
                    assert(m@ == front + text::join(names(es).take(i + 1), ", "@));
                }
                i += 1;
            }
            proof { assert(names(es).take(i as int) == names(es)); }
            Err(m)
        },
        None => {
            let mut best: usize = 0;
            let mut i: usize = 1;
            proof { assert(es.take(1)[0] == es[0]); }
            while i < entries.len()
                invariant
                    1 <= i <= entries.len(),
                    best < i,
                    regions(entries@) == es,
                    largest(es.take(i as int)) == es[best as int],
                decreases entries.len() - i,
            {
                proof {
                    assert(es.take(i + 1).drop_last() == es.take(i as int));
                }
                if entries[i].1 >= entries[best].1 {
                    best = i;
                }
                i += 1;
            }
            proof { assert(es.take(i as int) == es); }
            Ok((entries[best].0.clone(), entries[best].1))
        },
    }
}

/// The body of a write that sets the region `key` to `value`.
pub open spec fn entry_line(key: Seq<char>, value: Seq<char>) -> Seq<char> {
    (key + " "@ + value).push('\n')
}

/// The body of a write that sets the region `key` to `value`.
pub fn entry_body(key: &str, value: &str) -> (r: String)
    ensures
        r@ == entry_line(key@, value@),
{
    let mut r = key.to_string();
    r.append(" ");
    r.append(value);
    r.push('\n');
    r
}

/// What a read gives back of a write: the body that sets a region to a value
/// sets that region to that value, and says nothing of any other region.
pub proof fn read_after_write(key: Seq<char>, value: Seq<char>, other: Seq<char>)
    requires
        key.len() > 0,
        text::no_white(key),
        value.len() > 0,
        text::no_white(value),
    ensures
        entry(entry_line(key, value), other) == (if other == key {
            Some(value)
        } else {
            None
        }),
        forall|n: u64|
            holds(entry_line(key, value), other, n) <==> other == key && text::number(
                value,
                u64::MAX as nat,
            ) == Some(n as nat),
{
    reveal_strlit(" ");
    let line = key + " "@ + value;
    assert(key + " "@ == key.push(' '));
    text::lemma_words_concat(key, ' ', value);
    text::lemma_words_of_word(key);
    text::lemma_words_of_word(value);
    assert(text::words(line) == seq![key] + seq![value]);
    assert forall|i: int| 0 <= i < line.len() implies line[i] != '\n' by {
        if i < key.len() {
            assert(!text::is_white(key[i]));
        } else if i > key.len() {
            assert(!text::is_white(value[i - key.len() - 1]));
        }
    }
    assert(line.last() == value[value.len() - 1]);
    assert(!text::is_white(value[value.len() - 1]));
    text::lemma_one_line(line);
    let ls = text::lines(entry_line(key, value));
    assert(ls == seq![line]);
    assert(ls[0] == line);
    assert(line_entry(line) == Some((key, value)));
    assert(entry_in(ls.skip(1), other) is None);
    assert forall|n: u64|
        holds(entry_line(key, value), other, n) <==> other == key && text::number(
            value,
            u64::MAX as nat,
        ) == Some(n as nat) by {
        if other == key && text::number(value, u64::MAX as nat) == Some(n as nat) {
            assert(line_sets(ls[0], other, n));
        }
    }
}

/// A region that was set to a number of bytes reads back as that number and
/// as no other.
pub proof fn bytes_read_after_write(key: Seq<char>, bytes: u64, n: u64)
    requires
        key.len() > 0,
        text::no_white(key),
    ensures
        holds(entry_line(key, text::decimal(bytes as nat)), key, n) <==> n == bytes,
{
    text::lemma_decimal_value(bytes as nat);
    text::lemma_decimal_number(bytes as nat, u64::MAX as nat);
    read_after_write(key, text::decimal(bytes as nat), key);
}

/// Every region that `dmem.capacity` lists is named by a word that begins
/// with `drm/`, so what is written for it can be read back.
pub proof fn capacity_keys_are_words(content: Seq<char>)
    ensures
        forall|i: int|
            0 <= i < capacity(content).len() ==> {
                let key = (#[trigger] capacity(content)[i]).0;
                key.len() > 0 && text::no_white(key) && "drm/"@.is_prefix_of(key)
            },
        forall|i: int| 0 <= i < capacity(content).len() ==> (#[trigger] capacity(content)[i]).1 > 0,
{
    lemma_capacity_keys(text::lines(content));
}

proof fn lemma_capacity_keys(ls: Seq<Seq<char>>)
    ensures
        forall|i: int|
            0 <= i < capacity_in(ls).len() ==> {
                let key = (#[trigger] capacity_in(ls)[i]).0;
                key.len() > 0 && text::no_white(key) && "drm/"@.is_prefix_of(key)
                    && capacity_in(ls)[i].1 > 0
            },
    decreases ls.len(),
{
    if ls.len() > 0 {
        lemma_capacity_keys(ls.drop_last());
        text::lemma_words(ls.last());
        let before = capacity_in(ls.drop_last());
        let now = capacity_in(ls);
        assert forall|i: int| 0 <= i < now.len() implies {
            let key = (#[trigger] now[i]).0;
            key.len() > 0 && text::no_white(key) && "drm/"@.is_prefix_of(key) && now[i].1 > 0
        } by {
            if i < before.len() {
                assert(now[i] == before[i]);
            } else {
                assert(capacity_line(ls.last()) == Some(now[i]));
                assert(text::words(ls.last())[0] == now[i].0);
            }
        }
    }
}

/// How a write of a dmem file went.
#[derive(Clone, Copy, Debug, PartialEq, Eq, Structural)]
pub enum WriteOutcome {
    /// The value was written.
    Wrote,
    /// The cgroup has no such file.
    Missing,
    /// Waiting for the write was given up; it can still land.
    TimedOut,
    /// The write failed.
    Failed,
}

/// One write of a dmem file.
pub struct WriteJob {
    pub file: String,
    pub body: String,
    /// Open the file so that the write does not wait for memory to be evicted.
    pub nonblock: bool,
}

/// A directory that a write may go to: none that climbs out of itself.
pub open spec fn writable_dir(dir: Seq<char>) -> bool {
    !text::occurs_in(dir, ".."@)
}

/// The write that sets the file `name` of `cgroup_dir` to `value` for
/// `drm_key`. None if the directory is not one to write to.
fn job(cgroup_dir: &str, name: &str, drm_key: &str, value: &str, nonblock: bool) -> (r: Option<WriteJob>)
    ensures
        match r {
            Some(j) => {
                &&& writable_dir(cgroup_dir@)
                &&& j.file@ == cgroup_dir@ + "/"@ + name@
                &&& j.body@ == entry_line(drm_key@, value@)
                &&& j.nonblock == nonblock
            },
            None => !writable_dir(cgroup_dir@),
        },
{
    let dots = text::chars_of("..");
    if text::contains(text::chars_of(cgroup_dir).as_slice(), dots.as_slice()) {
        return None;
    }
    let mut file = cgroup_dir.to_string();
    file.append("/");
    file.append(name);
    Some(WriteJob { file, body: entry_body(drm_key, value), nonblock })
}

/// The write that sets `dmem.low` of `cgroup_dir` to `bytes` for `drm_key`.
/// None if the directory is not one to write to, which counts as missing.
pub fn low_job(cgroup_dir: &str, drm_key: &str, bytes: u64) -> (r: Option<WriteJob>)
    ensures
        match r {
            Some(j) => {
                &&& writable_dir(cgroup_dir@)
                &&& j.file@ == cgroup_dir@ + "/"@ + "dmem.low"@
                &&& j.body@ == entry_line(drm_key@, text::decimal(bytes as nat))
                &&& !j.nonblock
            },
            None => !writable_dir(cgroup_dir@),
        },
{
    job(cgroup_dir, "dmem.low", drm_key, text::decimal_of(bytes).as_str(), false)
}

/// The write that sets the dmem file `name` of `cgroup_dir` to `value` for
/// `drm_key`, without waiting for evictions. None as for [`low_job`].
pub fn value_job(cgroup_dir: &str, name: &str, drm_key: &str, value: &str) -> (r: Option<WriteJob>)
    ensures
        match r {
            Some(j) => {
                &&& writable_dir(cgroup_dir@)
                &&& j.file@ == cgroup_dir@ + "/"@ + name@
                &&& j.body@ == entry_line(drm_key@, value@)
                &&& j.nonblock
            },
            None => !writable_dir(cgroup_dir@),
        },
{
    job(cgroup_dir, name, drm_key, value, true)
}

} // verus!
