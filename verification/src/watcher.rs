//! Per-program auto-switch. The application enumerates windows and
//! processes (read-only: no injection, no hooks); the library decides which
//! programs the picker shows and, tick by tick, which bound program's preset
//! should be active.
//!
//! Priority is MOST-RECENT-LAUNCH: among all bound programs currently
//! running, the one that started most recently wins. When none are running,
//! the application reverts to the user's last manual pick.

use vstd::prelude::*;
use crate::text::{
    lowercase, same_text, lowercase_text, text_lt, text_less, chars_of, trimmed, trim_text,
    lemma_text_lt_asym, lemma_text_lt_total, lemma_text_lt_trans,
};
use crate::store::{pairs_text, opt_text};

verus! {

/// A program the user can bind a preset to, as the picker shows it: the
/// lower-cased exe basename the watcher matches on, and the friendly
/// top-level window title.
#[derive(Debug)]
pub struct WindowProc {
    pub exe: String,
    pub title: String,
}

impl Clone for WindowProc {
    fn clone(&self) -> (r: Self)
        ensures
            r == *self,
    {
        WindowProc { exe: self.exe.clone(), title: self.title.clone() }
    }
}

/// Obvious OS and background processes that the picker leaves out.
pub open spec fn is_noise_name(exe: Seq<char>) -> bool {
    ||| exe == "svchost.exe"@
    ||| exe == "runtimebroker.exe"@
    ||| exe == "dllhost.exe"@
    ||| exe == "conhost.exe"@
    ||| exe == "csrss.exe"@
    ||| exe == "wininit.exe"@
    ||| exe == "services.exe"@
    ||| exe == "smss.exe"@
    ||| exe == "lsass.exe"@
    ||| exe == "fontdrvhost.exe"@
    ||| exe == "registry"@
    ||| exe == "system"@
    ||| exe == "system idle process"@
    ||| exe == "memory compression"@
    ||| exe == "taskhostw.exe"@
    ||| exe == "sihost.exe"@
    ||| exe == "ctfmon.exe"@
    ||| exe == "searchhost.exe"@
    ||| exe == "textinputhost.exe"@
    ||| exe == "backgroundtaskhost.exe"@
    ||| exe == "applicationframehost.exe"@
    ||| exe == "wmiprvse.exe"@
    ||| exe == "spoolsv.exe"@
    ||| exe == "audiodg.exe"@
}

/// Filter obvious OS/background clutter from the user-facing program picker.
pub fn is_noise(exe: &str) -> (r: bool)
    ensures
        r == is_noise_name(exe@),
{
    same_text(exe, "svchost.exe") || same_text(exe, "runtimebroker.exe") || same_text(
        exe,
        "dllhost.exe",
    ) || same_text(exe, "conhost.exe") || same_text(exe, "csrss.exe") || same_text(
        exe,
        "wininit.exe",
    ) || same_text(exe, "services.exe") || same_text(exe, "smss.exe") || same_text(
        exe,
        "lsass.exe",
    ) || same_text(exe, "fontdrvhost.exe") || same_text(exe, "registry") || same_text(
        exe,
        "system",
    ) || same_text(exe, "system idle process") || same_text(exe, "memory compression")
        || same_text(exe, "taskhostw.exe") || same_text(exe, "sihost.exe") || same_text(
        exe,
        "ctfmon.exe",
    ) || same_text(exe, "searchhost.exe") || same_text(exe, "textinputhost.exe") || same_text(
        exe,
        "backgroundtaskhost.exe",
    ) || same_text(exe, "applicationframehost.exe") || same_text(exe, "wmiprvse.exe")
        || same_text(exe, "spoolsv.exe") || same_text(exe, "audiodg.exe")
}

/// The text after the last path separator (`\\` or `/`) of `path`.
pub open spec fn last_segment(path: Seq<char>) -> Seq<char>
    decreases path.len(),
{
    if path.len() == 0 {
        path
    } else if path.last() == '\\' || path.last() == '/' {
        Seq::empty()
    } else {
        last_segment(path.drop_last()).push(path.last())
    }
}

/// The lower-cased exe basename of a full image path: the text after the
/// last `\\` or `/`.
pub fn exe_basename(path: &str) -> (r: String)
    ensures
        r@ == lowercase(last_segment(path@)),
{
    let cs = chars_of(path);
    let mut start: usize = 0;
    let mut i: usize = 0;
    while i < cs.len()
        invariant
            cs@ == path@,
            start <= i <= cs@.len(),
            path@.subrange(start as int, i as int) == last_segment(path@.take(i as int)),
        decreases cs@.len() - i,
    {
        assert(path@.take(i + 1).drop_last() =~= path@.take(i as int));
        assert(path@.take(i + 1).last() == path@[i as int]);
        if cs[i] == '\\' || cs[i] == '/' {
            start = i + 1;
            assert(path@.subrange(start as int, i + 1) =~= Seq::<char>::empty());
        } else {
            assert(path@.subrange(start as int, i + 1) =~= path@.subrange(start as int, i as int).push(cs@[i as int]));
        }
        i = i + 1;
    }
    assert(path@.take(i as int) =~= path@);
    let seg = path.substring_char(start, cs.len());
    lowercase_text(seg)
}

/// The text of UTF-16 code units, as `String::from_utf16_lossy` decodes it:
/// a high surrogate followed by a low one is one character, any other
/// surrogate becomes U+FFFD, and every other unit is its own character.
pub open spec fn utf16_lossy(units: Seq<u16>) -> Seq<char>
    decreases units.len(),
{
    if units.len() == 0 {
        Seq::empty()
    } else if 0xD800 <= units[0] < 0xDC00 && units.len() >= 2 && 0xDC00 <= units[1] < 0xE000 {
        seq![(0x10000 + (units[0] - 0xD800) * 0x400 + (units[1] - 0xDC00)) as char] + utf16_lossy(units.skip(2))
    } else if 0xD800 <= units[0] < 0xE000 {
        seq!['\u{FFFD}'] + utf16_lossy(units.skip(1))
    } else {
        seq![units[0] as char] + utf16_lossy(units.skip(1))
    }
}

/// `String::from_utf16_lossy`: decodes the units as `utf16_lossy` states
/// (the decoding `char::decode_utf16` documents, with each unpaired
/// surrogate replaced by U+FFFD).
#[verifier::external_body]
fn decode_utf16(units: &Vec<u16>) -> (r: String)
    ensures
        r@ == utf16_lossy(units@),
{
    String::from_utf16_lossy(units.as_slice())
}

/// The code units of a NUL-terminated buffer, up to the first NUL (all of
/// them when there is none).
pub open spec fn until_nul(units: Seq<u16>) -> Seq<u16>
    decreases units.len(),
{
    if units.len() == 0 {
        units
    } else if until_nul(units.drop_last()).len() < units.len() - 1 {
        until_nul(units.drop_last())
    } else if units.last() == 0 {
        units.drop_last()
    } else {
        units
    }
}

/// The process name in a snapshot entry's NUL-terminated exe field,
/// decoded and lower-cased; none when it is empty.
pub fn process_name(exe_field: &Vec<u16>) -> (r: Option<String>)
    ensures
        ({
            let name = lowercase(utf16_lossy(until_nul(exe_field@)));
            &&& name.len() == 0 ==> r is None
            &&& name.len() > 0 ==> opt_text(r) == Some(name)
        }),
{
    let mut prefix: Vec<u16> = Vec::new();
    let mut i: usize = 0;
    let mut done = false;
    while i < exe_field.len()
        invariant
            i <= exe_field@.len(),
            !done ==> prefix@ == exe_field@.take(i as int),
            !done ==> until_nul(exe_field@.take(i as int)) == exe_field@.take(i as int),
            done ==> until_nul(exe_field@.take(i as int)) == prefix@,
            done ==> prefix@.len() < i,
        decreases exe_field@.len() - i,
    {
        assert(exe_field@.take(i + 1).drop_last() =~= exe_field@.take(i as int));
        if !done {
            if exe_field[i] == 0 {
                done = true;
            } else {
                prefix.push(exe_field[i]);
            }
        }
        i = i + 1;
    }
    assert(exe_field@.take(i as int) =~= exe_field@);
    let name = lowercase_text(decode_utf16(&prefix).as_str());
    if name.as_str().is_empty() {
        None
    } else {
        Some(name)
    }
}

/// A window title read from its text buffer: the decoded text, or none
/// when it is blank.
pub fn window_title(text: &Vec<u16>) -> (r: Option<String>)
    ensures
        trimmed(utf16_lossy(text@)).len() == 0 ==> r is None,
        trimmed(utf16_lossy(text@)).len() > 0 ==> opt_text(r) == Some(utf16_lossy(text@)),
{
    let title = decode_utf16(text);
    if trim_text(title.as_str()).is_empty() {
        None
    } else {
        Some(title)
    }
}

/// The view of a picker list: (exe, title) pairs.
pub open spec fn procs_text(v: Seq<WindowProc>) -> Seq<(Seq<char>, Seq<char>)> {
    v.map_values(|p: WindowProc| (p.exe@, p.title@))
}

/// Some entry of `ps` has the exe `exe`.
pub open spec fn lists_exe(ps: Seq<(Seq<char>, Seq<char>)>, exe: Seq<char>) -> bool {
    exists|j: int| 0 <= j < ps.len() && #[trigger] ps[j].0 == exe
}

/// The picker entries for enumerated windows, in enumeration order: each
/// window is (its program's exe if it resolved, its title); windows whose
/// exe did not resolve or is noise are dropped, and each exe is listed once,
/// with the title of its first window.
pub open spec fn picked(ws: Seq<(Option<String>, String)>) -> Seq<(Seq<char>, Seq<char>)>
    decreases ws.len(),
{
    if ws.len() == 0 {
        Seq::empty()
    } else {
        let rest = picked(ws.drop_last());
        match ws.last().0 {
            Some(e) => if !is_noise_name(e@) && !lists_exe(rest, e@) {
                rest.push((e@, ws.last().1@))
            } else {
                rest
            },
            None => rest,
        }
    }
}

/// The picker lists each program once and never a noise process.
pub proof fn lemma_picked_distinct(ws: Seq<(Option<String>, String)>)
    ensures
        forall|i: int, j: int| 0 <= i < picked(ws).len() && 0 <= j < picked(ws).len() && i != j
            ==> #[trigger] picked(ws)[i].0 != #[trigger] picked(ws)[j].0,
        forall|i: int| 0 <= i < picked(ws).len() ==> !is_noise_name(#[trigger] picked(ws)[i].0),
    decreases ws.len(),
{
    if ws.len() > 0 {
        lemma_picked_distinct(ws.drop_last());
        let rest = picked(ws.drop_last());
        let cur = picked(ws);
        if cur.len() > rest.len() {
            assert forall|i: int, j: int| 0 <= i < cur.len() && 0 <= j < cur.len() && i != j
                implies #[trigger] cur[i].0 != #[trigger] cur[j].0 by {
                if i == rest.len() {
                    assert(cur[j] == rest[j]);
                } else if j == rest.len() {
                    assert(cur[i] == rest[i]);
                } else {
                    assert(cur[i] == rest[i]);
                    assert(cur[j] == rest[j]);
                }
            }
            assert forall|i: int| 0 <= i < cur.len() implies !is_noise_name(#[trigger] cur[i].0) by {
                if i < rest.len() {
                    assert(cur[i] == rest[i]);
                }
            }
        }
    }
}

/// `x` placed into `s` just before the first entry whose lower-cased title
/// orders after `x`'s.
pub open spec fn insert_by_title(s: Seq<(Seq<char>, Seq<char>)>, x: (Seq<char>, Seq<char>)) -> Seq<(Seq<char>, Seq<char>)>
    decreases s.len(),
{
    if s.len() == 0 {
        seq![x]
    } else if text_lt(lowercase(x.1), lowercase(s[0].1)) {
        seq![x] + s
    } else {
        seq![s[0]] + insert_by_title(s.drop_first(), x)
    }
}

/// `s` stably sorted by lower-cased title (insertion sort: each entry goes
/// after every earlier entry whose key does not order after its own).
pub open spec fn sorted_by_title(s: Seq<(Seq<char>, Seq<char>)>) -> Seq<(Seq<char>, Seq<char>)>
    decreases s.len(),
{
    if s.len() == 0 {
        Seq::empty()
    } else {
        insert_by_title(sorted_by_title(s.drop_last()), s.last())
    }
}

/// Entries in order of lower-cased title: no entry's key orders before an
/// earlier entry's.
pub open spec fn title_sorted(s: Seq<(Seq<char>, Seq<char>)>) -> bool {
    forall|i: int, j: int| 0 <= i < j < s.len() ==> !text_lt(lowercase(#[trigger] s[j].1), lowercase(#[trigger] s[i].1))
}

/// A key not ordering after `b`'s, and `b`'s not ordering after `c`'s,
/// puts `a` before-or-level with `c`; `a < b <= c` gives `a < c`.
proof fn lemma_key_order(a: Seq<char>, b: Seq<char>, c: Seq<char>)
    ensures
        !text_lt(b, a) && !text_lt(c, b) ==> !text_lt(c, a),
        text_lt(a, b) && !text_lt(c, b) ==> text_lt(a, c),
{
    lemma_text_lt_total(b, c);
    lemma_text_lt_total(a, b);
    if text_lt(b, c) && text_lt(c, a) {
        lemma_text_lt_trans(b, c, a);
    }
    if text_lt(a, b) && text_lt(b, c) {
        lemma_text_lt_trans(a, b, c);
    }
    lemma_text_lt_asym(b, a);
    lemma_text_lt_asym(c, a);
}

/// Insertion keeps the entries sorted and adds exactly the new entry.
proof fn lemma_insert_by_title(s: Seq<(Seq<char>, Seq<char>)>, x: (Seq<char>, Seq<char>))
    requires
        title_sorted(s),
    ensures
        title_sorted(insert_by_title(s, x)),
        insert_by_title(s, x).to_multiset() == s.to_multiset().insert(x),
    decreases s.len(),
{
    broadcast use vstd::seq_lib::group_to_multiset_ensures, vstd::multiset::group_multiset_axioms;
    let r = insert_by_title(s, x);
    let kx = lowercase(x.1);
    if s.len() == 0 {
        assert(r =~= Seq::<(Seq<char>, Seq<char>)>::empty().push(x));
    } else if text_lt(kx, lowercase(s[0].1)) {
        assert(r =~= seq![x] + s);
        assert forall|i: int, j: int| 0 <= i < j < r.len() implies !text_lt(lowercase(#[trigger] r[j].1), lowercase(#[trigger] r[i].1)) by {
            if i == 0 {
                assert(r[j] == s[j - 1]);
                if j - 1 > 0 {
                    assert(!text_lt(lowercase(s[j - 1].1), lowercase(s[0].1)));
                }
                lemma_key_order(kx, lowercase(s[0].1), lowercase(s[j - 1].1));
                lemma_text_lt_asym(kx, lowercase(s[j - 1].1));
            } else {
                assert(r[i] == s[i - 1]);
                assert(r[j] == s[j - 1]);
            }
        }
        vstd::seq_lib::lemma_multiset_commutative(seq![x], s);
        assert(seq![x] =~= Seq::<(Seq<char>, Seq<char>)>::empty().push(x));
        assert(s.to_multiset().insert(x) =~= seq![x].to_multiset().add(s.to_multiset()));
    } else {
        let t = s.drop_first();
        assert forall|i: int, j: int| 0 <= i < j < t.len() implies !text_lt(lowercase(#[trigger] t[j].1), lowercase(#[trigger] t[i].1)) by {
            assert(t[i] == s[i + 1]);
            assert(t[j] == s[j + 1]);
        }
        lemma_insert_by_title(t, x);
        let rt = insert_by_title(t, x);
        assert(r =~= seq![s[0]] + rt);
        assert forall|y: (Seq<char>, Seq<char>)| #[trigger] rt.contains(y) implies (y == x || t.contains(y)) by {
            assert(rt.to_multiset().count(y) > 0);
        }
        assert forall|i: int, j: int| 0 <= i < j < r.len() implies !text_lt(lowercase(#[trigger] r[j].1), lowercase(#[trigger] r[i].1)) by {
            if i == 0 {
                let y = r[j];
                assert(y == rt[j - 1]);
                assert(rt.contains(y));
                if y != x {
                    let k = choose|k: int| 0 <= k < t.len() && t[k] == y;
                    assert(s[k + 1] == y);
                }
            } else {
                assert(r[i] == rt[i - 1]);
                assert(r[j] == rt[j - 1]);
            }
        }
        vstd::seq_lib::lemma_multiset_commutative(seq![s[0]], rt);
        vstd::seq_lib::lemma_multiset_commutative(seq![s[0]], t);
        assert(s =~= seq![s[0]] + t);
        assert(seq![s[0]] =~= Seq::<(Seq<char>, Seq<char>)>::empty().push(s[0]));
        assert(r.to_multiset() =~= s.to_multiset().insert(x));
    }
}

/// The picker list is sorted by lower-cased title and holds exactly the
/// picked programs (a permutation of them).
pub proof fn lemma_picker_sorted(s: Seq<(Seq<char>, Seq<char>)>)
    ensures
        title_sorted(sorted_by_title(s)),
        sorted_by_title(s).to_multiset() == s.to_multiset(),
    decreases s.len(),
{
    broadcast use vstd::seq_lib::group_to_multiset_ensures;
    if s.len() > 0 {
        lemma_picker_sorted(s.drop_last());
        lemma_insert_by_title(sorted_by_title(s.drop_last()), s.last());
        assert(s.drop_last().push(s.last()) =~= s);
    }
}

/// Picker entries paired with sort keys, position by position:
/// (exe, title, key).
pub open spec fn with_keys(ps: Seq<(Seq<char>, Seq<char>)>, ks: Seq<Seq<char>>) -> Seq<(Seq<char>, Seq<char>, Seq<char>)> {
    Seq::new(ps.len(), |i: int| (ps[i].0, ps[i].1, ks[i]))
}

/// The entries without their keys.
pub open spec fn strip_keys(s: Seq<(Seq<char>, Seq<char>, Seq<char>)>) -> Seq<(Seq<char>, Seq<char>)> {
    s.map_values(|x: (Seq<char>, Seq<char>, Seq<char>)| (x.0, x.1))
}

/// `x` placed into `s` just before the first entry whose key orders after
/// `x`'s.
pub open spec fn insert_by_key(s: Seq<(Seq<char>, Seq<char>, Seq<char>)>, x: (Seq<char>, Seq<char>, Seq<char>)) -> Seq<(Seq<char>, Seq<char>, Seq<char>)>
    decreases s.len(),
{
    if s.len() == 0 {
        seq![x]
    } else if text_lt(x.2, s[0].2) {
        seq![x] + s
    } else {
        seq![s[0]] + insert_by_key(s.drop_first(), x)
    }
}

/// `s` stably sorted by key (insertion sort: each entry goes after every
/// earlier entry whose key does not order after its own).
pub open spec fn sorted_by_key(s: Seq<(Seq<char>, Seq<char>, Seq<char>)>) -> Seq<(Seq<char>, Seq<char>, Seq<char>)>
    decreases s.len(),
{
    if s.len() == 0 {
        Seq::empty()
    } else {
        insert_by_key(sorted_by_key(s.drop_last()), s.last())
    }
}

/// Every entry's key is its lower-cased title.
pub open spec fn title_keys(s: Seq<(Seq<char>, Seq<char>, Seq<char>)>) -> bool {
    forall|i: int| 0 <= i < s.len() ==> #[trigger] s[i].2 == lowercase(s[i].1)
}

/// With each key the lower-cased title, inserting by key is inserting by
/// title.
proof fn lemma_insert_by_key_title(s: Seq<(Seq<char>, Seq<char>, Seq<char>)>, x: (Seq<char>, Seq<char>, Seq<char>))
    requires
        title_keys(s),
        x.2 == lowercase(x.1),
    ensures
        title_keys(insert_by_key(s, x)),
        strip_keys(insert_by_key(s, x)) == insert_by_title(strip_keys(s), (x.0, x.1)),
    decreases s.len(),
{
    let r = insert_by_key(s, x);
    if s.len() == 0 {
        assert(strip_keys(r) =~= seq![(x.0, x.1)]);
    } else if text_lt(x.2, s[0].2) {
        assert(strip_keys(s)[0] == (s[0].0, s[0].1));
        assert(strip_keys(r) =~= seq![(x.0, x.1)] + strip_keys(s));
        assert forall|i: int| 0 <= i < r.len() implies #[trigger] r[i].2 == lowercase(r[i].1) by {
            if i > 0 {
                assert(r[i] == s[i - 1]);
            }
        }
    } else {
        let t = s.drop_first();
        assert forall|i: int| 0 <= i < t.len() implies #[trigger] t[i].2 == lowercase(t[i].1) by {
            assert(t[i] == s[i + 1]);
        }
        lemma_insert_by_key_title(t, x);
        let rt = insert_by_key(t, x);
        assert(r =~= seq![s[0]] + rt);
        assert(strip_keys(t) =~= strip_keys(s).drop_first());
        assert(strip_keys(s)[0] == (s[0].0, s[0].1));
        assert(strip_keys(r) =~= seq![strip_keys(s)[0]] + strip_keys(rt));
        assert forall|i: int| 0 <= i < r.len() implies #[trigger] r[i].2 == lowercase(r[i].1) by {
            if i > 0 {
                assert(r[i] == rt[i - 1]);
            }
        }
    }
}

/// With each key the lower-cased title, sorting by key is sorting by title.
proof fn lemma_sorted_by_key_title(s: Seq<(Seq<char>, Seq<char>, Seq<char>)>)
    requires
        title_keys(s),
    ensures
        title_keys(sorted_by_key(s)),
        strip_keys(sorted_by_key(s)) == sorted_by_title(strip_keys(s)),
    decreases s.len(),
{
    if s.len() == 0 {
        assert(strip_keys(sorted_by_key(s)) =~= Seq::<(Seq<char>, Seq<char>)>::empty());
        assert(strip_keys(s) =~= Seq::<(Seq<char>, Seq<char>)>::empty());
    } else {
        let d = s.drop_last();
        assert forall|i: int| 0 <= i < d.len() implies #[trigger] d[i].2 == lowercase(d[i].1) by {
            assert(d[i] == s[i]);
        }
        lemma_sorted_by_key_title(d);
        lemma_insert_by_key_title(sorted_by_key(d), s.last());
        assert(strip_keys(d) =~= strip_keys(s).drop_last());
        assert(strip_keys(s).last() == (s.last().0, s.last().1));
    }
}

/// Inserting at the first position whose key orders after the new key is
/// `insert_by_key`.
proof fn lemma_insert_at(s: Seq<(Seq<char>, Seq<char>, Seq<char>)>, x: (Seq<char>, Seq<char>, Seq<char>), p: int)
    requires
        0 <= p <= s.len(),
        forall|j: int| 0 <= j < p ==> !text_lt(x.2, #[trigger] s[j].2),
        p < s.len() ==> text_lt(x.2, s[p].2),
    ensures
        s.insert(p, x) == insert_by_key(s, x),
    decreases s.len(),
{
    if s.len() == 0 {
        assert(s.insert(p, x) =~= seq![x]);
    } else if p == 0 {
        assert(s.insert(p, x) =~= seq![x] + s);
    } else {
        let t = s.drop_first();
        assert forall|j: int| 0 <= j < p - 1 implies !text_lt(x.2, #[trigger] t[j].2) by {
            assert(t[j] == s[j + 1]);
        }
        lemma_insert_at(t, x, p - 1);
        assert(s.insert(p, x) =~= seq![s[0]] + t.insert(p - 1, x));
    }
}

/// Whether some entry of `out` has the exe `exe`.
fn lists(out: &Vec<WindowProc>, exe: &str) -> (r: bool)
    ensures
        r == lists_exe(procs_text(out@), exe@),
{
    let mut i: usize = 0;
    while i < out.len()
        invariant
            i <= out@.len(),
            forall|j: int| 0 <= j < i ==> #[trigger] procs_text(out@)[j].0 != exe@,
        decreases out@.len() - i,
    {
        if same_text(out[i].exe.as_str(), exe) {
            assert(procs_text(out@)[i as int].0 == exe@);
            return true;
        }
        i = i + 1;
    }
    false
}

/// The picker list for enumerated windows: each window is given as (its
/// program's lower-cased exe basename, if it resolved; its title). Noise and
/// unresolved programs are dropped, each exe appears once (first window
/// title wins), and the list is stably sorted by lower-cased title.
pub fn list_window_programs(windows: Vec<(Option<String>, String)>) -> (r: Vec<WindowProc>)
    ensures
        procs_text(r@) == sorted_by_title(picked(windows@)),
{
    let mut out: Vec<WindowProc> = Vec::new();
    let mut i: usize = 0;
    while i < windows.len()
        invariant
            i <= windows@.len(),
            procs_text(out@) == picked(windows@.take(i as int)),
        decreases windows@.len() - i,
    {
        assert(windows@.take(i + 1).drop_last() =~= windows@.take(i as int));
        let ghost before = out@;
        match &windows[i].0 {
            Some(e) => {
                if !is_noise(e.as_str()) && !lists(&out, e.as_str()) {
                    out.push(WindowProc { exe: e.clone(), title: windows[i].1.clone() });
                    assert(procs_text(out@) =~= procs_text(before).push(
                        (e@, windows@[i as int].1@),
                    ));
                }
            },
            None => {},
        }
        i = i + 1;
    }
    assert(windows@.take(i as int) =~= windows@);
    let ghost unsorted = procs_text(out@);
    let mut keys: Vec<String> = Vec::new();
    let mut k: usize = 0;
    while k < out.len()
        invariant
            k <= out@.len(),
            keys@.len() == k,
            forall|j: int| 0 <= j < k ==> #[trigger] keys@[j]@ == lowercase(out@[j].title@),
        decreases out@.len() - k,
    {
        keys.push(lowercase_text(out[k].title.as_str()));
        k = k + 1;
    }
    proof {
        let ks = with_keys(unsorted, texts(keys@));
        assert forall|j: int| 0 <= j < ks.len() implies #[trigger] ks[j].2 == lowercase(ks[j].1) by {
            assert(keys@[j]@ == lowercase(out@[j].title@));
        }
        lemma_sorted_by_key_title(ks);
        assert(strip_keys(ks) =~= unsorted);
    }
    sort_by_keys(out, keys)
}

/// The picker entries stably sorted by the given keys, one key per entry
/// (the application passes each title lower-cased).
pub fn sort_by_keys(items: Vec<WindowProc>, keys: Vec<String>) -> (r: Vec<WindowProc>)
    requires
        items@.len() == keys@.len(),
    ensures
        procs_text(r@) == strip_keys(sorted_by_key(with_keys(procs_text(items@), texts(keys@)))),
{
    let ghost unsorted = with_keys(procs_text(items@), texts(keys@));
    let mut sorted: Vec<WindowProc> = Vec::new();
    let mut skeys: Vec<String> = Vec::new();
    let mut k: usize = 0;
    while k < items.len()
        invariant
            k <= items@.len(),
            items@.len() == keys@.len(),
            unsorted == with_keys(procs_text(items@), texts(keys@)),
            skeys@.len() == sorted@.len(),
            with_keys(procs_text(sorted@), texts(skeys@)) == sorted_by_key(unsorted.take(k as int)),
        decreases items@.len() - k,
    {
        assert(unsorted.take(k + 1).drop_last() =~= unsorted.take(k as int));
        let item = items[k].clone();
        let key = keys[k].clone();
        let mut p: usize = 0;
        while p < sorted.len() && !text_less(key.as_str(), skeys[p].as_str())
            invariant
                p <= sorted@.len(),
                skeys@.len() == sorted@.len(),
                forall|j: int| 0 <= j < p ==> !text_lt(key@, #[trigger] skeys@[j]@),
            decreases sorted@.len() - p,
        {
            p = p + 1;
        }
        let ghost before = sorted@;
        let ghost kbefore = skeys@;
        let ghost cur = with_keys(procs_text(before), texts(kbefore));
        proof {
            assert(unsorted[k as int] == (item.exe@, item.title@, key@));
            assert forall|j: int| 0 <= j < p implies !text_lt(key@, #[trigger] cur[j].2) by {
                assert(cur[j].2 == kbefore[j]@);
            }
            if p < before.len() {
                assert(cur[p as int].2 == kbefore[p as int]@);
            }
            lemma_insert_at(cur, unsorted[k as int], p as int);
        }
        sorted.insert(p, item);
        skeys.insert(p, key);
        proof {
            kbefore.insert_ensures(p as int, key);
            before.insert_ensures(p as int, item);
            let now = with_keys(procs_text(sorted@), texts(skeys@));
            let want = cur.insert(p as int, unsorted[k as int]);
            assert forall|j: int| 0 <= j < now.len() implies #[trigger] now[j] == want[j] by {
                if j < p {
                    assert(sorted@[j] == before[j]);
                    assert(skeys@[j] == kbefore[j]);
                } else if j > p {
                    assert(sorted@[j] == before[j - 1]);
                    assert(skeys@[j] == kbefore[j - 1]);
                }
            }
            assert(now =~= want);
        }
        k = k + 1;
    }
    assert(unsorted.take(k as int) =~= unsorted);
    assert(strip_keys(with_keys(procs_text(sorted@), texts(skeys@))) =~= procs_text(sorted@));
    sorted
}

/// Launch records: (exe, launch number).
pub open spec fn launch_text(v: Seq<(String, u64)>) -> Seq<(Seq<char>, u64)> {
    v.map_values(|p: (String, u64)| (p.0@, p.1))
}

/// The view of a list of strings.
pub open spec fn texts(v: Seq<String>) -> Seq<Seq<char>> {
    v.map_values(|s: String| s@)
}

/// `exe` has a launch record.
pub open spec fn launched(ls: Seq<(Seq<char>, u64)>, exe: Seq<char>) -> bool {
    exists|j: int| 0 <= j < ls.len() && #[trigger] ls[j].0 == exe
}

/// The position of `exe`'s launch record (meaningful when `launched`).
pub open spec fn launch_pos(ls: Seq<(Seq<char>, u64)>, exe: Seq<char>) -> int {
    choose|j: int| 0 <= j < ls.len() && ls[j].0 == exe
}

/// `exe` is bound to some slot.
pub open spec fn is_bound(bs: Seq<(Seq<char>, Seq<char>)>, exe: Seq<char>) -> bool {
    exists|j: int| 0 <= j < bs.len() && #[trigger] bs[j].0 == exe
}

/// The slot `exe` is bound to: the last binding of it counts, as when the
/// bindings are collected into a map.
pub open spec fn slot_for(bs: Seq<(Seq<char>, Seq<char>)>, exe: Seq<char>) -> Seq<char>
    decreases bs.len(),
{
    if bs.len() == 0 {
        Seq::empty()
    } else if bs.last().0 == exe {
        bs.last().1
    } else {
        slot_for(bs.drop_last(), exe)
    }
}

/// One bound program observed: a program seen running without a record
/// gets the next launch number; a program not running loses its record.
pub open spec fn track(ls: Seq<(Seq<char>, u64)>, counter: nat, exe: Seq<char>, up: bool) -> (Seq<(Seq<char>, u64)>, nat) {
    if up && !launched(ls, exe) {
        (ls.push((exe, (counter + 1) as u64)), counter + 1)
    } else if !up && launched(ls, exe) {
        (ls.remove(launch_pos(ls, exe)), counter)
    } else {
        (ls, counter)
    }
}

/// Every bound program observed once, in order of first binding.
pub open spec fn track_all(ls: Seq<(Seq<char>, u64)>, counter: nat, bs: Seq<(Seq<char>, Seq<char>)>, running: Seq<Seq<char>>) -> (Seq<(Seq<char>, u64)>, nat)
    decreases bs.len(),
{
    if bs.len() == 0 {
        (ls, counter)
    } else {
        let prev = track_all(ls, counter, bs.drop_last(), running);
        let exe = bs.last().0;
        if is_bound(bs.drop_last(), exe) {
            prev
        } else {
            track(prev.0, prev.1, exe, running.contains(exe))
        }
    }
}

/// The position of the bound program with the largest launch number
/// (the later record on a tie), if any bound program has a record.
pub open spec fn best(ls: Seq<(Seq<char>, u64)>, bs: Seq<(Seq<char>, Seq<char>)>) -> Option<int>
    decreases ls.len(),
{
    if ls.len() == 0 {
        None
    } else {
        let rest = best(ls.drop_last(), bs);
        let j = ls.len() - 1;
        if is_bound(bs, ls[j].0) {
            match rest {
                Some(i) => if ls[j].1 >= ls[i].1 {
                    Some(j)
                } else {
                    Some(i)
                },
                None => Some(j),
            }
        } else {
            rest
        }
    }
}

/// The slot that should be active: that of the most recently launched bound
/// program, or none.
pub open spec fn winner(ls: Seq<(Seq<char>, u64)>, bs: Seq<(Seq<char>, Seq<char>)>) -> Option<Seq<char>> {
    match best(ls, bs) {
        Some(i) => Some(slot_for(bs, ls[i].0)),
        None => None,
    }
}

/// The view of an announcement.
pub open spec fn announce_text(a: Option<Option<String>>) -> Option<Option<Seq<char>>> {
    match a {
        Some(w) => Some(opt_text(w)),
        None => None,
    }
}

/// What one poll observes: the live (exe, slot) bindings and the running
/// programs.
pub struct Poll {
    pub binds: Seq<(Seq<char>, Seq<char>)>,
    pub running: Seq<Seq<char>>,
}

/// The poll a tick is handed.
pub open spec fn poll_of(binds: Seq<(String, String)>, running: Seq<String>) -> Poll {
    Poll { binds: pairs_text(binds), running: texts(running) }
}

/// The watcher's state as a value: launch records, the last launch number
/// handed out, the slot last announced, and whether anything was announced.
pub struct WatchView {
    pub launches: Seq<(Seq<char>, u64)>,
    pub counter: nat,
    pub last: Option<Seq<char>>,
    pub announced: bool,
}

/// The state before the first poll.
pub open spec fn fresh() -> WatchView {
    WatchView { launches: Seq::empty(), counter: 0, last: None, announced: false }
}

/// The launch records and counter after a poll: with nothing bound every
/// record is dropped; otherwise each bound program is observed.
pub open spec fn observe(s: WatchView, p: Poll) -> (Seq<(Seq<char>, u64)>, nat) {
    if p.binds.len() == 0 {
        (Seq::empty(), s.counter)
    } else {
        track_all(s.launches, s.counter, p.binds, p.running)
    }
}

/// The slot that should be active after a poll.
pub open spec fn poll_winner(s: WatchView, p: Poll) -> Option<Seq<char>> {
    if p.binds.len() == 0 {
        None
    } else {
        winner(observe(s, p).0, p.binds)
    }
}

/// One poll: the next state, and what is announced (`None`: nothing).
/// The winner is announced when it differs from the last one announced, or
/// when nothing was announced yet.
pub open spec fn step(s: WatchView, p: Poll) -> (WatchView, Option<Option<Seq<char>>>) {
    let o = observe(s, p);
    let w = poll_winner(s, p);
    if s.last != w || !s.announced {
        (WatchView { launches: o.0, counter: o.1, last: w, announced: true }, Some(w))
    } else {
        (WatchView { launches: o.0, counter: o.1, last: s.last, announced: s.announced }, None)
    }
}

/// The state after a sequence of polls, starting fresh.
pub open spec fn run(polls: Seq<Poll>) -> WatchView
    decreases polls.len(),
{
    if polls.len() == 0 {
        fresh()
    } else {
        step(run(polls.drop_last()), polls.last()).0
    }
}

/// The winner computed at poll `t`.
pub open spec fn winner_at(polls: Seq<Poll>, t: int) -> Option<Seq<char>> {
    poll_winner(run(polls.take(t)), polls[t])
}

/// What poll `t` announces.
pub open spec fn announcement_at(polls: Seq<Poll>, t: int) -> Option<Option<Seq<char>>> {
    step(run(polls.take(t)), polls[t]).1
}

/// The auto-switch state carried from one tick to the next.
#[derive(Debug)]
pub struct Watcher {
    /// The last launch number handed out.
    pub counter: u64,
    /// Launch numbers of the bound programs seen running.
    pub launches: Vec<(String, u64)>,
    /// The slot last announced (`None`: the manual pick).
    pub last_winner: Option<String>,
    /// Whether anything was announced yet.
    pub announced: bool,
}

impl Watcher {
    /// Launch records name distinct programs with distinct numbers, none
    /// above the counter.
    pub open spec fn wf(&self) -> bool {
        launch_records_ok(launch_text(self.launches@), self.counter as nat)
    }

    /// The state as a value.
    pub open spec fn state(&self) -> WatchView {
        WatchView {
            launches: launch_text(self.launches@),
            counter: self.counter as nat,
            last: opt_text(self.last_winner),
            announced: self.announced,
        }
    }

    /// A watcher that has seen nothing yet.
    pub fn new() -> (w: Watcher)
        ensures
            w.wf(),
            w.state() == fresh(),
            w.counter == 0,
            w.launches@.len() == 0,
            w.last_winner is None,
            !w.announced,
    {
        let w = Watcher { counter: 0, launches: Vec::new(), last_winner: None, announced: false };
        assert(launch_text(w.launches@) =~= Seq::<(Seq<char>, u64)>::empty());
        w
    }
}

/// Launch records name distinct programs with distinct numbers in
/// `1..=counter`.
pub open spec fn launch_records_ok(ls: Seq<(Seq<char>, u64)>, counter: nat) -> bool {
    &&& forall|i: int, j: int| 0 <= i < ls.len() && 0 <= j < ls.len() && i != j
        ==> #[trigger] ls[i].0 != #[trigger] ls[j].0
    &&& forall|i: int, j: int| 0 <= i < ls.len() && 0 <= j < ls.len() && i != j
        ==> ls[i].1 != ls[j].1
    &&& forall|i: int| 0 <= i < ls.len() ==> 1 <= #[trigger] ls[i].1 <= counter
}

/// Observing one program keeps the launch records well formed.
proof fn lemma_track_ok(ls: Seq<(Seq<char>, u64)>, counter: nat, exe: Seq<char>, up: bool)
    requires
        launch_records_ok(ls, counter),
        counter < u64::MAX,
    ensures
        launch_records_ok(track(ls, counter, exe, up).0, track(ls, counter, exe, up).1),
        track(ls, counter, exe, up).1 <= counter + 1,
{
    if up && !launched(ls, exe) {
        let ns = ls.push((exe, (counter + 1) as u64));
        assert forall|i: int, j: int| 0 <= i < ns.len() && 0 <= j < ns.len() && i != j
            implies #[trigger] ns[i].0 != #[trigger] ns[j].0 by {
            if i == ls.len() {
                assert(ls[j].0 != exe);
            } else if j == ls.len() {
                assert(ls[i].0 != exe);
            }
        }
    } else if !up && launched(ls, exe) {
        let p = launch_pos(ls, exe);
        ls.remove_ensures(p);
        let ns = ls.remove(p);
        assert forall|i: int, j: int| 0 <= i < ns.len() && 0 <= j < ns.len() && i != j
            implies #[trigger] ns[i].0 != #[trigger] ns[j].0 && ns[i].1 != ns[j].1 by {
            let oi = if i < p { i } else { i + 1 };
            let oj = if j < p { j } else { j + 1 };
            assert(ns[i] == ls[oi]);
            assert(ns[j] == ls[oj]);
        }
        assert forall|i: int| 0 <= i < ns.len() implies 1 <= #[trigger] ns[i].1 <= counter by {
            let oi = if i < p { i } else { i + 1 };
            assert(ns[i] == ls[oi]);
        }
    }
}

/// The position of `exe`'s launch record.
fn launch_index(ls: &Vec<(String, u64)>, exe: &str) -> (r: Option<usize>)
    requires
        forall|i: int, j: int| 0 <= i < ls@.len() && 0 <= j < ls@.len() && i != j
            ==> #[trigger] launch_text(ls@)[i].0 != #[trigger] launch_text(ls@)[j].0,
    ensures
        r is Some <==> launched(launch_text(ls@), exe@),
        r matches Some(j) ==> j == launch_pos(launch_text(ls@), exe@) && j < ls@.len(),
{
    let ghost lt = launch_text(ls@);
    let mut i: usize = 0;
    while i < ls.len()
        invariant
            i <= ls@.len(),
            lt == launch_text(ls@),
            forall|j: int| 0 <= j < i ==> #[trigger] lt[j].0 != exe@,
            forall|a: int, b: int| 0 <= a < lt.len() && 0 <= b < lt.len() && a != b
                ==> #[trigger] lt[a].0 != #[trigger] lt[b].0,
        decreases ls@.len() - i,
    {
        if same_text(ls[i].0.as_str(), exe) {
            assert(lt[i as int].0 == exe@);
            let ghost c = launch_pos(lt, exe@);
            assert(0 <= c < lt.len() && lt[c].0 == exe@);
            assert(c == i);
            return Some(i);
        }
        i = i + 1;
    }
    None
}

/// Whether `exe` is bound among the first `upto` bindings.
fn bound_within(bs: &Vec<(String, String)>, upto: usize, exe: &str) -> (r: bool)
    requires
        upto <= bs@.len(),
    ensures
        r == is_bound(pairs_text(bs@).take(upto as int), exe@),
{
    let ghost pt = pairs_text(bs@).take(upto as int);
    let mut i: usize = 0;
    while i < upto
        invariant
            i <= upto <= bs@.len(),
            pt == pairs_text(bs@).take(upto as int),
            forall|j: int| 0 <= j < i ==> #[trigger] pt[j].0 != exe@,
        decreases upto - i,
    {
        if same_text(bs[i].0.as_str(), exe) {
            assert(pt[i as int].0 == exe@);
            return true;
        }
        i = i + 1;
    }
    false
}

/// Whether `exe` is among the running programs.
fn is_running(running: &Vec<String>, exe: &str) -> (r: bool)
    ensures
        r == texts(running@).contains(exe@),
{
    let mut i: usize = 0;
    while i < running.len()
        invariant
            i <= running@.len(),
            forall|j: int| 0 <= j < i ==> #[trigger] texts(running@)[j] != exe@,
        decreases running@.len() - i,
    {
        if same_text(running[i].as_str(), exe) {
            assert(texts(running@)[i as int] == exe@);
            return true;
        }
        i = i + 1;
    }
    false
}

/// The slot `exe` is bound to (the last binding of it).
fn bound_slot(bs: &Vec<(String, String)>, exe: &str) -> (r: String)
    ensures
        r@ == slot_for(pairs_text(bs@), exe@),
{
    let mut out = String::new();
    let mut i: usize = 0;
    while i < bs.len()
        invariant
            i <= bs@.len(),
            out@ == slot_for(pairs_text(bs@).take(i as int), exe@),
        decreases bs@.len() - i,
    {
        assert(pairs_text(bs@).take(i + 1).drop_last() =~= pairs_text(bs@).take(i as int));
        if same_text(bs[i].0.as_str(), exe) {
            out = bs[i].1.clone();
        }
        i = i + 1;
    }
    assert(pairs_text(bs@).take(i as int) =~= pairs_text(bs@));
    out
}

/// Whether two optional slots are the same.
fn same_option(a: &Option<String>, b: &Option<String>) -> (r: bool)
    ensures
        r == (opt_text(*a) == opt_text(*b)),
{
    match (a, b) {
        (Some(x), Some(y)) => same_text(x.as_str(), y.as_str()),
        (None, None) => true,
        _ => false,
    }
}

impl Watcher {
    /// Whether this tick needs a snapshot of the running programs: with
    /// nothing bound, the snapshot is skipped.
    pub fn wants_snapshot(binds: &Vec<(String, String)>) -> (r: bool)
        ensures
            r == (binds@.len() > 0),
    {
        binds.len() > 0
    }

    /// One poll of the watcher, given the live (exe, slot) bindings and the
    /// lower-cased exe basenames of the running programs (ignored when
    /// nothing is bound). Returns what to announce: `Some(Some(slot))` when
    /// a bound program becomes the most recently launched running one,
    /// `Some(None)` when the last one exits (revert to the manual pick),
    /// `None` when nothing changed. The first tick always announces. Taken
    /// as values, a tick is one `step`, over which the laws below speak.
    pub fn tick(&mut self, binds: Vec<(String, String)>, running: Vec<String>) -> (r: Option<Option<String>>)
        requires
            old(self).wf(),
            old(self).counter + binds@.len() <= u64::MAX,
        ensures
            final(self).wf(),
            final(self).state() == step(old(self).state(), poll_of(binds@, running@)).0,
            announce_text(r) == step(old(self).state(), poll_of(binds@, running@)).1,
            binds@.len() == 0 ==> {
                &&& final(self).launches@.len() == 0
                &&& final(self).counter == old(self).counter
                &&& if old(self).last_winner is Some || !old(self).announced {
                    &&& announce_text(r) == Some(None::<Seq<char>>)
                    &&& final(self).last_winner is None
                    &&& final(self).announced
                } else {
                    &&& r is None
                    &&& final(self).last_winner == old(self).last_winner
                    &&& final(self).announced == old(self).announced
                }
            },
            binds@.len() > 0 ==> {
                let bs = pairs_text(binds@);
                let after = track_all(launch_text(old(self).launches@), old(self).counter as nat, bs, texts(running@));
                let w = winner(after.0, bs);
                &&& launch_text(final(self).launches@) == after.0
                &&& final(self).counter == after.1
                &&& if opt_text(old(self).last_winner) != w || !old(self).announced {
                    &&& announce_text(r) == Some(w)
                    &&& opt_text(final(self).last_winner) == w
                    &&& final(self).announced
                } else {
                    &&& r is None
                    &&& final(self).last_winner == old(self).last_winner
                    &&& final(self).announced == old(self).announced
                }
            },
    {
        let n = binds.len();
        if n == 0 {
            self.launches = Vec::new();
            assert(launch_text(self.launches@) =~= Seq::<(Seq<char>, u64)>::empty());
            if self.last_winner.is_some() || !self.announced {
                self.announced = true;
                self.last_winner = None;
                return Some(None);
            }
            return None;
        }
        let ghost bs = pairs_text(binds@);
        let ghost rs = texts(running@);
        let ghost start = launch_text(self.launches@);
        let ghost start_counter = self.counter as nat;
        let mut i: usize = 0;
        while i < n
            invariant
                n == binds@.len(),
                i <= n,
                bs == pairs_text(binds@),
                rs == texts(running@),
                (launch_text(self.launches@), self.counter as nat) == track_all(start, start_counter, bs.take(i as int), rs),
                launch_records_ok(launch_text(self.launches@), self.counter as nat),
                self.counter <= start_counter + i,
                start_counter + n <= u64::MAX,
                self.last_winner == old(self).last_winner,
                self.announced == old(self).announced,
                start == launch_text(old(self).launches@),
                start_counter == old(self).counter,
            decreases n - i,
        {
            assert(bs.take(i + 1).drop_last() =~= bs.take(i as int));
            assert(bs.take(i + 1).last() == bs[i as int]);
            let exe = &binds[i].0;
            let ghost ls = launch_text(self.launches@);
            let ghost c = self.counter as nat;
            proof {
                lemma_track_ok(ls, c, exe@, rs.contains(exe@));
            }
            if !bound_within(&binds, i, exe.as_str()) {
                let up = is_running(&running, exe.as_str());
                let pos = launch_index(&self.launches, exe.as_str());
                if up && pos.is_none() {
                    self.counter = self.counter + 1;
                    self.launches.push((exe.clone(), self.counter));
                    assert(launch_text(self.launches@) =~= ls.push((exe@, self.counter)));
                } else if !up && pos.is_some() {
                    let j = pos.unwrap();
                    self.launches.remove(j);
                    assert(launch_text(self.launches@) =~= ls.remove(j as int));
                }
            }
            i = i + 1;
        }
        assert(bs.take(n as int) =~= bs);
        let ghost after = launch_text(self.launches@);
        let mut found: Option<usize> = None;
        let mut j: usize = 0;
        while j < self.launches.len()
            invariant
                j <= self.launches@.len(),
                n == binds@.len(),
                after == launch_text(self.launches@),
                bs == pairs_text(binds@),
                found == (match best(after.take(j as int), bs) {
                    Some(k) => Some(k as usize),
                    None => None::<usize>,
                }),
                best(after.take(j as int), bs) matches Some(k) ==> 0 <= k < j,
            decreases self.launches@.len() - j,
        {
            assert(after.take(j + 1).drop_last() =~= after.take(j as int));
            proof {
                lemma_best_prefix(after, bs, j as int);
            }
            if bound_within(&binds, n, self.launches[j].0.as_str()) {
                assert(bs.take(n as int) =~= bs);
                match found {
                    Some(b) => {
                        if self.launches[j].1 >= self.launches[b].1 {
                            found = Some(j);
                        }
                    },
                    None => {
                        found = Some(j);
                    },
                }
            } else {
                assert(bs.take(n as int) =~= bs);
            }
            j = j + 1;
        }
        assert(after.take(j as int) =~= after);
        let w: Option<String> = match found {
            Some(b) => Some(bound_slot(&binds, self.launches[b].0.as_str())),
            None => None,
        };
        assert(opt_text(w) == winner(after, bs));
        if !same_option(&w, &self.last_winner) || !self.announced {
            self.announced = true;
            let out = match &w {
                Some(x) => Some(x.clone()),
                None => None,
            };
            self.last_winner = w;
            return Some(out);
        }
        None
    }
}

/// The best position among a longer prefix relates to the shorter one as
/// `best` says, with entries taken from the prefix.
proof fn lemma_best_prefix(ls: Seq<(Seq<char>, u64)>, bs: Seq<(Seq<char>, Seq<char>)>, j: int)
    requires
        0 <= j < ls.len(),
    ensures
        ls.take(j + 1).drop_last() == ls.take(j),
        ls.take(j + 1)[j] == ls[j],
        forall|k: int| 0 <= k < j ==> #[trigger] ls.take(j + 1)[k] == ls.take(j)[k],
{
    assert(ls.take(j + 1).drop_last() =~= ls.take(j));
}

/// After observing the bound programs, a bound program has a launch
/// record exactly when it is running; every record is either an old one,
/// unchanged, or a new one numbered above the old counter; and the records
/// stay well formed.
proof fn lemma_track_all(ls: Seq<(Seq<char>, u64)>, counter: nat, bs: Seq<(Seq<char>, Seq<char>)>, running: Seq<Seq<char>>)
    requires
        launch_records_ok(ls, counter),
        counter + bs.len() <= u64::MAX,
    ensures
        launch_records_ok(track_all(ls, counter, bs, running).0, track_all(ls, counter, bs, running).1),
        counter <= track_all(ls, counter, bs, running).1 <= counter + bs.len(),
        forall|e: Seq<char>| #[trigger] is_bound(bs, e) ==> (launched(track_all(ls, counter, bs, running).0, e) <==> running.contains(e)),
        forall|e: Seq<char>| !is_bound(bs, e) ==> (#[trigger] launched(track_all(ls, counter, bs, running).0, e) <==> launched(ls, e)),
        forall|i: int| 0 <= i < track_all(ls, counter, bs, running).0.len() ==> ls.contains(#[trigger] track_all(ls, counter, bs, running).0[i]) || track_all(ls, counter, bs, running).0[i].1 > counter,
        forall|i: int| 0 <= i < track_all(ls, counter, bs, running).0.len() && #[trigger] track_all(ls, counter, bs, running).0[i].1 > counter
            ==> !launched(ls, track_all(ls, counter, bs, running).0[i].0),
    decreases bs.len(),
{
    if bs.len() > 0 {
        let pre = bs.drop_last();
        lemma_track_all(ls, counter, pre, running);
        let prev = track_all(ls, counter, pre, running);
        let exe = bs.last().0;
        let up = running.contains(exe);
        assert(forall|e: Seq<char>| is_bound(pre, e) ==> is_bound(bs, e)) by {
            assert forall|e: Seq<char>| is_bound(pre, e) implies is_bound(bs, e) by {
                let j = choose|j: int| 0 <= j < pre.len() && #[trigger] pre[j].0 == e;
                assert(bs[j] == pre[j]);
            }
        }
        assert(is_bound(bs, exe)) by {
            assert(bs[bs.len() - 1].0 == exe);
        }
        assert forall|e: Seq<char>| is_bound(bs, e) && e != exe implies is_bound(pre, e) by {
            let j = choose|j: int| 0 <= j < bs.len() && #[trigger] bs[j].0 == e;
            assert(j != bs.len() - 1);
            assert(pre[j] == bs[j]);
        }
        if !is_bound(pre, exe) {
            lemma_track_ok(prev.0, prev.1, exe, up);
            let nx = track(prev.0, prev.1, exe, up);
            let pl = prev.0;
            if up && !launched(pl, exe) {
                let ns = pl.push((exe, (prev.1 + 1) as u64));
                assert(ns == nx.0);
                assert forall|e: Seq<char>| launched(pl, e) implies #[trigger] launched(ns, e) by {
                    let j = choose|j: int| 0 <= j < pl.len() && #[trigger] pl[j].0 == e;
                    assert(ns[j] == pl[j]);
                }
                assert forall|e: Seq<char>| e != exe && #[trigger] launched(ns, e) implies launched(pl, e) by {
                    let j = choose|j: int| 0 <= j < ns.len() && #[trigger] ns[j].0 == e;
                    assert(j < pl.len());
                    assert(pl[j] == ns[j]);
                }
                assert(ns[pl.len() as int].0 == exe);
                assert forall|i: int| 0 <= i < ns.len() implies ls.contains(#[trigger] ns[i]) || ns[i].1 > counter by {
                    if i < pl.len() {
                        assert(ns[i] == pl[i]);
                    }
                }
                assert forall|i: int| 0 <= i < ns.len() && #[trigger] ns[i].1 > counter implies !launched(ls, ns[i].0) by {
                    if i < pl.len() {
                        assert(ns[i] == pl[i]);
                    }
                }
            } else if !up && launched(pl, exe) {
                let p = launch_pos(pl, exe);
                pl.remove_ensures(p);
                let ns = pl.remove(p);
                assert(ns == nx.0);
                assert forall|e: Seq<char>| #[trigger] launched(ns, e) implies launched(pl, e) && e != exe by {
                    let j = choose|j: int| 0 <= j < ns.len() && #[trigger] ns[j].0 == e;
                    let oj = if j < p { j } else { j + 1 };
                    assert(ns[j] == pl[oj]);
                    assert(oj != p);
                }
                assert forall|e: Seq<char>| e != exe && #[trigger] launched(pl, e) implies launched(ns, e) by {
                    let j = choose|j: int| 0 <= j < pl.len() && #[trigger] pl[j].0 == e;
                    assert(j != p);
                    let nj = if j < p { j } else { j - 1 };
                    assert(ns[nj] == pl[j]);
                }
                assert forall|i: int| 0 <= i < ns.len() implies ls.contains(#[trigger] ns[i]) || ns[i].1 > counter by {
                    let oi = if i < p { i } else { i + 1 };
                    assert(ns[i] == pl[oi]);
                }
                assert forall|i: int| 0 <= i < ns.len() && #[trigger] ns[i].1 > counter implies !launched(ls, ns[i].0) by {
                    let oi = if i < p { i } else { i + 1 };
                    assert(ns[i] == pl[oi]);
                }
            }
            assert forall|e: Seq<char>| !is_bound(bs, e) implies (#[trigger] launched(nx.0, e) <==> launched(ls, e)) by {
                assert(!is_bound(pre, e));
                assert(e != exe);
                assert(launched(prev.0, e) <==> launched(ls, e));
            }
        } else {
            assert forall|e: Seq<char>| !is_bound(bs, e) implies (#[trigger] launched(prev.0, e) <==> launched(ls, e)) by {
                assert(!is_bound(pre, e));
            }
        }
    }
}

/// `best` picks a bound record with a number no smaller than any other
/// bound record's, and picks nothing only when no record is bound.
proof fn lemma_best(ls: Seq<(Seq<char>, u64)>, bs: Seq<(Seq<char>, Seq<char>)>)
    ensures
        best(ls, bs) is None <==> forall|j: int| 0 <= j < ls.len() ==> !is_bound(bs, #[trigger] ls[j].0),
        best(ls, bs) matches Some(i) ==> {
            &&& 0 <= i < ls.len()
            &&& is_bound(bs, ls[i].0)
            &&& forall|j: int| 0 <= j < ls.len() && is_bound(bs, #[trigger] ls[j].0) ==> ls[j].1 <= ls[i].1
        },
    decreases ls.len(),
{
    if ls.len() > 0 {
        let dl = ls.drop_last();
        lemma_best(dl, bs);
        let last = ls.len() - 1;
        assert forall|j: int| 0 <= j < dl.len() implies #[trigger] dl[j] == ls[j] by {}
        if best(ls, bs) is None {
            assert forall|j: int| 0 <= j < ls.len() implies !is_bound(bs, #[trigger] ls[j].0) by {
                if j < last {
                    assert(dl[j] == ls[j]);
                }
            }
        } else {
            let i = best(ls, bs)->0;
            assert forall|j: int| 0 <= j < ls.len() && is_bound(bs, #[trigger] ls[j].0) implies ls[j].1 <= ls[i].1 by {
                if j < last {
                    assert(dl[j] == ls[j]);
                    assert(is_bound(bs, dl[j].0));
                }
            }
        }
    }
}

/// Most recent launch wins. After a tick with something bound: a bound
/// program has a launch record exactly when it is running; records of
/// programs that kept running keep their numbers, and a program that just
/// started gets a number above every earlier record's; the winner is the
/// slot of the running bound program with the largest number, strictly
/// larger than every other's; and there is no winner exactly when no bound
/// program is running, in which case the manual pick comes back.
pub proof fn lemma_most_recent_launch_wins(ls: Seq<(Seq<char>, u64)>, counter: nat, bs: Seq<(Seq<char>, Seq<char>)>, running: Seq<Seq<char>>)
    requires
        launch_records_ok(ls, counter),
        counter + bs.len() <= u64::MAX,
    ensures
        ({
            let after = track_all(ls, counter, bs, running).0;
            &&& forall|e: Seq<char>| #[trigger] is_bound(bs, e) ==> (launched(after, e) <==> running.contains(e))
            &&& forall|i: int| 0 <= i < after.len() ==> ls.contains(#[trigger] after[i]) || after[i].1 > counter
            &&& winner(after, bs) is None <==> forall|e: Seq<char>| #[trigger] is_bound(bs, e) ==> !running.contains(e)
            &&& winner(after, bs) matches Some(slot) ==> exists|i: int| {
                &&& 0 <= i < after.len()
                &&& is_bound(bs, #[trigger] after[i].0)
                &&& running.contains(after[i].0)
                &&& slot == slot_for(bs, after[i].0)
                &&& forall|j: int| 0 <= j < after.len() && j != i && is_bound(bs, #[trigger] after[j].0) ==> after[j].1 < after[i].1
            }
        }),
{
    lemma_track_all(ls, counter, bs, running);
    let t = track_all(ls, counter, bs, running);
    let after = t.0;
    lemma_best(after, bs);
    assert forall|j: int| 0 <= j < after.len() && is_bound(bs, #[trigger] after[j].0) implies running.contains(after[j].0) by {
        assert(launched(after, after[j].0));
    }
    if winner(after, bs) is None {
        assert forall|e: Seq<char>| #[trigger] is_bound(bs, e) implies !running.contains(e) by {
            if running.contains(e) {
                assert(launched(after, e));
                let j = choose|j: int| 0 <= j < after.len() && #[trigger] after[j].0 == e;
                assert(!is_bound(bs, after[j].0));
            }
        }
    } else {
        let i = best(after, bs)->0;
        assert(running.contains(after[i].0));
    }
}


/// The bindings summed over a sequence of polls: a bound on the launch
/// numbers handed out along it.
pub open spec fn total_binds(polls: Seq<Poll>) -> nat
    decreases polls.len(),
{
    if polls.len() == 0 {
        0
    } else {
        total_binds(polls.drop_last()) + polls.last().binds.len()
    }
}

/// At this poll `e` is bound and running.
pub open spec fn starts(p: Poll, e: Seq<char>) -> bool {
    is_bound(p.binds, e) && p.running.contains(e)
}

/// This poll does not end a launch of `e`: something is bound, and `e`
/// runs if it is bound.
pub open spec fn continues(p: Poll, e: Seq<char>) -> bool {
    p.binds.len() > 0 && (is_bound(p.binds, e) ==> p.running.contains(e))
}

/// After poll `t`, `e` is in a launch: it was seen bound and running, and no
/// poll since had nothing bound or had `e` bound and not running.
pub open spec fn has_launch(polls: Seq<Poll>, t: int, e: Seq<char>) -> bool
    decreases t + 1,
{
    if t < 0 {
        false
    } else {
        starts(polls[t], e) || (has_launch(polls, t - 1, e) && continues(polls[t], e))
    }
}

/// The poll at which `e`'s current launch was first seen.
pub open spec fn launch_poll(polls: Seq<Poll>, t: int, e: Seq<char>) -> int
    decreases t + 1,
{
    if t <= 0 {
        0
    } else if has_launch(polls, t - 1, e) && continues(polls[t], e) {
        launch_poll(polls, t - 1, e)
    } else {
        t
    }
}

/// After poll `t`, the launch records are those of the programs in a
/// launch, numbered in the order in which the launches were first seen.
pub open spec fn records_follow(polls: Seq<Poll>, t: int, ls: Seq<(Seq<char>, u64)>) -> bool {
    &&& forall|e: Seq<char>| #![trigger launched(ls, e)] #![trigger has_launch(polls, t, e)]
        launched(ls, e) <==> has_launch(polls, t, e)
    &&& forall|i: int, j: int| 0 <= i < ls.len() && 0 <= j < ls.len()
        && launch_poll(polls, t, #[trigger] ls[i].0) < launch_poll(polls, t, #[trigger] ls[j].0)
        ==> ls[i].1 < ls[j].1
}

/// A prefix of the polls counts no more bindings than all of them, and
/// one more poll adds its bindings.
proof fn lemma_total_prefix(polls: Seq<Poll>, n: int)
    requires
        0 <= n <= polls.len(),
    ensures
        total_binds(polls.take(n)) <= total_binds(polls),
        n < polls.len() ==> total_binds(polls.take(n + 1)) == total_binds(polls.take(n)) + polls[n].binds.len(),
    decreases polls.len() - n,
{
    if n == polls.len() {
        assert(polls.take(n) =~= polls);
    } else {
        assert(polls.take(n + 1).drop_last() =~= polls.take(n));
        lemma_total_prefix(polls, n + 1);
    }
}

/// The state after `n` polls is one step from the state after `n - 1`.
proof fn lemma_run_step(polls: Seq<Poll>, n: int)
    requires
        0 < n <= polls.len(),
    ensures
        run(polls.take(n)) == step(run(polls.take(n - 1)), polls[n - 1]).0,
{
    assert(polls.take(n).drop_last() =~= polls.take(n - 1));
}

/// A launch is first seen at or before the current poll.
proof fn lemma_launch_poll_range(polls: Seq<Poll>, t: int, e: Seq<char>)
    requires
        t >= 0,
    ensures
        0 <= launch_poll(polls, t, e) <= t,
    decreases t,
{
    if t > 0 {
        lemma_launch_poll_range(polls, t - 1, e);
    }
}

/// Along any sequence of polls the launch records stay well formed, the
/// counter stays within the bindings seen, and the records follow the
/// launches.
proof fn lemma_run_records(polls: Seq<Poll>, n: int)
    requires
        0 <= n <= polls.len(),
        total_binds(polls.take(n)) <= u64::MAX,
    ensures
        launch_records_ok(run(polls.take(n)).launches, run(polls.take(n)).counter),
        run(polls.take(n)).counter <= total_binds(polls.take(n)),
        records_follow(polls, n - 1, run(polls.take(n)).launches),
    decreases n,
{
    if n == 0 {
        assert(polls.take(0) =~= Seq::<Poll>::empty());
    } else {
        let t = n - 1;
        lemma_total_prefix(polls.take(n), t);
        assert(polls.take(n).take(t) =~= polls.take(t));
        assert(polls.take(n).take(t + 1) =~= polls.take(n));
        lemma_run_records(polls, t);
        lemma_run_step(polls, n);
        let prev = run(polls.take(t));
        let p = polls[t];
        let ls = prev.launches;
        let c = prev.counter;
        let after = observe(prev, p).0;
        assert(run(polls.take(n)).launches == after);
        assert(run(polls.take(n)).counter == observe(prev, p).1);
        if p.binds.len() == 0 {
            assert forall|e: Seq<char>| !has_launch(polls, t, e) by {
                assert(!is_bound(p.binds, e));
            }
        } else {
            lemma_track_all(ls, c, p.binds, p.running);
            assert forall|e: Seq<char>| launched(after, e) <==> has_launch(polls, t, e) by {
                if !is_bound(p.binds, e) {
                    assert(launched(ls, e) <==> has_launch(polls, t - 1, e));
                }
            }
            assert forall|i: int, j: int| 0 <= i < after.len() && 0 <= j < after.len()
                && launch_poll(polls, t, #[trigger] after[i].0) < launch_poll(polls, t, #[trigger] after[j].0)
                implies after[i].1 < after[j].1 by {
                let ei = after[i].0;
                let ej = after[j].0;
                assert(launched(after, ei));
                assert(launched(after, ej));
                lemma_launch_poll_range(polls, t, ei);
                lemma_launch_poll_range(polls, t, ej);
                if t > 0 {
                    lemma_launch_poll_range(polls, t - 1, ei);
                    lemma_launch_poll_range(polls, t - 1, ej);
                }
                if after[i].1 > c {
                    assert(!launched(ls, ei));
                    assert(!has_launch(polls, t - 1, ei));
                    assert(launch_poll(polls, t, ei) == t);
                } else {
                    assert(ls.contains(after[i]));
                    let ki = choose|k: int| 0 <= k < ls.len() && ls[k] == after[i];
                    assert(launched(ls, ei));
                    assert(has_launch(polls, t - 1, ei));
                    assert(continues(p, ei));
                    if after[j].1 > c {
                        assert(ls[ki].1 <= c);
                    } else {
                        assert(ls.contains(after[j]));
                        let kj = choose|k: int| 0 <= k < ls.len() && ls[k] == after[j];
                        assert(launched(ls, ej));
                        assert(has_launch(polls, t - 1, ej));
                        assert(continues(p, ej));
                        assert(launch_poll(polls, t, ei) == launch_poll(polls, t - 1, ls[ki].0));
                        assert(launch_poll(polls, t, ej) == launch_poll(polls, t - 1, ls[kj].0));
                        assert(ls[ki].1 < ls[kj].1);
                    }
                }
            }
        }
    }
}

/// Announce on change. Over any sequence of polls from a fresh start, the
/// first poll announces its winner, and every later poll announces its
/// winner exactly when it differs from the previous poll's, and otherwise
/// announces nothing. In particular, when the last running bound program
/// exits, or the last binding goes, `None` (the manual pick) is announced
/// once.
pub proof fn lemma_announces_on_change(polls: Seq<Poll>, t: int)
    requires
        0 <= t < polls.len(),
    ensures
        announcement_at(polls, t) == (if t == 0 || winner_at(polls, t) != winner_at(polls, t - 1) {
            Some(winner_at(polls, t))
        } else {
            None
        }),
{
    if t == 0 {
        assert(polls.take(0) =~= Seq::<Poll>::empty());
    } else {
        lemma_run_step(polls, t);
    }
}

/// Most recent launch wins, over a sequence of polls from a fresh start.
/// At every poll the winner is none exactly when no bound program is
/// running; otherwise it is the slot of a bound, running program whose
/// current launch was first seen no earlier than that of any other bound,
/// running program (programs first seen at the same poll tie).
pub proof fn lemma_most_recent_launch_wins_over_polls(polls: Seq<Poll>, t: int)
    requires
        0 <= t < polls.len(),
        total_binds(polls) <= u64::MAX,
    ensures
        ({
            let p = polls[t];
            &&& winner_at(polls, t) is None <==> forall|e: Seq<char>| #[trigger] is_bound(p.binds, e) ==> !p.running.contains(e)
            &&& winner_at(polls, t) matches Some(slot) ==> exists|e: Seq<char>| {
                &&& #[trigger] is_bound(p.binds, e)
                &&& p.running.contains(e)
                &&& slot == slot_for(p.binds, e)
                &&& forall|f: Seq<char>| #[trigger] is_bound(p.binds, f) && p.running.contains(f)
                    ==> launch_poll(polls, t, f) <= launch_poll(polls, t, e)
            }
        }),
{
    let p = polls[t];
    lemma_total_prefix(polls, t);
    lemma_total_prefix(polls, t + 1);
    lemma_run_records(polls, t);
    lemma_run_records(polls, t + 1);
    lemma_run_step(polls, t + 1);
    let s = run(polls.take(t));
    if p.binds.len() > 0 {
        lemma_most_recent_launch_wins(s.launches, s.counter, p.binds, p.running);
        let after = observe(s, p).0;
        assert(run(polls.take(t + 1)).launches == after);
        if winner_at(polls, t) is Some {
            let slot = winner_at(polls, t)->0;
            let i = choose|i: int| {
                &&& 0 <= i < after.len()
                &&& is_bound(p.binds, #[trigger] after[i].0)
                &&& p.running.contains(after[i].0)
                &&& slot == slot_for(p.binds, after[i].0)
                &&& forall|j: int| 0 <= j < after.len() && j != i && is_bound(p.binds, #[trigger] after[j].0) ==> after[j].1 < after[i].1
            };
            let e = after[i].0;
            assert forall|f: Seq<char>| #[trigger] is_bound(p.binds, f) && p.running.contains(f)
                implies launch_poll(polls, t, f) <= launch_poll(polls, t, e) by {
                assert(launched(after, f));
                let j = choose|j: int| 0 <= j < after.len() && #[trigger] after[j].0 == f;
                if j != i {
                    assert(after[j].1 < after[i].1);
                    if launch_poll(polls, t, e) < launch_poll(polls, t, f) {
                        assert(after[i].1 < after[j].1);
                    }
                }
            }
            assert(is_bound(p.binds, e));
        }
    }
}

/// The picker never lists an OS-noise process: no exe it lists is one of
/// the fixed noise names.
pub proof fn lemma_picker_skips_noise(ws: Seq<(Option<String>, String)>)
    ensures
        forall|i: int| 0 <= i < sorted_by_title(picked(ws)).len() ==> {
            let e = (#[trigger] sorted_by_title(picked(ws))[i]).0;
            &&& e != "svchost.exe"@
            &&& e != "runtimebroker.exe"@
            &&& e != "dllhost.exe"@
            &&& e != "conhost.exe"@
            &&& e != "csrss.exe"@
            &&& e != "wininit.exe"@
            &&& e != "services.exe"@
            &&& e != "smss.exe"@
            &&& e != "lsass.exe"@
            &&& e != "fontdrvhost.exe"@
            &&& e != "registry"@
            &&& e != "system"@
            &&& e != "system idle process"@
            &&& e != "memory compression"@
            &&& e != "taskhostw.exe"@
            &&& e != "sihost.exe"@
            &&& e != "ctfmon.exe"@
            &&& e != "searchhost.exe"@
            &&& e != "textinputhost.exe"@
            &&& e != "backgroundtaskhost.exe"@
            &&& e != "applicationframehost.exe"@
            &&& e != "wmiprvse.exe"@
            &&& e != "spoolsv.exe"@
            &&& e != "audiodg.exe"@
        },
{
    broadcast use vstd::seq_lib::group_to_multiset_ensures;
    lemma_picked_distinct(ws);
    lemma_picker_sorted(picked(ws));
    let s = sorted_by_title(picked(ws));
    let pk = picked(ws);
    assert forall|i: int| 0 <= i < s.len() implies !is_noise_name((#[trigger] s[i]).0) by {
        assert(s.contains(s[i]));
        assert(s.to_multiset().count(s[i]) > 0);
        assert(pk.to_multiset().count(s[i]) > 0);
        assert(pk.contains(s[i]));
        let k = choose|k: int| 0 <= k < pk.len() && pk[k] == s[i];
        assert(!is_noise_name(pk[k].0));
    }
}

/// The noise processes are exactly the fixed list of OS and background
/// executables: a name is noise when it is one of them, and only then.
pub proof fn lemma_noise_is_the_fixed_list(exe: Seq<char>)
    ensures
        is_noise_name(exe) <==> seq![
            "svchost.exe"@,
            "runtimebroker.exe"@,
            "dllhost.exe"@,
            "conhost.exe"@,
            "csrss.exe"@,
            "wininit.exe"@,
            "services.exe"@,
            "smss.exe"@,
            "lsass.exe"@,
            "fontdrvhost.exe"@,
            "registry"@,
            "system"@,
            "system idle process"@,
            "memory compression"@,
            "taskhostw.exe"@,
            "sihost.exe"@,
            "ctfmon.exe"@,
            "searchhost.exe"@,
            "textinputhost.exe"@,
            "backgroundtaskhost.exe"@,
            "applicationframehost.exe"@,
            "wmiprvse.exe"@,
            "spoolsv.exe"@,
            "audiodg.exe"@,
        ].contains(exe),
{
    let names: Seq<Seq<char>> = seq![
            "svchost.exe"@,
            "runtimebroker.exe"@,
            "dllhost.exe"@,
            "conhost.exe"@,
            "csrss.exe"@,
            "wininit.exe"@,
            "services.exe"@,
            "smss.exe"@,
            "lsass.exe"@,
            "fontdrvhost.exe"@,
            "registry"@,
            "system"@,
            "system idle process"@,
            "memory compression"@,
            "taskhostw.exe"@,
            "sihost.exe"@,
            "ctfmon.exe"@,
            "searchhost.exe"@,
            "textinputhost.exe"@,
            "backgroundtaskhost.exe"@,
            "applicationframehost.exe"@,
            "wmiprvse.exe"@,
            "spoolsv.exe"@,
            "audiodg.exe"@,
        ];
    if is_noise_name(exe) {
        if exe == "svchost.exe"@ { assert(names[0] == exe); }
        if exe == "runtimebroker.exe"@ { assert(names[1] == exe); }
        if exe == "dllhost.exe"@ { assert(names[2] == exe); }
        if exe == "conhost.exe"@ { assert(names[3] == exe); }
        if exe == "csrss.exe"@ { assert(names[4] == exe); }
        if exe == "wininit.exe"@ { assert(names[5] == exe); }
        if exe == "services.exe"@ { assert(names[6] == exe); }
        if exe == "smss.exe"@ { assert(names[7] == exe); }
        if exe == "lsass.exe"@ { assert(names[8] == exe); }
        if exe == "fontdrvhost.exe"@ { assert(names[9] == exe); }
        if exe == "registry"@ { assert(names[10] == exe); }
        if exe == "system"@ { assert(names[11] == exe); }
        if exe == "system idle process"@ { assert(names[12] == exe); }
        if exe == "memory compression"@ { assert(names[13] == exe); }
        if exe == "taskhostw.exe"@ { assert(names[14] == exe); }
        if exe == "sihost.exe"@ { assert(names[15] == exe); }
        if exe == "ctfmon.exe"@ { assert(names[16] == exe); }
        if exe == "searchhost.exe"@ { assert(names[17] == exe); }
        if exe == "textinputhost.exe"@ { assert(names[18] == exe); }
        if exe == "backgroundtaskhost.exe"@ { assert(names[19] == exe); }
        if exe == "applicationframehost.exe"@ { assert(names[20] == exe); }
        if exe == "wmiprvse.exe"@ { assert(names[21] == exe); }
        if exe == "spoolsv.exe"@ { assert(names[22] == exe); }
        if exe == "audiodg.exe"@ { assert(names[23] == exe); }
    }
    if names.contains(exe) {
        let k = choose|k: int| 0 <= k < names.len() && names[k] == exe;
        assert(is_noise_name(names[k]));
    }
}

} // verus!
