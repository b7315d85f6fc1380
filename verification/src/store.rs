//! The preset store: a fixed read-only "Normal" native baseline plus
//! user-created presets. User presets get stable keys `p{n}` from a
//! monotonic `next_id` (never reused), so renames change only the display
//! name and deletions never collide.
//!
//! Reading and writing the store's JSON file is the application's part; the
//! store's rules live here.

use vstd::prelude::*;
use crate::gamma::{ColorDials, neutral_dials};
use crate::text::{decimal, decimal_text, lemma_decimal_injective, fails_with, lowercase, trimmed, same_text, trim_text, lowercase_text};
use crate::scale::{VibranceScale, legacy_scale};

verus! {

/// One preset: a display name, colour dials and a vibrance level, and
/// optionally the program it is bound to.
#[derive(Debug)]
pub struct Preset {
    /// The stable key: "Normal" or `p{n}`.
    pub slot: String,
    pub name: String,
    pub dials: ColorDials,
    /// Level in the machine's own driver-reported vibrance scale.
    pub vibrance: i32,
    /// Bound program: a lower-cased exe basename (e.g. "cs2.exe"); `None` =
    /// unbound.
    pub exe: Option<String>,
}

impl Clone for Preset {
    fn clone(&self) -> (r: Self)
        ensures
            r == *self,
    {
        let exe = match &self.exe {
            Some(e) => Some(e.clone()),
            None => None,
        };
        Preset {
            slot: self.slot.clone(),
            name: self.name.clone(),
            dials: self.dials,
            vibrance: self.vibrance,
            exe,
        }
    }
}

/// The preset store as it is persisted.
#[derive(Debug)]
pub struct PresetStore {
    pub presets: Vec<Preset>,
    /// The slot currently applied.
    pub active: String,
    /// The number for the next user preset key.
    pub next_id: u32,
    /// Launch at login.
    pub autostart: bool,
    /// Global hotkeys enabled.
    pub hotkeys: bool,
}

impl Clone for PresetStore {
    fn clone(&self) -> (r: Self)
        ensures
            r.presets@ == self.presets@,
            r.active == self.active,
            r.next_id == self.next_id,
            r.autostart == self.autostart,
            r.hotkeys == self.hotkeys,
    {
        let presets = self.presets.clone();
        assert(presets@ =~= self.presets@);
        PresetStore {
            presets,
            active: self.active.clone(),
            next_id: self.next_id,
            autostart: self.autostart,
            hotkeys: self.hotkeys,
        }
    }
}

/// The slot name of the fixed baseline.
pub open spec fn is_normal(slot: Seq<char>) -> bool {
    slot == "Normal"@
}

/// The key of the `n`-th user preset: `p` followed by `n` in decimal.
pub open spec fn slot_key(n: nat) -> Seq<char> {
    seq!['p'] + decimal(n)
}

/// Some preset has the slot `slot`.
pub open spec fn has_slot(ps: Seq<Preset>, slot: Seq<char>) -> bool {
    exists|i: int| 0 <= i < ps.len() && #[trigger] ps[i].slot@ == slot
}

/// `i` is the first position holding the slot `slot`.
pub open spec fn is_first_slot(ps: Seq<Preset>, slot: Seq<char>, i: int) -> bool {
    &&& 0 <= i < ps.len()
    &&& ps[i].slot@ == slot
    &&& forall|j: int| 0 <= j < i ==> #[trigger] ps[j].slot@ != slot
}

/// The first position holding the slot `slot` (meaningful when `has_slot`).
pub open spec fn slot_position(ps: Seq<Preset>, slot: Seq<char>) -> int {
    choose|i: int| is_first_slot(ps, slot, i)
}

/// A slot that some preset holds has a first position, which
/// `slot_position` names.
pub proof fn lemma_first_slot(ps: Seq<Preset>, slot: Seq<char>)
    requires
        has_slot(ps, slot),
    ensures
        is_first_slot(ps, slot, slot_position(ps, slot)),
    decreases ps.len(),
{
    let dl = ps.drop_last();
    if has_slot(dl, slot) {
        lemma_first_slot(dl, slot);
        let i = slot_position(dl, slot);
        assert(is_first_slot(ps, slot, i)) by {
            assert forall|j: int| 0 <= j < i implies #[trigger] ps[j].slot@ != slot by {
                assert(ps[j] == dl[j]);
            }
            assert(ps[i] == dl[i]);
        }
    } else {
        let i = ps.len() - 1;
        assert(is_first_slot(ps, slot, i)) by {
            assert forall|j: int| 0 <= j < i implies #[trigger] ps[j].slot@ != slot by {
                assert(ps[j] == dl[j]);
            }
            let w = choose|w: int| 0 <= w < ps.len() && #[trigger] ps[w].slot@ == slot;
            if w < i {
                assert(dl[w] == ps[w]);
            }
        }
    }
}

/// No two presets share a slot.
pub open spec fn distinct_slots(ps: Seq<Preset>) -> bool {
    forall|i: int, j: int|
        0 <= i < ps.len() && 0 <= j < ps.len() && i != j ==> #[trigger] ps[i].slot@
            != #[trigger] ps[j].slot@
}

/// The display name a new preset gets: the trimmed request, or
/// "Preset {count}" when that is empty.
pub open spec fn display_name(requested: Seq<char>, count: nat) -> Seq<char> {
    if trimmed(requested).len() == 0 {
        "Preset "@ + decimal(count)
    } else {
        trimmed(requested)
    }
}

/// The view of an optional string.
pub open spec fn opt_text(o: Option<String>) -> Option<Seq<char>> {
    match o {
        Some(s) => Some(s@),
        None => None,
    }
}

/// `p` is the fresh preset that `add` creates as the `count`-th preset with
/// key number `id` for the requested name.
pub open spec fn is_fresh_preset(p: Preset, requested: Seq<char>, count: nat, id: nat) -> bool {
    &&& p.slot@ == slot_key(id)
    &&& p.name@ == display_name(requested, count)
    &&& p.dials == neutral_dials()
    &&& p.vibrance == 0
    &&& p.exe is None
}

/// The presets that are left when every preset with the slot `slot` is
/// removed.
pub open spec fn without_slot(ps: Seq<Preset>, slot: Seq<char>) -> Seq<Preset> {
    ps.filter(|p: Preset| p.slot@ != slot)
}

/// The user presets: every preset except the "Normal" baseline.
pub open spec fn user_presets_of(ps: Seq<Preset>) -> Seq<Preset> {
    ps.filter(|p: Preset| !is_normal(p.slot@))
}

/// Two stores hold the same presets and settings.
pub open spec fn same_store(a: PresetStore, b: PresetStore) -> bool {
    &&& a.presets@ == b.presets@
    &&& a.active == b.active
    &&& a.next_id == b.next_id
    &&& a.autostart == b.autostart
    &&& a.hotkeys == b.hotkeys
}

/// Two stores have the same settings (active slot, counter, toggles).
pub open spec fn same_settings(a: PresetStore, b: PresetStore) -> bool {
    &&& a.active == b.active
    &&& a.next_id == b.next_id
    &&& a.autostart == b.autostart
    &&& a.hotkeys == b.hotkeys
}

/// Two stores have the same active slot and toggles.
pub open spec fn same_settings_but_counter(a: PresetStore, b: PresetStore) -> bool {
    &&& a.active == b.active
    &&& a.autostart == b.autostart
    &&& a.hotkeys == b.hotkeys
}

/// `b` is `a` with only its display name changed, to `name`.
pub open spec fn renamed(a: Preset, b: Preset, name: Seq<char>) -> bool {
    &&& b.slot == a.slot
    &&& b.name@ == name
    &&& b.dials == a.dials
    &&& b.vibrance == a.vibrance
    &&& b.exe == a.exe
}

/// The binding key for a requested program: trimmed and lower-cased, and
/// no key at all when that leaves nothing.
pub open spec fn binding_key(exe: Option<Seq<char>>) -> Option<Seq<char>> {
    match exe {
        Some(e) => if lowercase(trimmed(e)).len() == 0 {
            None
        } else {
            Some(lowercase(trimmed(e)))
        },
        None => None,
    }
}

/// The binding a preset has after binding `key` to `slot`: the bound preset
/// gets the key; any other preset bound to that key loses its binding.
pub open spec fn binding_after(p: Preset, slot: Seq<char>, key: Option<Seq<char>>, target: bool) -> Option<Seq<char>> {
    if target {
        key
    } else if key is Some && p.slot@ != slot && opt_text(p.exe) == key {
        None
    } else {
        opt_text(p.exe)
    }
}

/// `b` is `a` with only its binding changed as `binding_after` says.
pub open spec fn rebound(a: Preset, b: Preset, slot: Seq<char>, key: Option<Seq<char>>, target: bool) -> bool {
    &&& b.slot == a.slot
    &&& b.name == a.name
    &&& b.dials == a.dials
    &&& b.vibrance == a.vibrance
    &&& opt_text(b.exe) == binding_after(a, slot, key, target)
}

/// The (exe, slot) pairs of the bound presets, in rail order, each exe
/// lower-cased.
pub open spec fn binding_pairs(ps: Seq<Preset>) -> Seq<(Seq<char>, Seq<char>)>
    decreases ps.len(),
{
    if ps.len() == 0 {
        Seq::empty()
    } else {
        let rest = binding_pairs(ps.drop_last());
        match ps.last().exe {
            Some(e) => rest.push((lowercase(e@), ps.last().slot@)),
            None => rest,
        }
    }
}

/// The view of a list of string pairs.
pub open spec fn pairs_text(v: Seq<(String, String)>) -> Seq<(Seq<char>, Seq<char>)> {
    v.map_values(|p: (String, String)| (p.0@, p.1@))
}

/// The preset "Normal": neutral dials, vibrance 0, unbound.
pub open spec fn is_normal_preset(p: Preset) -> bool {
    &&& p.slot@ == "Normal"@
    &&& p.name@ == "Normal"@
    &&& p.dials == neutral_dials()
    &&& p.vibrance == 0
    &&& p.exe is None
}

/// The fixed "Normal" baseline preset.
pub fn normal_preset() -> (p: Preset)
    ensures
        is_normal_preset(p),
{
    Preset {
        slot: "Normal".to_owned(),
        name: "Normal".to_owned(),
        dials: ColorDials::default(),
        vibrance: 0,
        exe: None,
    }
}

/// The `next_id` a store file without one starts from.
pub fn default_next_id() -> (r: u32)
    ensures
        r == 1,
{
    1
}

/// The value of a toggle a store file does not mention.
pub fn default_true() -> (r: bool)
    ensures
        r,
{
    true
}

/// No two of `ps` share a slot, and none holds a key `p{k}` with
/// `k >= next`.
pub open spec fn keys_stable_for(ps: Seq<Preset>, next: nat) -> bool {
    &&& distinct_slots(ps)
    &&& forall|i: int, k: nat|
        #![trigger ps[i], slot_key(k)]
        0 <= i < ps.len() && k >= next ==> ps[i].slot@ != slot_key(k)
}

/// Different key numbers give different keys.
pub proof fn lemma_slot_key_injective(a: nat, b: nat)
    requires
        slot_key(a) == slot_key(b),
    ensures
        a == b,
{
    assert(slot_key(a).subrange(1, slot_key(a).len() as int) =~= decimal(a));
    assert(slot_key(b).subrange(1, slot_key(b).len() as int) =~= decimal(b));
    lemma_decimal_injective(a, b);
}

/// Appending a preset with the counter's current key, and advancing the
/// counter, keeps the keys stable.
proof fn lemma_push_fresh(ps: Seq<Preset>, next: nat, p: Preset)
    requires
        keys_stable_for(ps, next),
        p.slot@ == slot_key(next),
    ensures
        keys_stable_for(ps.push(p), next + 1),
{
    let qs = ps.push(p);
    assert forall|i: int, j: int|
        0 <= i < qs.len() && 0 <= j < qs.len() && i != j implies #[trigger] qs[i].slot@
        != #[trigger] qs[j].slot@ by {
        if i == ps.len() {
            assert(ps[j].slot@ != slot_key(next));
        } else if j == ps.len() {
            assert(ps[i].slot@ != slot_key(next));
        }
    }
    assert forall|i: int, k: nat|
        #![trigger qs[i], slot_key(k)]
        0 <= i < qs.len() && k >= next + 1 implies qs[i].slot@ != slot_key(k) by {
        if i == ps.len() {
            if slot_key(next) == slot_key(k) {
                lemma_slot_key_injective(next, k);
            }
        }
    }
}

/// Presets with the same slots, position by position, have stable keys
/// together.
proof fn lemma_same_slots(ps: Seq<Preset>, qs: Seq<Preset>, next: nat)
    requires
        keys_stable_for(ps, next),
        ps.len() == qs.len(),
        forall|i: int| 0 <= i < ps.len() ==> #[trigger] qs[i].slot@ == ps[i].slot@,
    ensures
        keys_stable_for(qs, next),
{
    assert forall|i: int, j: int|
        0 <= i < qs.len() && 0 <= j < qs.len() && i != j implies #[trigger] qs[i].slot@
        != #[trigger] qs[j].slot@ by {
        assert(ps[i].slot@ != ps[j].slot@);
    }
    assert forall|i: int, k: nat|
        #![trigger qs[i], slot_key(k)]
        0 <= i < qs.len() && k >= next implies qs[i].slot@ != slot_key(k) by {
        assert(ps[i].slot@ != slot_key(k));
    }
}

/// Removing presets keeps the keys stable: what is left is drawn from the
/// original presets without repeating a slot.
proof fn lemma_filter_keys(ps: Seq<Preset>, pred: spec_fn(Preset) -> bool, next: nat)
    requires
        keys_stable_for(ps, next),
    ensures
        keys_stable_for(ps.filter(pred), next),
        forall|i: int| 0 <= i < ps.filter(pred).len() ==> ps.contains(#[trigger] ps.filter(pred)[i]),
    decreases ps.len(),
{
    reveal(Seq::filter);
    if ps.len() > 0 {
        let dl = ps.drop_last();
        assert(keys_stable_for(dl, next)) by {
            assert forall|i: int, j: int|
                0 <= i < dl.len() && 0 <= j < dl.len() && i != j implies #[trigger] dl[i].slot@
                != #[trigger] dl[j].slot@ by {
                assert(ps[i].slot@ != ps[j].slot@);
            }
            assert forall|i: int, k: nat|
                #![trigger dl[i], slot_key(k)]
                0 <= i < dl.len() && k >= next implies dl[i].slot@ != slot_key(k) by {
                assert(ps[i].slot@ != slot_key(k));
            }
        }
        lemma_filter_keys(dl, pred, next);
        let sub = dl.filter(pred);
        let f = ps.filter(pred);
        if pred(ps.last()) {
            assert(f == sub.push(ps.last()));
            assert forall|i: int| 0 <= i < f.len() implies ps.contains(#[trigger] f[i]) by {
                if i == sub.len() {
                    assert(ps[ps.len() - 1] == f[i]);
                } else {
                    assert(dl.contains(sub[i]));
                    let m = choose|m: int| 0 <= m < dl.len() && dl[m] == sub[i];
                    assert(ps[m] == f[i]);
                }
            }
            assert forall|i: int, j: int|
                0 <= i < f.len() && 0 <= j < f.len() && i != j implies #[trigger] f[i].slot@
                != #[trigger] f[j].slot@ by {
                if i == sub.len() {
                    assert(dl.contains(sub[j]));
                    let m = choose|m: int| 0 <= m < dl.len() && dl[m] == sub[j];
                    assert(ps[m].slot@ != ps[ps.len() - 1].slot@);
                } else if j == sub.len() {
                    assert(dl.contains(sub[i]));
                    let m = choose|m: int| 0 <= m < dl.len() && dl[m] == sub[i];
                    assert(ps[m].slot@ != ps[ps.len() - 1].slot@);
                }
            }
            assert forall|i: int, k: nat|
                #![trigger f[i], slot_key(k)]
                0 <= i < f.len() && k >= next implies f[i].slot@ != slot_key(k) by {
                if i == sub.len() {
                    assert(ps[ps.len() - 1].slot@ != slot_key(k));
                } else {
                    assert(sub[i].slot@ != slot_key(k));
                }
            }
        } else {
            assert(f == sub);
            assert forall|i: int| 0 <= i < f.len() implies ps.contains(#[trigger] f[i]) by {
                assert(dl.contains(sub[i]));
                let m = choose|m: int| 0 <= m < dl.len() && dl[m] == sub[i];
                assert(ps[m] == f[i]);
            }
        }
    }
}

/// No program is bound to two presets.
pub open spec fn bindings_unique(ps: Seq<Preset>) -> bool {
    forall|i: int, j: int|
        0 <= i < ps.len() && 0 <= j < ps.len() && i != j && ps[i].exe is Some
            ==> opt_text(#[trigger] ps[i].exe) != opt_text(#[trigger] ps[j].exe)
}

/// An exe maps to one slot. Binding a program to a preset (as
/// `set_binding` does, on presets with distinct slots) leaves exactly that
/// preset bound to it, and keeps every program bound to at most one preset.
pub proof fn lemma_binding_exclusive(ps: Seq<Preset>, qs: Seq<Preset>, slot: Seq<char>, exe: Option<Seq<char>>)
    requires
        distinct_slots(ps),
        has_slot(ps, slot),
        qs.len() == ps.len(),
        forall|j: int| 0 <= j < ps.len() ==> rebound(ps[j], #[trigger] qs[j], slot, binding_key(exe), j == slot_position(ps, slot)),
    ensures
        binding_key(exe) matches Some(k) ==> forall|j: int| 0 <= j < qs.len() ==> (opt_text(#[trigger] qs[j].exe) == Some(k) <==> j == slot_position(ps, slot)),
        bindings_unique(ps) ==> bindings_unique(qs),
{
    let t = slot_position(ps, slot);
    lemma_first_slot(ps, slot);
    let key = binding_key(exe);
    assert forall|j: int| 0 <= j < ps.len() && j != t implies #[trigger] ps[j].slot@ != slot by {
        assert(ps[j].slot@ != ps[t].slot@);
    }
    if key is Some {
        assert forall|j: int| 0 <= j < qs.len() implies (opt_text(#[trigger] qs[j].exe) == key <==> j == t) by {
            assert(rebound(ps[j], qs[j], slot, key, j == t));
        }
    }
    if bindings_unique(ps) {
        assert forall|i: int, j: int|
            0 <= i < qs.len() && 0 <= j < qs.len() && i != j && qs[i].exe is Some
            implies opt_text(#[trigger] qs[i].exe) != opt_text(#[trigger] qs[j].exe) by {
            assert(rebound(ps[i], qs[i], slot, key, i == t));
            assert(rebound(ps[j], qs[j], slot, key, j == t));
            if opt_text(qs[i].exe) == opt_text(qs[j].exe) {
                if i != t && j != t {
                    assert(opt_text(qs[i].exe) == opt_text(ps[i].exe));
                    assert(opt_text(qs[j].exe) == opt_text(ps[j].exe));
                    assert(ps[i].exe is Some);
                }
            }
        }
    }
}

/// Filtering out the baseline twice is filtering it out once: an export
/// holds only user presets, so importing it skips none of them.
pub proof fn lemma_user_presets_idempotent(ps: Seq<Preset>)
    ensures
        user_presets_of(user_presets_of(ps)) == user_presets_of(ps),
    decreases ps.len(),
{
    reveal(Seq::filter);
    if ps.len() > 0 {
        let dl = ps.drop_last();
        lemma_user_presets_idempotent(dl);
        let f = user_presets_of(dl);
        if !is_normal(ps.last().slot@) {
            let g = f.push(ps.last());
            assert(user_presets_of(ps) == g);
            assert(g.drop_last() =~= f);
            assert(user_presets_of(g) == user_presets_of(f).push(ps.last()));
        }
    }
}

/// A preset as an export file shares it: only what carries over to another
/// machine — the display name, the dials and the vibrance level. The slot key
/// and the program binding are machine-local and stay behind.
#[derive(Debug)]
pub struct SharedPreset {
    pub name: String,
    pub dials: ColorDials,
    pub vibrance: i32,
}

/// `q` shares what `p` carries over.
pub open spec fn shares(q: SharedPreset, p: Preset) -> bool {
    &&& q.name == p.name
    &&& q.dials == p.dials
    &&& q.vibrance == p.vibrance
}

/// The contents of a preset export file, as parsed: the scale it was
/// stamped with, if any, and its presets.
#[derive(Debug)]
pub struct ImportFile {
    pub vibrance_scale: Option<VibranceScale>,
    pub presets: Vec<Preset>,
}

/// The scale and presets an import goes by: the export-file shape when the
/// text parsed as one (without a stamp, the legacy scale), else the legacy
/// bare array, else nothing.
pub open spec fn import_source(as_file: Option<ImportFile>, as_legacy: Result<Vec<Preset>, String>) -> Option<(VibranceScale, Seq<Preset>)> {
    match as_file {
        Some(f) => Some(
            (
                match f.vibrance_scale {
                    Some(sc) => sc,
                    None => VibranceScale { min: 0, max: 100, default: 50 },
                },
                f.presets@,
            ),
        ),
        None => match as_legacy {
            Ok(v) => Some((VibranceScale { min: 0, max: 100, default: 50 }, v@)),
            Err(_) => None,
        },
    }
}

/// `q` is the preset that importing `p` creates as the `count`-th preset
/// with key number `id`: a fresh key, the (trimmed) name, the dials and
/// vibrance level of `p`, and no binding.
pub open spec fn is_imported(q: Preset, p: Preset, count: nat, id: nat) -> bool {
    &&& q.slot@ == slot_key(id)
    &&& q.name@ == display_name(p.name@, count)
    &&& q.dials == p.dials
    &&& q.vibrance == p.vibrance
    &&& q.exe is None
}

/// The message for text that is neither export-file shape.
fn invalid_file_message(e: &str) -> (r: String)
    ensures
        r@ == "invalid preset file: "@ + e@,
{
    let mut m = "invalid preset file: ".to_owned();
    m.append(e);
    m
}

impl Default for PresetStore {
    fn default() -> (r: Self)
        ensures
            r.presets@.len() == 1,
            is_normal_preset(r.presets@[0]),
            r.active@ == "Normal"@,
            r.next_id == 1,
            r.autostart,
            r.hotkeys,
            r.keys_stable(),
    {
        let mut presets = Vec::new();
        presets.push(normal_preset());
        proof {
            reveal_strlit("Normal");
            assert forall|k: nat| #[trigger] slot_key(k) != "Normal"@ by {
                assert(slot_key(k)[0] == 'p');
            }
        }
        PresetStore {
            presets,
            active: "Normal".to_owned(),
            next_id: default_next_id(),
            autostart: default_true(),
            hotkeys: default_true(),
        }
    }
}

impl PresetStore {
    /// User-preset keys are unique and stay unique: no two presets share a
    /// slot, and no preset holds a key `p{k}` that the counter will still
    /// hand out.
    pub open spec fn keys_stable(&self) -> bool {
        keys_stable_for(self.presets@, self.next_id as nat)
    }

    /// The position of the first preset with the slot `slot`.
    fn position(&self, slot: &str) -> (r: Option<usize>)
        ensures
            r is Some <==> has_slot(self.presets@, slot@),
            r matches Some(i) ==> is_first_slot(self.presets@, slot@, i as int),
    {
        let mut i: usize = 0;
        while i < self.presets.len()
            invariant
                i <= self.presets@.len(),
                forall|j: int| 0 <= j < i ==> #[trigger] self.presets@[j].slot@ != slot@,
            decreases self.presets@.len() - i,
        {
            if same_text(self.presets[i].slot.as_str(), slot) {
                return Some(i);
            }
            i = i + 1;
        }
        None
    }

    /// The preset with the slot `slot` (the first one, should several share it).
    pub fn get(&self, slot: &str) -> (r: Option<&Preset>)
        ensures
            r is Some <==> has_slot(self.presets@, slot@),
            r matches Some(p) ==> *p == self.presets@[slot_position(self.presets@, slot@)],
    {
        match self.position(slot) {
            Some(i) => {
                assert(is_first_slot(self.presets@, slot@, slot_position(self.presets@, slot@)));
                Some(&self.presets[i])
            },
            None => None,
        }
    }

    /// Store new dials and vibrance on the preset with the slot `slot`; an
    /// unknown slot changes nothing.
    pub fn update(&mut self, slot: &str, dials: ColorDials, vibrance: i32)
        ensures
            final(self).active == old(self).active,
            final(self).next_id == old(self).next_id,
            final(self).autostart == old(self).autostart,
            final(self).hotkeys == old(self).hotkeys,
            !has_slot(old(self).presets@, slot@) ==> final(self).presets@ == old(self).presets@,
            has_slot(old(self).presets@, slot@) ==> {
                let i = slot_position(old(self).presets@, slot@);
                let p = old(self).presets@[i];
                final(self).presets@ == old(self).presets@.update(
                    i,
                    Preset { dials, vibrance, ..p },
                )
            },
            old(self).keys_stable() ==> final(self).keys_stable(),
    {
        match self.position(slot) {
            Some(i) => {
                assert(is_first_slot(self.presets@, slot@, slot_position(self.presets@, slot@)));
                let mut p = self.presets[i].clone();
                p.dials = dials;
                p.vibrance = vibrance;
                let ghost pre = self.presets@;
                self.presets.set(i, p);
                proof {
                    if old(self).keys_stable() {
                        lemma_same_slots(pre, self.presets@, self.next_id as nat);
                    }
                }
            },
            None => {},
        }
    }

    /// Create a new user preset seeded neutral, with the next `p{n}` key.
    /// Returns a copy of the new preset.
    pub fn add(&mut self, name: String) -> (p: Preset)
        requires
            old(self).next_id < u32::MAX,
        ensures
            is_fresh_preset(p, name@, old(self).presets@.len(), old(self).next_id as nat),
            final(self).presets@ == old(self).presets@.push(p),
            final(self).next_id == old(self).next_id + 1,
            final(self).active == old(self).active,
            final(self).autostart == old(self).autostart,
            final(self).hotkeys == old(self).hotkeys,
            old(self).keys_stable() ==> final(self).keys_stable(),
    {
        let slot = decimal_text("p", self.next_id as u64);
        proof {
            reveal_strlit("p");
            assert(slot@ == slot_key(self.next_id as nat));
        }
        self.next_id = self.next_id + 1;
        let t = trim_text(name.as_str());
        let name = if t.is_empty() {
            decimal_text("Preset ", self.presets.len() as u64)
        } else {
            t.to_owned()
        };
        let preset = Preset {
            slot,
            name,
            dials: ColorDials::default(),
            vibrance: 0,
            exe: None,
        };
        let ghost pre = self.presets@;
        self.presets.push(preset.clone());
        proof {
            if old(self).keys_stable() {
                lemma_push_fresh(pre, old(self).next_id as nat, preset);
            }
        }
        preset
    }

    /// Delete a user preset. Normal is protected. If the deleted slot was
    /// active, active falls back to Normal.
    pub fn delete(&mut self, slot: &str) -> (r: Result<(), String>)
        ensures
            is_normal(slot@) ==> fails_with(r, "Normal baseline cannot be deleted"@),
            !is_normal(slot@) && !has_slot(old(self).presets@, slot@) ==> fails_with(r, "unknown slot"@),
            r is Err ==> same_store(*old(self), *final(self)),
            !is_normal(slot@) && has_slot(old(self).presets@, slot@) ==> {
                &&& r is Ok
                &&& final(self).presets@ == without_slot(old(self).presets@, slot@)
                &&& final(self).active@ == (if old(self).active@ == slot@ {
                    "Normal"@
                } else {
                    old(self).active@
                })
                &&& final(self).next_id == old(self).next_id
                &&& final(self).autostart == old(self).autostart
                &&& final(self).hotkeys == old(self).hotkeys
            },
            old(self).keys_stable() ==> final(self).keys_stable(),
    {
        if same_text(slot, "Normal") {
            return Err("Normal baseline cannot be deleted".to_owned());
        }
        if self.position(slot).is_none() {
            return Err("unknown slot".to_owned());
        }
        let mut kept: Vec<Preset> = Vec::new();
        let mut i: usize = 0;
        while i < self.presets.len()
            invariant
                i <= self.presets@.len(),
                kept@ == without_slot(self.presets@.take(i as int), slot@),
            decreases self.presets@.len() - i,
        {
            proof {
                reveal(Seq::filter);
                assert(self.presets@.take(i + 1).drop_last() =~= self.presets@.take(i as int));
            }
            if !same_text(self.presets[i].slot.as_str(), slot) {
                kept.push(self.presets[i].clone());
            }
            i = i + 1;
        }
        assert(self.presets@.take(i as int) =~= self.presets@);
        proof {
            if old(self).keys_stable() {
                lemma_filter_keys(self.presets@, |p: Preset| p.slot@ != slot@, self.next_id as nat);
            }
        }
        self.presets = kept;
        if same_text(self.active.as_str(), slot) {
            self.active = "Normal".to_owned();
        }
        Ok(())
    }

    /// Rename a user preset (display name only). Normal is protected; the
    /// name is trimmed and must not be empty.
    pub fn rename(&mut self, slot: &str, name: String) -> (r: Result<(), String>)
        ensures
            is_normal(slot@) ==> fails_with(r, "Normal baseline cannot be renamed"@),
            !is_normal(slot@) && trimmed(name@).len() == 0 ==> fails_with(r, "name cannot be empty"@),
            !is_normal(slot@) && trimmed(name@).len() != 0 && !has_slot(old(self).presets@, slot@)
                ==> fails_with(r, "unknown slot"@),
            r is Err ==> same_store(*old(self), *final(self)),
            !is_normal(slot@) && trimmed(name@).len() != 0 && has_slot(old(self).presets@, slot@)
                ==> {
                let i = slot_position(old(self).presets@, slot@);
                &&& r is Ok
                &&& same_settings(*old(self), *final(self))
                &&& final(self).presets@.len() == old(self).presets@.len()
                &&& renamed(old(self).presets@[i], final(self).presets@[i], trimmed(name@))
                &&& forall|j: int| 0 <= j < old(self).presets@.len() && j != i
                    ==> #[trigger] final(self).presets@[j] == old(self).presets@[j]
            },
            old(self).keys_stable() ==> final(self).keys_stable(),
    {
        if same_text(slot, "Normal") {
            return Err("Normal baseline cannot be renamed".to_owned());
        }
        let t = trim_text(name.as_str());
        if t.is_empty() {
            return Err("name cannot be empty".to_owned());
        }
        match self.position(slot) {
            Some(i) => {
                assert(is_first_slot(self.presets@, slot@, slot_position(self.presets@, slot@)));
                let mut p = self.presets[i].clone();
                p.name = t.to_owned();
                let ghost pre = self.presets@;
                self.presets.set(i, p);
                proof {
                    if old(self).keys_stable() {
                        lemma_same_slots(pre, self.presets@, self.next_id as nat);
                    }
                }
                Ok(())
            },
            None => Err("unknown slot".to_owned()),
        }
    }

    /// Bind (or clear, with `None`) a program to a user preset. The exe is
    /// stored trimmed and lower-cased so process matching is
    /// case-insensitive. Normal is protected. Any other preset bound to the
    /// same exe is cleared so an exe maps to one slot.
    pub fn set_binding(&mut self, slot: &str, exe: Option<String>) -> (r: Result<(), String>)
        ensures
            is_normal(slot@) ==> fails_with(r, "Normal baseline cannot be bound"@),
            !is_normal(slot@) && !has_slot(old(self).presets@, slot@) ==> fails_with(r, "unknown slot"@),
            r is Err ==> same_store(*old(self), *final(self)),
            !is_normal(slot@) && has_slot(old(self).presets@, slot@) ==> {
                let i = slot_position(old(self).presets@, slot@);
                let key = binding_key(opt_text(exe));
                &&& r is Ok
                &&& same_settings(*old(self), *final(self))
                &&& final(self).presets@.len() == old(self).presets@.len()
                &&& forall|j: int| 0 <= j < old(self).presets@.len()
                    ==> rebound(old(self).presets@[j], #[trigger] final(self).presets@[j], slot@, key, j == i)
            },
            old(self).keys_stable() ==> final(self).keys_stable(),
    {
        if same_text(slot, "Normal") {
            return Err("Normal baseline cannot be bound".to_owned());
        }
        let key: Option<String> = match &exe {
            Some(e) => {
                let k = lowercase_text(trim_text(e.as_str()));
                if k.as_str().is_empty() {
                    None
                } else {
                    Some(k)
                }
            },
            None => None,
        };
        assert(opt_text(key) == binding_key(opt_text(exe)));
        self.bind_key(slot, key)
    }

    /// Bind (or clear, with `None`) the already normalised exe `key` to a
    /// user preset, storing it as given. Normal is protected. Any other
    /// preset bound to the same key is cleared so an exe maps to one slot.
    pub fn bind_key(&mut self, slot: &str, key: Option<String>) -> (r: Result<(), String>)
        ensures
            is_normal(slot@) ==> fails_with(r, "Normal baseline cannot be bound"@),
            !is_normal(slot@) && !has_slot(old(self).presets@, slot@) ==> fails_with(r, "unknown slot"@),
            r is Err ==> same_store(*old(self), *final(self)),
            !is_normal(slot@) && has_slot(old(self).presets@, slot@) ==> {
                let i = slot_position(old(self).presets@, slot@);
                &&& r is Ok
                &&& same_settings(*old(self), *final(self))
                &&& final(self).presets@.len() == old(self).presets@.len()
                &&& forall|j: int| 0 <= j < old(self).presets@.len()
                    ==> rebound(old(self).presets@[j], #[trigger] final(self).presets@[j], slot@, opt_text(key), j == i)
            },
            old(self).keys_stable() ==> final(self).keys_stable(),
    {
        if same_text(slot, "Normal") {
            return Err("Normal baseline cannot be bound".to_owned());
        }
        let pos = match self.position(slot) {
            Some(i) => i,
            None => {
                return Err("unknown slot".to_owned());
            },
        };
        let ghost old_ps = self.presets@;
        assert(is_first_slot(old_ps, slot@, slot_position(old_ps, slot@)));
        match &key {
            Some(target) => {
                let mut i: usize = 0;
                while i < self.presets.len()
                    invariant
                        i <= self.presets@.len(),
                        self.presets@.len() == old_ps.len(),
                        key == Some(*target),
                        same_settings(*old(self), *self),
                        is_first_slot(old_ps, slot@, pos as int),
                        forall|j: int| 0 <= j < i ==> rebound(old_ps[j], #[trigger] self.presets@[j], slot@, opt_text(key), false),
                        forall|j: int| i <= j < old_ps.len() ==> #[trigger] self.presets@[j] == old_ps[j],
                    decreases self.presets@.len() - i,
                {
                    let clear = if same_text(self.presets[i].slot.as_str(), slot) {
                        false
                    } else {
                        match &self.presets[i].exe {
                            Some(x) => same_text(x.as_str(), target.as_str()),
                            None => false,
                        }
                    };
                    if clear {
                        let mut p = self.presets[i].clone();
                        p.exe = None;
                        self.presets.set(i, p);
                    }
                    i = i + 1;
                }
            },
            None => {},
        }
        assert(slot_position(old_ps, slot@) == pos);
        let mut p = self.presets[pos].clone();
        p.exe = key;
        self.presets.set(pos, p);
        proof {
            if old(self).keys_stable() {
                assert forall|j: int| 0 <= j < old_ps.len() implies #[trigger] self.presets@[j].slot@ == old_ps[j].slot@ by {
                    assert(rebound(old_ps[j], self.presets@[j], slot@, opt_text(key), j == pos));
                }
                lemma_same_slots(old_ps, self.presets@, self.next_id as nat);
            }
        }
        Ok(())
    }

    /// All (exe, slot) bindings currently set, in rail order, exe
    /// lower-cased (a store read from its file may hold any text).
    pub fn bindings(&self) -> (r: Vec<(String, String)>)
        ensures
            pairs_text(r@) == binding_pairs(self.presets@),
    {
        let mut out: Vec<(String, String)> = Vec::new();
        let mut i: usize = 0;
        while i < self.presets.len()
            invariant
                i <= self.presets@.len(),
                pairs_text(out@) == binding_pairs(self.presets@.take(i as int)),
            decreases self.presets@.len() - i,
        {
            assert(self.presets@.take(i + 1).drop_last() =~= self.presets@.take(i as int));
            let ghost before = out@;
            match &self.presets[i].exe {
                Some(e) => {
                    out.push((lowercase_text(e.as_str()), self.presets[i].slot.clone()));
                    assert(pairs_text(out@) =~= pairs_text(before).push((lowercase(e@), self.presets@[i as int].slot@)));
                },
                None => {},
            }
            i = i + 1;
        }
        assert(self.presets@.take(i as int) =~= self.presets@);
        out
    }

    /// The user presets (everything except the fixed Normal baseline), as
    /// they are exported for sharing.
    pub fn user_presets(&self) -> (r: Vec<Preset>)
        ensures
            r@ == user_presets_of(self.presets@),
    {
        user_presets_in(&self.presets)
    }

    /// The records of an export: one per user preset (everything except the
    /// fixed Normal baseline), in rail order, without slot keys or bindings.
    pub fn export_records(&self) -> (r: Vec<SharedPreset>)
        ensures
            r@.len() == user_presets_of(self.presets@).len(),
            forall|k: int| 0 <= k < r@.len() ==> shares(#[trigger] r@[k], user_presets_of(self.presets@)[k]),
    {
        let users = self.user_presets();
        let mut out: Vec<SharedPreset> = Vec::new();
        let mut i: usize = 0;
        while i < users.len()
            invariant
                i <= users@.len(),
                users@ == user_presets_of(self.presets@),
                out@.len() == i,
                forall|k: int| 0 <= k < i ==> shares(#[trigger] out@[k], users@[k]),
            decreases users@.len() - i,
        {
            let p = &users[i];
            out.push(SharedPreset { name: p.name.clone(), dials: p.dials, vibrance: p.vibrance });
            i = i + 1;
        }
        out
    }

    /// Append imported presets, each as a NEW user preset with a fresh
    /// `p{next_id}` key (additive: never overwrites existing presets, never
    /// collides on keys), with its trimmed (or default) name, its dials and
    /// its vibrance level as given, and no binding. Returns the number added.
    pub fn append_imported(&mut self, incoming: Vec<Preset>) -> (r: usize)
        requires
            old(self).next_id + incoming@.len() <= u32::MAX,
        ensures
            r == incoming@.len(),
            final(self).next_id == old(self).next_id + incoming@.len(),
            same_settings_but_counter(*old(self), *final(self)),
            final(self).presets@.len() == old(self).presets@.len() + incoming@.len(),
            forall|j: int| 0 <= j < old(self).presets@.len() ==> #[trigger] final(self).presets@[j] == old(self).presets@[j],
            forall|k: int| 0 <= k < incoming@.len() ==> is_imported(
                #[trigger] final(self).presets@[old(self).presets@.len() + k],
                incoming@[k],
                (old(self).presets@.len() + k) as nat,
                (old(self).next_id + k) as nat,
            ),
            old(self).keys_stable() ==> final(self).keys_stable(),
    {
        let ghost n = self.presets@.len();
        let ghost old_ps = self.presets@;
        let ghost old_id = self.next_id as nat;
        let mut i: usize = 0;
        while i < incoming.len()
            invariant
                i <= incoming@.len(),
                old_id + incoming@.len() <= u32::MAX,
                self.next_id == old_id + i,
                self.presets@.len() == n + i,
                n == old(self).presets@.len(),
                old_id == old(self).next_id,
                same_settings_but_counter(*old(self), *self),
                old(self).keys_stable() ==> self.keys_stable(),
                forall|j: int| 0 <= j < n ==> #[trigger] self.presets@[j] == old_ps[j],
                old_ps == old(self).presets@,
                forall|k: int| 0 <= k < i ==> is_imported(
                    #[trigger] self.presets@[n + k],
                    incoming@[k],
                    (n + k) as nat,
                    (old_id + k) as nat,
                ),
            decreases incoming@.len() - i,
        {
            let p = &incoming[i];
            self.add(p.name.clone());
            let last = self.presets.len() - 1;
            let mut q = self.presets[last].clone();
            q.dials = p.dials;
            q.vibrance = p.vibrance;
            let ghost pre = self.presets@;
            self.presets.set(last, q);
            proof {
                if old(self).keys_stable() {
                    lemma_same_slots(pre, self.presets@, self.next_id as nat);
                }
            }
            i = i + 1;
        }
        i
    }
}

/// The user presets among `ps`, copied.
fn user_presets_in(ps: &Vec<Preset>) -> (r: Vec<Preset>)
    ensures
        r@ == user_presets_of(ps@),
{
    let mut out: Vec<Preset> = Vec::new();
    let mut i: usize = 0;
    while i < ps.len()
        invariant
            i <= ps@.len(),
            out@ == user_presets_of(ps@.take(i as int)),
        decreases ps@.len() - i,
    {
        proof {
            reveal(Seq::filter);
            assert(ps@.take(i + 1).drop_last() =~= ps@.take(i as int));
        }
        if !same_text(ps[i].slot.as_str(), "Normal") {
            out.push(ps[i].clone());
        }
        i = i + 1;
    }
    assert(ps@.take(i as int) =~= ps@);
    out
}

/// What an import goes by: the vibrance scale the file was made on and the
/// user presets it holds (the baseline "Normal" is skipped), or why the
/// text is no preset file. `as_file` is the text parsed as an export file,
/// `as_legacy` the text parsed as the legacy bare array (or the parser's
/// message); an export file without a scale stamp, and the legacy array,
/// are on the legacy scale. The levels are then carried onto this
/// machine's scale and the presets appended with `append_imported`.
pub fn import_plan(as_file: Option<ImportFile>, as_legacy: Result<Vec<Preset>, String>) -> (r: Result<(VibranceScale, Vec<Preset>), String>)
    ensures
        import_source(as_file, as_legacy) is None ==> (as_legacy matches Err(e) && fails_with(r, "invalid preset file: "@ + e@)),
        import_source(as_file, as_legacy) matches Some(src) ==> (r matches Ok(plan) && plan.0 == src.0 && plan.1@ == user_presets_of(src.1)),
{
    let ghost source = import_source(as_file, as_legacy);
    let (src, incoming) = match as_file {
        Some(f) => {
            let sc = match f.vibrance_scale {
                Some(sc) => sc,
                None => legacy_scale(),
            };
            (sc, f.presets)
        },
        None => match as_legacy {
            Ok(v) => (legacy_scale(), v),
            Err(e) => {
                return Err(invalid_file_message(e.as_str()));
            },
        },
    };
    assert(source == Some((src, incoming@)));
    Ok((src, user_presets_in(&incoming)))
}

/// A sequence of presets none of which is the baseline is its own user
/// presets.
proof fn lemma_user_presets_all(ps: Seq<Preset>)
    requires
        forall|k: int| 0 <= k < ps.len() ==> !is_normal(#[trigger] ps[k].slot@),
    ensures
        user_presets_of(ps) == ps,
    decreases ps.len(),
{
    reveal(Seq::filter);
    if ps.len() > 0 {
        let d = ps.drop_last();
        assert forall|k: int| 0 <= k < d.len() implies !is_normal(#[trigger] d[k].slot@) by {
            assert(d[k] == ps[k]);
        }
        lemma_user_presets_all(d);
        assert(!is_normal(ps[ps.len() - 1].slot@));
        assert(d.push(ps.last()) =~= ps);
    }
}

/// Export then import. Take the records an export writes of the presets
/// `exported` (`export_records`), the presets read back from them
/// (`incoming`: the same names, dials and levels, under slots that are not
/// the baseline's, as a shared file reads back), the plan an import goes by
/// on the same scale (`import_plan` keeps every one of them), and the
/// presets `append_imported` adds for that plan to a store of `count`
/// presets whose counter stands at `id`. Then one preset is added per
/// exported user preset, in order: with the fresh key `p{id + k}`, the same
/// dials and vibrance level, no binding, and the same name wherever the
/// name was already trimmed and not empty.
pub proof fn lemma_export_import_round_trip(
    exported: Seq<Preset>,
    records: Seq<SharedPreset>,
    incoming: Seq<Preset>,
    added: Seq<Preset>,
    count: nat,
    id: nat,
)
    requires
        records.len() == user_presets_of(exported).len(),
        forall|k: int| 0 <= k < records.len() ==> shares(#[trigger] records[k], user_presets_of(exported)[k]),
        incoming.len() == records.len(),
        forall|k: int| 0 <= k < incoming.len() ==> {
            &&& #[trigger] incoming[k].name == records[k].name
            &&& incoming[k].dials == records[k].dials
            &&& incoming[k].vibrance == records[k].vibrance
            &&& !is_normal(incoming[k].slot@)
        },
        added.len() == user_presets_of(incoming).len(),
        forall|k: int| 0 <= k < added.len() ==> is_imported(
            #[trigger] added[k],
            user_presets_of(incoming)[k],
            count + k as nat,
            id + k as nat,
        ),
    ensures
        added.len() == user_presets_of(exported).len(),
        forall|k: int| 0 <= k < added.len() ==> {
            let u = user_presets_of(exported)[k];
            &&& (#[trigger] added[k]).slot@ == slot_key(id + k as nat)
            &&& added[k].dials == u.dials
            &&& added[k].vibrance == u.vibrance
            &&& added[k].exe is None
            &&& (trimmed(u.name@) == u.name@ && u.name@.len() > 0 ==> added[k].name@ == u.name@)
        },
{
    assert forall|k: int| 0 <= k < incoming.len() implies !is_normal(#[trigger] incoming[k].slot@) by {
        assert(incoming[k].name == records[k].name);
    }
    lemma_user_presets_all(incoming);
    assert forall|k: int| 0 <= k < added.len() implies {
        let u = user_presets_of(exported)[k];
        &&& (#[trigger] added[k]).slot@ == slot_key(id + k as nat)
        &&& added[k].dials == u.dials
        &&& added[k].vibrance == u.vibrance
        &&& added[k].exe is None
        &&& (trimmed(u.name@) == u.name@ && u.name@.len() > 0 ==> added[k].name@ == u.name@)
    } by {
        assert(shares(records[k], user_presets_of(exported)[k]));
        assert(incoming[k].name == records[k].name);
        assert(is_imported(added[k], incoming[k], count + k as nat, id + k as nat));
    }
}

/// Deleting from a list with one more preset at the end is deleting from
/// the shorter list, then keeping that preset unless it holds the slot.
proof fn lemma_without_slot_push(ps: Seq<Preset>, p: Preset, slot: Seq<char>)
    ensures
        without_slot(Seq::<Preset>::empty(), slot) == Seq::<Preset>::empty(),
        without_slot(ps.push(p), slot) == (if p.slot@ == slot {
            without_slot(ps, slot)
        } else {
            without_slot(ps, slot).push(p)
        }),
{
    reveal(Seq::filter);
    assert(ps.push(p).drop_last() =~= ps);
    assert(ps.push(p).last() == p);
}

/// What is left after deleting a slot: exactly the presets that were
/// there and hold another slot, never more presets than before.
proof fn lemma_without_slot_members(ps: Seq<Preset>, slot: Seq<char>)
    ensures
        forall|x: Preset| #[trigger] without_slot(ps, slot).contains(x) <==> (ps.contains(x) && x.slot@ != slot),
        without_slot(ps, slot).len() <= ps.len(),
    decreases ps.len(),
{
    if ps.len() == 0 {
        lemma_without_slot_push(ps, arbitrary(), slot);
        assert(ps =~= Seq::<Preset>::empty());
    } else {
        let d = ps.drop_last();
        let p = ps.last();
        lemma_without_slot_members(d, slot);
        lemma_without_slot_push(d, p, slot);
        assert(d.push(p) =~= ps);
        let r = without_slot(ps, slot);
        let rd = without_slot(d, slot);
        assert forall|x: Preset| #[trigger] r.contains(x) <==> (ps.contains(x) && x.slot@ != slot) by {
            if r.contains(x) {
                if p.slot@ == slot || x != p {
                    if p.slot@ != slot {
                        let k = choose|k: int| 0 <= k < r.len() && r[k] == x;
                        assert(k < rd.len());
                        assert(rd[k] == x);
                    }
                    assert(rd.contains(x));
                    let k = choose|k: int| 0 <= k < d.len() && d[k] == x;
                    assert(ps[k] == x);
                }
            }
            if ps.contains(x) && x.slot@ != slot {
                let k = choose|k: int| 0 <= k < ps.len() && ps[k] == x;
                if k < d.len() {
                    assert(d[k] == x);
                    assert(rd.contains(x));
                    let m = choose|m: int| 0 <= m < rd.len() && rd[m] == x;
                    assert(r[m] == x);
                } else {
                    assert(r[r.len() - 1] == x);
                }
            }
        }
    }
}

/// Delete removes exactly the presets with the deleted slot and keeps every
/// other preset, in order. A preset is left after deleting `slot` exactly
/// when it was there and holds another slot; deleting from a list with one
/// more preset at the end is deleting from the shorter list and then keeping
/// that preset unless it holds `slot`; and nothing is left of an empty list.
pub proof fn lemma_delete_keeps_others(ps: Seq<Preset>, p: Preset, slot: Seq<char>)
    ensures
        forall|x: Preset| #[trigger] without_slot(ps, slot).contains(x) <==> (ps.contains(x) && x.slot@ != slot),
        without_slot(ps.push(p), slot) == (if p.slot@ == slot {
            without_slot(ps, slot)
        } else {
            without_slot(ps, slot).push(p)
        }),
        without_slot(Seq::<Preset>::empty(), slot) == Seq::<Preset>::empty(),
{
    lemma_without_slot_members(ps, slot);
    lemma_without_slot_push(ps, p, slot);
}

/// Binding touches only what it must. After binding `key` to the preset at
/// `i` (as `set_binding` and `bind_key` do), that preset holds the key; a
/// preset under another slot that was bound to the new key loses its
/// binding; and every other preset is unchanged, binding included. In
/// particular clearing a binding (`key` none) changes no other preset.
pub proof fn lemma_rebinding_keeps_other_bindings(ps: Seq<Preset>, qs: Seq<Preset>, slot: Seq<char>, key: Option<Seq<char>>, i: int)
    requires
        qs.len() == ps.len(),
        0 <= i < ps.len(),
        forall|j: int| 0 <= j < ps.len() ==> rebound(ps[j], #[trigger] qs[j], slot, key, j == i),
    ensures
        opt_text(qs[i].exe) == key,
        forall|j: int| 0 <= j < ps.len() && j != i && (key is None || opt_text(ps[j].exe) != key) ==> {
            &&& opt_text(#[trigger] qs[j].exe) == opt_text(ps[j].exe)
            &&& qs[j].slot == ps[j].slot
            &&& qs[j].name == ps[j].name
            &&& qs[j].dials == ps[j].dials
            &&& qs[j].vibrance == ps[j].vibrance
        },
        forall|j: int| 0 <= j < ps.len() && j != i && key is Some && ps[j].slot@ != slot && opt_text(ps[j].exe) == key
            ==> (#[trigger] qs[j]).exe is None,
{
    assert(rebound(ps[i], qs[i], slot, key, true));
    assert forall|j: int| 0 <= j < ps.len() && j != i && key is Some && ps[j].slot@ != slot && opt_text(ps[j].exe) == key
        implies (#[trigger] qs[j]).exe is None by {
        assert(rebound(ps[j], qs[j], slot, key, false));
        assert(opt_text(qs[j].exe) is None);
    }
}

} // verus!
