//! The decisions behind the interface commands: selecting a preset and what
//! that does to the display, editing and creating presets, cycling with
//! the hotkey, the tray menu, and which URLs may be opened. The commands
//! themselves (window shell, driver calls, saving the store file) are the
//! application's part.

use vstd::prelude::*;
use crate::gamma::ColorDials;
use crate::text::{fails_with, same_text, chars_of};
use crate::store::{
    Preset, PresetStore, is_normal, has_slot, slot_position, is_first_slot, same_store,
    is_fresh_preset, opt_text, lemma_first_slot,
};

verus! {

/// What applying a preset does to the display.
#[derive(Clone, Copy, PartialEq, Eq, Structural, Debug)]
pub enum ColorAction {
    /// "Normal": neutral gamma and every output's own default vibrance.
    RestoreNative,
    /// Stamp these dials and this vibrance level on every output.
    Apply { dials: ColorDials, vibrance: i32 },
}

/// The display action for selecting `slot`, whose preset is `p`.
pub open spec fn action_for(slot: Seq<char>, p: Preset) -> ColorAction {
    if is_normal(slot) {
        ColorAction::RestoreNative
    } else {
        ColorAction::Apply { dials: p.dials, vibrance: p.vibrance }
    }
}

/// Select a preset: mark it active and say what to do to the display.
/// Returns a copy of the preset and the display action; an unknown slot
/// changes nothing.
pub fn apply_slot(store: &mut PresetStore, slot: &str) -> (r: Result<(Preset, ColorAction), String>)
    ensures
        !has_slot(old(store).presets@, slot@) ==> fails_with(r, "unknown slot"@) && same_store(
            *old(store),
            *final(store),
        ),
        has_slot(old(store).presets@, slot@) ==> {
            let p = old(store).presets@[slot_position(old(store).presets@, slot@)];
            &&& r matches Ok(res) && res.0 == p && res.1 == action_for(slot@, p)
            &&& final(store).presets@ == old(store).presets@
            &&& final(store).active@ == slot@
            &&& final(store).next_id == old(store).next_id
            &&& final(store).autostart == old(store).autostart
            &&& final(store).hotkeys == old(store).hotkeys
        },
{
    let p = match store.get(slot) {
        Some(p) => p.clone(),
        None => {
            return Err("unknown slot".to_owned());
        },
    };
    store.active = slot.to_owned();
    let action = if same_text(slot, "Normal") {
        ColorAction::RestoreNative
    } else {
        ColorAction::Apply { dials: p.dials, vibrance: p.vibrance }
    };
    Ok((p, action))
}

/// The display action that brings the display in line with the active
/// preset at start-up; none when the active slot names no preset.
pub fn boot_action(store: &PresetStore) -> (r: Option<ColorAction>)
    ensures
        !has_slot(store.presets@, store.active@) ==> r is None,
        has_slot(store.presets@, store.active@) ==> r == Some(
            action_for(store.active@, store.presets@[slot_position(store.presets@, store.active@)]),
        ),
{
    match store.get(store.active.as_str()) {
        Some(p) => {
            if same_text(store.active.as_str(), "Normal") {
                Some(ColorAction::RestoreNative)
            } else {
                Some(ColorAction::Apply { dials: p.dials, vibrance: p.vibrance })
            }
        },
        None => None,
    }
}

/// Persist edits to a slot: Normal is read-only; an unknown slot is
/// ignored.
pub fn save_preset(store: &mut PresetStore, slot: &str, dials: ColorDials, vibrance: i32) -> (r: Result<(), String>)
    ensures
        is_normal(slot@) ==> fails_with(r, "Normal baseline is read-only"@) && same_store(
            *old(store),
            *final(store),
        ),
        !is_normal(slot@) ==> r is Ok,
        !is_normal(slot@) && !has_slot(old(store).presets@, slot@) ==> same_store(*old(store), *final(store)),
        !is_normal(slot@) && has_slot(old(store).presets@, slot@) ==> {
            let i = slot_position(old(store).presets@, slot@);
            let p = old(store).presets@[i];
            &&& final(store).presets@ == old(store).presets@.update(
                i,
                Preset { dials, vibrance, ..p },
            )
            &&& final(store).active == old(store).active
            &&& final(store).next_id == old(store).next_id
            &&& final(store).autostart == old(store).autostart
            &&& final(store).hotkeys == old(store).hotkeys
        },
        old(store).keys_stable() ==> final(store).keys_stable(),
{
    if same_text(slot, "Normal") {
        return Err("Normal baseline is read-only".to_owned());
    }
    store.update(slot, dials, vibrance);
    Ok(())
}

/// Create a new user preset seeded neutral and return it. "Neutral"
/// vibrance is the driver's default level (`driver_default`), not 0 — on
/// AMD's saturation scale 0 would seed a grayscale preset; without a
/// vibrance backend it is 0. The level is stored through `update` on the new
/// preset's slot, which, with stable keys, is the new preset.
pub fn create_preset(store: &mut PresetStore, name: String, driver_default: Option<i32>) -> (p: Preset)
    requires
        old(store).next_id < u32::MAX,
    ensures
        ({
            let level: i32 = match driver_default {
                Some(l) => l,
                None => 0,
            };
            let n = old(store).presets@.len();
            let seeded = Preset { vibrance: 0, ..p };
            let mid = old(store).presets@.push(seeded);
            let i = slot_position(mid, p.slot@);
            &&& is_fresh_preset(seeded, name@, n, old(store).next_id as nat)
            &&& p.vibrance == level
            &&& level == 0 ==> final(store).presets@ == mid
            &&& level != 0 ==> final(store).presets@ == mid.update(
                i,
                Preset { dials: p.dials, vibrance: level, ..mid[i] },
            )
            &&& old(store).keys_stable() ==> final(store).presets@ == old(store).presets@.push(p)
            &&& final(store).next_id == old(store).next_id + 1
            &&& final(store).active == old(store).active
            &&& final(store).autostart == old(store).autostart
            &&& final(store).hotkeys == old(store).hotkeys
        }),
        old(store).keys_stable() ==> final(store).keys_stable(),
{
    let level: i32 = match driver_default {
        Some(l) => l,
        None => 0,
    };
    let ghost before = store.presets@;
    let mut p = store.add(name);
    let ghost mid = store.presets@;
    proof {
        assert(mid[before.len() as int] == p);
        assert(has_slot(mid, p.slot@)) by {
            assert(mid[before.len() as int].slot@ == p.slot@);
        }
        let i = slot_position(mid, p.slot@);
        lemma_first_slot(mid, p.slot@);
        if old(store).keys_stable() {
            assert(i == before.len()) by {
                if i < before.len() {
                    assert(mid[i] == before[i]);
                    assert(before[i].slot@ != crate::store::slot_key(old(store).next_id as nat));
                }
            }
        }
    }
    if level != 0 {
        store.update(p.slot.as_str(), p.dials, level);
        p.vibrance = level;
        proof {
            if old(store).keys_stable() {
                assert(store.presets@ =~= before.push(p));
            }
        }
    }
    p
}

/// `r` is the slot after the active one in rail order, wrapping (an active
/// slot that names no preset counts as the first), or none when fewer than
/// two presets exist.
pub open spec fn cycles_to(store: &PresetStore, r: Option<String>) -> bool {
    let ps = store.presets@;
    if ps.len() < 2 {
        r is None
    } else {
        let idx = if has_slot(ps, store.active@) {
            slot_position(ps, store.active@)
        } else {
            0
        };
        r matches Some(s) && s@ == ps[(idx + 1) % (ps.len() as int)].slot@
    }
}

/// The next slot in rail order after the active one (wrapping, Normal
/// included, so cycling doubles as an on/off toggle); an active slot that
/// names no preset counts as the first. None when fewer than two presets
/// exist.
pub fn cycle_slot(store: &PresetStore) -> (r: Option<String>)
    ensures
        cycles_to(store, r),
{
    let n = store.presets.len();
    if n < 2 {
        return None;
    }
    let mut idx: usize = 0;
    let mut i: usize = 0;
    let mut found = false;
    while i < n && !found
        invariant
            n == store.presets@.len(),
            i <= n,
            !found ==> idx == 0,
            !found ==> forall|j: int| 0 <= j < i ==> #[trigger] store.presets@[j].slot@ != store.active@,
            found ==> is_first_slot(store.presets@, store.active@, idx as int),
        decreases n - i + if found { 0int } else { 1int },
    {
        if same_text(store.presets[i].slot.as_str(), store.active.as_str()) {
            idx = i;
            found = true;
        } else {
            i = i + 1;
        }
    }
    proof {
        if has_slot(store.presets@, store.active@) {
            assert(found);
            assert(is_first_slot(store.presets@, store.active@, slot_position(store.presets@, store.active@)));
        }
    }
    let next = (idx + 1) % n;
    Some(store.presets[next].slot.clone())
}

/// The global hotkeys.
#[derive(Clone, Copy, PartialEq, Eq, Structural, Debug)]
pub enum Hotkey {
    /// Ctrl+Shift+F9: the next preset.
    Cycle,
    /// Ctrl+Shift+F10: snap to Normal.
    Normal,
}

/// The slot a hotkey selects, if any.
pub fn hotkey_slot(store: &PresetStore, key: Hotkey) -> (r: Option<String>)
    ensures
        key is Normal ==> opt_text(r) == Some("Normal"@),
        key is Cycle ==> cycles_to(store, r),
{
    match key {
        Hotkey::Cycle => cycle_slot(store),
        Hotkey::Normal => Some("Normal".to_owned()),
    }
}

/// The slot the auto-switch applies: the winning bound program's slot, or
/// the user's last manual pick when none is running.
pub fn watch_target(winner: Option<String>, manual: &String) -> (r: String)
    ensures
        winner matches Some(w) ==> r == w,
        winner is None ==> r == *manual,
{
    match winner {
        Some(w) => w,
        None => manual.clone(),
    }
}

/// An item of the tray menu.
#[derive(Clone, Copy, PartialEq, Eq, Structural, Debug)]
pub enum TrayAction {
    Show,
    Reset,
    Quit,
}

/// The tray-menu item an action name picks.
pub fn parse_tray_action(action: &str) -> (r: Result<TrayAction, String>)
    ensures
        action@ == "show"@ ==> r == Ok::<TrayAction, String>(TrayAction::Show),
        action@ == "reset"@ ==> r == Ok::<TrayAction, String>(TrayAction::Reset),
        action@ == "quit"@ ==> r == Ok::<TrayAction, String>(TrayAction::Quit),
        action@ != "show"@ && action@ != "reset"@ && action@ != "quit"@ ==> fails_with(
            r,
            "unknown tray action"@,
        ),
{
    proof {
        reveal_strlit("show");
        reveal_strlit("reset");
        reveal_strlit("quit");
        assert("reset"@.len() == 5 && "show"@.len() == 4 && "quit"@.len() == 4);
        assert("quit"@[0] != "show"@[0]);
    }
    if same_text(action, "show") {
        Ok(TrayAction::Show)
    } else if same_text(action, "reset") {
        Ok(TrayAction::Reset)
    } else if same_text(action, "quit") {
        Ok(TrayAction::Quit)
    } else {
        Err("unknown tray action".to_owned())
    }
}

/// `url` starts with "https://".
pub open spec fn is_https(url: Seq<char>) -> bool {
    url.len() >= 8 && url.subrange(0, 8) == "https://"@
}

/// Only https URLs may be opened in the browser.
pub fn check_url(url: &str) -> (r: Result<(), String>)
    ensures
        is_https(url@) ==> r is Ok,
        !is_https(url@) ==> fails_with(r, "only https URLs can be opened"@),
{
    let u = chars_of(url);
    let p = chars_of("https://");
    proof {
        reveal_strlit("https://");
    }
    if u.len() < 8 {
        return Err("only https URLs can be opened".to_owned());
    }
    let mut i: usize = 0;
    while i < 8
        invariant
            u@ == url@,
            p@ == "https://"@,
            p@.len() == 8,
            u@.len() >= 8,
            i <= 8,
            forall|j: int| 0 <= j < i ==> u@[j] == p@[j],
        decreases 8 - i,
    {
        if u[i] != p[i] {
            assert(url@.subrange(0, 8)[i as int] != "https://"@[i as int]);
            return Err("only https URLs can be opened".to_owned());
        }
        i = i + 1;
    }
    assert(url@.subrange(0, 8) =~= "https://"@);
    Ok(())
}

/// Cycling always moves when there is somewhere to go. With fewer than two
/// presets the hotkey does nothing; otherwise it names a slot: that of the
/// preset after the active one in rail order, the first preset's after the
/// last (so with Normal and one user preset it toggles between the two),
/// and the second preset's when the active slot names no preset.
pub proof fn lemma_cycle_moves(store: PresetStore, r: Option<String>)
    requires
        cycles_to(&store, r),
    ensures
        store.presets@.len() < 2 <==> r is None,
        ({
            let ps = store.presets@;
            let pos = slot_position(ps, store.active@);
            &&& ps.len() >= 2 && has_slot(ps, store.active@) && pos + 1 < ps.len() ==> r->0@ == ps[pos + 1].slot@
            &&& ps.len() >= 2 && has_slot(ps, store.active@) && pos + 1 == ps.len() ==> r->0@ == ps[0].slot@
            &&& ps.len() >= 2 && !has_slot(ps, store.active@) ==> r->0@ == ps[1].slot@
        }),
{
    let ps = store.presets@;
    if ps.len() >= 2 && has_slot(ps, store.active@) {
        lemma_first_slot(ps, store.active@);
        let pos = slot_position(ps, store.active@);
        assert(0 <= pos < ps.len());
        if pos + 1 < ps.len() {
            vstd::arithmetic::div_mod::lemma_small_mod((pos + 1) as nat, ps.len());
        } else {
            vstd::arithmetic::div_mod::lemma_mod_self_0(ps.len() as int);
        }
    } else if ps.len() >= 2 {
        vstd::arithmetic::div_mod::lemma_small_mod(1, ps.len());
    }
}

} // verus!
