use exfil::commands::{
    apply_slot, boot_action, check_url, create_preset, cycle_slot, hotkey_slot, parse_tray_action,
    save_preset, watch_target, ColorAction, Hotkey, TrayAction,
};
use exfil::gamma::ColorDials;
use exfil::store::PresetStore;

fn dials(g: f64, b: f64, c: f64) -> ColorDials {
    ColorDials { gamma: g.to_bits(), brightness: b.to_bits(), contrast: c.to_bits() }
}

fn store3() -> PresetStore {
    let mut s = PresetStore::default();
    s.add("a".to_string());
    s.add("b".to_string());
    s
}

#[test]
fn selecting_normal_restores_native() {
    let mut s = store3();
    s.active = "p1".to_string();
    let (p, a) = apply_slot(&mut s, "Normal").unwrap();
    assert_eq!(p.slot, "Normal");
    assert_eq!(a, ColorAction::RestoreNative);
    assert_eq!(s.active, "Normal");
}

#[test]
fn selecting_user_preset_applies_its_color() {
    let mut s = store3();
    s.update("p2", dials(1.5, 0.1, 1.2), 80);
    let (p, a) = apply_slot(&mut s, "p2").unwrap();
    assert_eq!(p.name, "b");
    assert_eq!(a, ColorAction::Apply { dials: dials(1.5, 0.1, 1.2), vibrance: 80 });
    assert_eq!(s.active, "p2");
    assert_eq!(apply_slot(&mut s, "p9").unwrap_err(), "unknown slot");
    assert_eq!(s.active, "p2");
}

#[test]
fn boot_applies_active_preset() {
    let mut s = store3();
    assert_eq!(boot_action(&s), Some(ColorAction::RestoreNative));
    s.active = "p1".to_string();
    assert_eq!(boot_action(&s), Some(ColorAction::Apply { dials: ColorDials::default(), vibrance: 0 }));
    s.active = "gone".to_string();
    assert_eq!(boot_action(&s), None);
}

#[test]
fn normal_is_read_only_for_edits() {
    let mut s = store3();
    assert_eq!(save_preset(&mut s, "Normal", dials(2.0, 0.0, 1.0), 3).unwrap_err(), "Normal baseline is read-only");
    save_preset(&mut s, "p1", dials(2.0, 0.0, 1.0), 3).unwrap();
    assert_eq!(s.get("p1").unwrap().vibrance, 3);
    assert!(save_preset(&mut s, "p9", dials(2.0, 0.0, 1.0), 3).is_ok());
}

#[test]
fn created_preset_seeds_driver_default() {
    let mut s = PresetStore::default();
    let p = create_preset(&mut s, "New".to_string(), Some(100));
    assert_eq!(p.slot, "p1");
    assert_eq!(p.vibrance, 100);
    assert_eq!(s.get("p1").unwrap().vibrance, 100);
    let q = create_preset(&mut s, "Other".to_string(), None);
    assert_eq!(q.vibrance, 0);
    assert_eq!(s.get("p2").unwrap().vibrance, 0);
}

#[test]
fn cycling_wraps_through_normal() {
    let mut s = store3();
    assert_eq!(cycle_slot(&s).as_deref(), Some("p1"));
    s.active = "p1".to_string();
    assert_eq!(cycle_slot(&s).as_deref(), Some("p2"));
    s.active = "p2".to_string();
    assert_eq!(cycle_slot(&s).as_deref(), Some("Normal"));
    s.active = "missing".to_string();
    assert_eq!(cycle_slot(&s).as_deref(), Some("p1"));
    assert_eq!(cycle_slot(&PresetStore::default()), None);
}

#[test]
fn hotkeys_pick_slots() {
    let s = store3();
    assert_eq!(hotkey_slot(&s, Hotkey::Normal).as_deref(), Some("Normal"));
    assert_eq!(hotkey_slot(&s, Hotkey::Cycle).as_deref(), Some("p1"));
}

#[test]
fn auto_switch_reverts_to_manual_pick() {
    let manual = "p2".to_string();
    assert_eq!(watch_target(Some("p1".to_string()), &manual), "p1");
    assert_eq!(watch_target(None, &manual), "p2");
}

#[test]
fn tray_actions() {
    assert_eq!(parse_tray_action("show").unwrap(), TrayAction::Show);
    assert_eq!(parse_tray_action("reset").unwrap(), TrayAction::Reset);
    assert_eq!(parse_tray_action("quit").unwrap(), TrayAction::Quit);
    assert_eq!(parse_tray_action("Quit").unwrap_err(), "unknown tray action");
}

#[test]
fn only_https_urls_open() {
    assert!(check_url("https://github.com").is_ok());
    assert!(check_url("https://").is_ok());
    assert_eq!(check_url("http://example.com").unwrap_err(), "only https URLs can be opened");
    assert_eq!(check_url("file:///c:/x").unwrap_err(), "only https URLs can be opened");
    assert_eq!(check_url("").unwrap_err(), "only https URLs can be opened");
}
