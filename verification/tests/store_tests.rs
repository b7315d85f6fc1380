use exfil::gamma::ColorDials;
use exfil::scale::VibranceScale;
use exfil::store::{default_next_id, default_true, import_plan, normal_preset, ImportFile, Preset, PresetStore};

fn dials(g: f64, b: f64, c: f64) -> ColorDials {
    ColorDials { gamma: g.to_bits(), brightness: b.to_bits(), contrast: c.to_bits() }
}

fn preset(slot: &str, name: &str, vibrance: i32, exe: Option<&str>) -> Preset {
    Preset {
        slot: slot.to_string(),
        name: name.to_string(),
        dials: dials(1.2, 0.1, 1.1),
        vibrance,
        exe: exe.map(|e| e.to_string()),
    }
}

fn slots(s: &PresetStore) -> Vec<String> {
    s.presets.iter().map(|p| p.slot.clone()).collect()
}

#[test]
fn default_store_holds_only_normal() {
    let s = PresetStore::default();
    assert_eq!(slots(&s), vec!["Normal"]);
    assert_eq!(s.presets[0].name, "Normal");
    assert_eq!(s.presets[0].vibrance, 0);
    assert!(s.presets[0].exe.is_none());
    assert_eq!(s.presets[0].dials, ColorDials::default());
    assert_eq!(s.active, "Normal");
    assert_eq!(s.next_id, 1);
    assert!(s.autostart);
    assert!(s.hotkeys);
    assert_eq!(default_next_id(), 1);
    assert!(default_true());
    assert_eq!(normal_preset().slot, "Normal");
}

#[test]
fn add_mints_sequential_keys_and_names() {
    let mut s = PresetStore::default();
    let a = s.add("  Valorant  ".to_string());
    assert_eq!(a.slot, "p1");
    assert_eq!(a.name, "Valorant");
    assert_eq!(a.vibrance, 0);
    assert_eq!(a.dials, ColorDials::default());
    let b = s.add("   ".to_string());
    assert_eq!(b.slot, "p2");
    assert_eq!(b.name, "Preset 2");
    let c = s.add(String::new());
    assert_eq!(c.name, "Preset 3");
    assert_eq!(s.next_id, 4);
    assert_eq!(slots(&s), vec!["Normal", "p1", "p2", "p3"]);
}

#[test]
fn deleted_keys_are_never_reused() {
    let mut s = PresetStore::default();
    s.add("a".to_string());
    s.add("b".to_string());
    s.delete("p2").unwrap();
    let c = s.add("c".to_string());
    assert_eq!(c.slot, "p3");
    assert_eq!(slots(&s), vec!["Normal", "p1", "p3"]);
}

#[test]
fn get_finds_by_slot() {
    let mut s = PresetStore::default();
    s.add("a".to_string());
    assert_eq!(s.get("p1").unwrap().name, "a");
    assert_eq!(s.get("Normal").unwrap().name, "Normal");
    assert!(s.get("p9").is_none());
}

#[test]
fn update_changes_dials_and_vibrance_only() {
    let mut s = PresetStore::default();
    s.add("a".to_string());
    s.update("p1", dials(2.0, -0.2, 0.8), 70);
    let p = s.get("p1").unwrap();
    assert_eq!(f64::from_bits(p.dials.gamma), 2.0);
    assert_eq!(p.vibrance, 70);
    assert_eq!(p.name, "a");
    s.update("nope", dials(1.0, 0.0, 1.0), 5);
    assert_eq!(s.presets.len(), 2);
}

#[test]
fn delete_protects_normal_and_rejects_unknown() {
    let mut s = PresetStore::default();
    assert_eq!(s.delete("Normal").unwrap_err(), "Normal baseline cannot be deleted");
    assert_eq!(s.delete("p7").unwrap_err(), "unknown slot");
    assert_eq!(s.presets.len(), 1);
}

#[test]
fn deleting_active_falls_back_to_normal() {
    let mut s = PresetStore::default();
    s.add("a".to_string());
    s.add("b".to_string());
    s.active = "p1".to_string();
    s.delete("p2").unwrap();
    assert_eq!(s.active, "p1");
    s.delete("p1").unwrap();
    assert_eq!(s.active, "Normal");
    assert_eq!(slots(&s), vec!["Normal"]);
}

#[test]
fn rename_trims_and_protects() {
    let mut s = PresetStore::default();
    s.add("a".to_string());
    assert_eq!(s.rename("Normal", "x".to_string()).unwrap_err(), "Normal baseline cannot be renamed");
    assert_eq!(s.rename("p1", "   ".to_string()).unwrap_err(), "name cannot be empty");
    assert_eq!(s.rename("p5", "x".to_string()).unwrap_err(), "unknown slot");
    s.rename("p1", "  CS2 night ".to_string()).unwrap();
    assert_eq!(s.get("p1").unwrap().name, "CS2 night");
    assert_eq!(s.get("p1").unwrap().slot, "p1");
}

#[test]
fn binding_is_trimmed_lowercased_and_exclusive() {
    let mut s = PresetStore::default();
    s.add("a".to_string());
    s.add("b".to_string());
    assert_eq!(s.set_binding("Normal", Some("x.exe".to_string())).unwrap_err(), "Normal baseline cannot be bound");
    assert_eq!(s.set_binding("p9", Some("x.exe".to_string())).unwrap_err(), "unknown slot");
    s.set_binding("p1", Some("  CS2.EXE ".to_string())).unwrap();
    assert_eq!(s.get("p1").unwrap().exe.as_deref(), Some("cs2.exe"));
    s.set_binding("p2", Some("cs2.exe".to_string())).unwrap();
    assert_eq!(s.get("p1").unwrap().exe, None);
    assert_eq!(s.get("p2").unwrap().exe.as_deref(), Some("cs2.exe"));
    s.set_binding("p1", Some("   ".to_string())).unwrap();
    assert_eq!(s.get("p1").unwrap().exe, None);
    s.set_binding("p2", None).unwrap();
    assert_eq!(s.get("p2").unwrap().exe, None);
}

#[test]
fn bindings_lists_bound_presets_in_order() {
    let mut s = PresetStore::default();
    s.add("a".to_string());
    s.add("b".to_string());
    s.add("c".to_string());
    s.set_binding("p3", Some("game.exe".to_string())).unwrap();
    s.set_binding("p1", Some("other.exe".to_string())).unwrap();
    assert_eq!(
        s.bindings(),
        vec![
            ("other.exe".to_string(), "p1".to_string()),
            ("game.exe".to_string(), "p3".to_string())
        ]
    );
}

#[test]
fn user_presets_drop_normal() {
    let mut s = PresetStore::default();
    s.add("a".to_string());
    s.add("b".to_string());
    let u = s.user_presets();
    assert_eq!(u.len(), 2);
    assert_eq!(u[0].slot, "p1");
    assert_eq!(u[1].name, "b");
}

#[test]
fn import_plan_file_shape_keeps_scale_and_user_presets() {
    let nv = VibranceScale { min: 0, max: 100, default: 50 };
    let amd = VibranceScale { min: 0, max: 200, default: 100 };
    let file = ImportFile {
        vibrance_scale: Some(amd),
        presets: vec![
            preset("Normal", "Normal", 0, None),
            preset("p1", " Night ", 75, Some("cs2.exe")),
            preset("", "", 25, None),
        ],
    };
    let (scale, kept) = import_plan(Some(file), Err("unused".to_string())).unwrap();
    assert_eq!(scale, amd);
    assert_eq!(kept.len(), 2);
    assert_eq!(kept[0].name, " Night ");
    assert_eq!(kept[1].vibrance, 25);
    let (scale2, kept2) =
        import_plan(Some(ImportFile { vibrance_scale: None, presets: vec![] }), Err(String::new())).unwrap();
    assert_eq!(scale2, nv);
    assert!(kept2.is_empty());
}

#[test]
fn import_plan_legacy_array_and_invalid_text() {
    let nv = VibranceScale { min: 0, max: 100, default: 50 };
    let (scale, kept) = import_plan(None, Ok(vec![preset("x", "old", 7, None)])).unwrap();
    assert_eq!(scale, nv);
    assert_eq!(kept.len(), 1);
    let e = import_plan(None, Err("expected value at line 1 column 1".to_string())).unwrap_err();
    assert_eq!(e, "invalid preset file: expected value at line 1 column 1");
}

#[test]
fn append_imported_is_additive_with_fresh_keys() {
    let mut s = PresetStore::default();
    s.add("mine".to_string());
    let n = s.append_imported(vec![
        preset("p1", " Night ", 150, Some("cs2.exe")),
        preset("", "", 50, None),
    ]);
    assert_eq!(n, 2);
    assert_eq!(slots(&s), vec!["Normal", "p1", "p2", "p3"]);
    assert_eq!(s.presets[1].name, "mine");
    assert_eq!(s.presets[2].name, "Night");
    assert_eq!(s.presets[2].vibrance, 150);
    assert_eq!(s.presets[2].exe, None);
    assert_eq!(f64::from_bits(s.presets[2].dials.gamma), 1.2);
    assert_eq!(s.presets[3].name, "Preset 3");
    assert_eq!(s.presets[3].vibrance, 50);
    assert_eq!(s.next_id, 4);
}

#[test]
fn export_records_drop_keys_and_bindings() {
    let mut s = PresetStore::default();
    s.add("one".to_string());
    s.add("two".to_string());
    s.update("p2", dials(0.9, 0.2, 0.7), 12);
    s.set_binding("p1", Some("game.exe".to_string())).unwrap();
    let r = s.export_records();
    assert_eq!(r.len(), 2);
    assert_eq!(r[0].name, "one");
    assert_eq!(r[1].name, "two");
    assert_eq!(r[1].vibrance, 12);
    assert_eq!(r[1].dials, dials(0.9, 0.2, 0.7));
}

#[test]
fn clone_keeps_everything() {
    let mut s = PresetStore::default();
    s.add("a".to_string());
    s.set_binding("p1", Some("a.exe".to_string())).unwrap();
    let c = s.clone();
    assert_eq!(slots(&c), slots(&s));
    assert_eq!(c.presets[1].exe.as_deref(), Some("a.exe"));
    assert_eq!(c.next_id, s.next_id);
}

#[test]
fn export_then_import_reproduces_presets() {
    let mut a = PresetStore::default();
    a.add("one".to_string());
    a.add("two".to_string());
    a.update("p1", dials(1.4, -0.1, 1.3), 64);
    a.update("p2", dials(0.9, 0.2, 0.7), 12);
    a.set_binding("p1", Some("game.exe".to_string())).unwrap();
    let nv = VibranceScale { min: 0, max: 100, default: 50 };
    let shared: Vec<Preset> = a
        .export_records()
        .into_iter()
        .map(|r| Preset { slot: String::new(), name: r.name, dials: r.dials, vibrance: r.vibrance, exe: None })
        .collect();
    let (scale, kept) =
        import_plan(Some(ImportFile { vibrance_scale: Some(nv), presets: shared }), Err(String::new())).unwrap();
    assert_eq!(scale, nv);
    let mut b = PresetStore::default();
    b.add("existing".to_string());
    assert_eq!(b.append_imported(kept), 2);
    assert_eq!(slots(&b), vec!["Normal", "p1", "p2", "p3"]);
    assert_eq!(b.presets[2].name, "one");
    assert_eq!(b.presets[2].vibrance, 64);
    assert_eq!(b.presets[2].dials, dials(1.4, -0.1, 1.3));
    assert_eq!(b.presets[2].exe, None);
    assert_eq!(b.presets[3].name, "two");
    assert_eq!(b.presets[3].vibrance, 12);
}

#[test]
fn bind_key_stores_the_key_as_given() {
    let mut s = PresetStore::default();
    s.add("a".to_string());
    s.add("b".to_string());
    assert_eq!(s.bind_key("Normal", Some("x.exe".to_string())).unwrap_err(), "Normal baseline cannot be bound");
    assert_eq!(s.bind_key("p7", Some("x.exe".to_string())).unwrap_err(), "unknown slot");
    s.bind_key("p1", Some("Game.EXE".to_string())).unwrap();
    assert_eq!(s.get("p1").unwrap().exe.as_deref(), Some("Game.EXE"));
    s.bind_key("p2", Some("Game.EXE".to_string())).unwrap();
    assert_eq!(s.get("p1").unwrap().exe, None);
    assert_eq!(s.get("p2").unwrap().exe.as_deref(), Some("Game.EXE"));
    s.bind_key("p2", None).unwrap();
    assert_eq!(s.get("p2").unwrap().exe, None);
}

#[test]
fn bindings_lower_case_exes_read_from_a_file() {
    let mut s = PresetStore::default();
    s.presets.push(preset("p1", "a", 0, Some("CS2.EXE")));
    s.presets.push(preset("p2", "b", 0, None));
    s.presets.push(preset("p3", "c", 0, Some("game.exe")));
    assert_eq!(
        s.bindings(),
        vec![("cs2.exe".to_string(), "p1".to_string()), ("game.exe".to_string(), "p3".to_string())]
    );
    // the stored text itself is left as it was read
    assert_eq!(s.presets[1].exe.as_deref(), Some("CS2.EXE"));
}
