use exfil::watcher::{exe_basename, is_noise, list_window_programs, process_name, sort_by_keys, window_title, Watcher, WindowProc};

fn win(exe: Option<&str>, title: &str) -> (Option<String>, String) {
    (exe.map(|e| e.to_string()), title.to_string())
}

fn binds(list: &[(&str, &str)]) -> Vec<(String, String)> {
    list.iter().map(|(e, s)| (e.to_string(), s.to_string())).collect()
}

fn running(list: &[&str]) -> Vec<String> {
    list.iter().map(|e| e.to_string()).collect()
}

#[test]
fn noise_list_filters_os_processes() {
    assert!(is_noise("svchost.exe"));
    assert!(is_noise("system idle process"));
    assert!(is_noise("audiodg.exe"));
    assert!(!is_noise("cs2.exe"));
    assert!(!is_noise("SVCHOST.EXE"));
}

#[test]
fn picker_drops_noise_dedups_and_sorts_by_title() {
    let out = list_window_programs(vec![
        win(Some("zed.exe"), "zebra editor"),
        win(Some("svchost.exe"), "Host"),
        win(None, "Unknown"),
        win(Some("cs2.exe"), "Counter-Strike 2"),
        win(Some("zed.exe"), "another zed window"),
        win(Some("b.exe"), "apple"),
    ]);
    let got: Vec<(String, String)> = out.iter().map(|w| (w.exe.clone(), w.title.clone())).collect();
    assert_eq!(
        got,
        vec![
            ("b.exe".to_string(), "apple".to_string()),
            ("cs2.exe".to_string(), "Counter-Strike 2".to_string()),
            ("zed.exe".to_string(), "zebra editor".to_string()),
        ]
    );
}

#[test]
fn picker_sort_is_stable_and_case_insensitive() {
    let out = list_window_programs(vec![
        win(Some("b.exe"), "Game"),
        win(Some("a.exe"), "game"),
        win(Some("c.exe"), "GAME"),
        win(Some("d.exe"), "Alpha"),
    ]);
    let exes: Vec<String> = out.iter().map(|w| w.exe.clone()).collect();
    assert_eq!(exes, vec!["d.exe", "b.exe", "a.exe", "c.exe"]);
}

#[test]
fn first_tick_announces_baseline() {
    let mut w = Watcher::new();
    assert!(!Watcher::wants_snapshot(&Vec::new()));
    assert_eq!(w.tick(Vec::new(), Vec::new()), Some(None));
    assert_eq!(w.tick(Vec::new(), Vec::new()), None);
}

#[test]
fn most_recent_launch_wins_and_exit_reverts() {
    let mut w = Watcher::new();
    let b = binds(&[("a.exe", "p1"), ("b.exe", "p2")]);
    assert!(Watcher::wants_snapshot(&b));
    // nothing bound running: first tick announces the manual pick
    assert_eq!(w.tick(b.clone(), running(&["x.exe"])), Some(None));
    // a starts
    assert_eq!(w.tick(b.clone(), running(&["a.exe"])), Some(Some("p1".to_string())));
    // still running: nothing new
    assert_eq!(w.tick(b.clone(), running(&["a.exe"])), None);
    // b starts later: b wins
    assert_eq!(w.tick(b.clone(), running(&["a.exe", "b.exe"])), Some(Some("p2".to_string())));
    // b exits: a is the winner again
    assert_eq!(w.tick(b.clone(), running(&["a.exe"])), Some(Some("p1".to_string())));
    // a exits: revert
    assert_eq!(w.tick(b.clone(), running(&[])), Some(None));
    // a relaunches: it gets a fresh launch number
    assert_eq!(w.tick(b.clone(), running(&["a.exe"])), Some(Some("p1".to_string())));
    assert_eq!(w.tick(b.clone(), running(&["a.exe", "b.exe"])), Some(Some("p2".to_string())));
}

#[test]
fn clearing_all_bindings_reverts_once() {
    let mut w = Watcher::new();
    let b = binds(&[("a.exe", "p1")]);
    assert_eq!(w.tick(b.clone(), running(&["a.exe"])), Some(Some("p1".to_string())));
    assert_eq!(w.tick(Vec::new(), Vec::new()), Some(None));
    assert_eq!(w.tick(Vec::new(), Vec::new()), None);
    assert!(w.launches.is_empty());
}

#[test]
fn rebinding_to_another_slot_reannounces() {
    let mut w = Watcher::new();
    assert_eq!(w.tick(binds(&[("a.exe", "p1")]), running(&["a.exe"])), Some(Some("p1".to_string())));
    assert_eq!(w.tick(binds(&[("a.exe", "p3")]), running(&["a.exe"])), Some(Some("p3".to_string())));
    assert_eq!(w.counter, 1);
}

fn utf16(s: &str) -> Vec<u16> {
    s.encode_utf16().collect()
}

#[test]
fn basename_of_image_path() {
    assert_eq!(exe_basename("C:\\Games\\CS2\\CS2.exe"), "cs2.exe");
    assert_eq!(exe_basename("/opt/bin/Tool.EXE"), "tool.exe");
    assert_eq!(exe_basename("C:\\mixed/Dir\\Game.exe"), "game.exe");
    assert_eq!(exe_basename("plain.exe"), "plain.exe");
    assert_eq!(exe_basename("C:\\dir\\"), "");
}

#[test]
fn process_names_stop_at_nul_and_lowercase() {
    let mut field = utf16("Steam.EXE");
    field.push(0);
    field.extend(utf16("junk"));
    assert_eq!(process_name(&field).as_deref(), Some("steam.exe"));
    assert_eq!(process_name(&utf16("NoNul.exe")).as_deref(), Some("nonul.exe"));
    assert_eq!(process_name(&vec![0, 65, 66]), None);
    assert_eq!(process_name(&Vec::new()), None);
}

#[test]
fn blank_window_titles_are_skipped() {
    assert_eq!(window_title(&utf16("  Counter-Strike 2 ")).as_deref(), Some("  Counter-Strike 2 "));
    assert_eq!(window_title(&utf16(" \t ")), None);
    assert_eq!(window_title(&Vec::new()), None);
}

fn proc_entry(exe: &str, title: &str) -> WindowProc {
    WindowProc { exe: exe.to_string(), title: title.to_string() }
}

#[test]
fn sort_uses_the_given_keys_stably() {
    let items = vec![proc_entry("a.exe", "Zeta"), proc_entry("b.exe", "Alpha"), proc_entry("c.exe", "Mid")];
    // the keys decide, not the titles; equal keys keep their order
    let keys = vec!["b".to_string(), "c".to_string(), "b".to_string()];
    let out = sort_by_keys(items, keys);
    let exes: Vec<String> = out.iter().map(|w| w.exe.clone()).collect();
    assert_eq!(exes, vec!["a.exe", "c.exe", "b.exe"]);
    assert!(sort_by_keys(Vec::new(), Vec::new()).is_empty());
}

#[test]
fn unbound_running_program_keeps_its_launch_order() {
    let mut w = Watcher::new();
    let both = binds(&[("a.exe", "p1"), ("b.exe", "p2")]);
    assert_eq!(w.tick(both.clone(), running(&["a.exe"])), Some(Some("p1".to_string())));
    assert_eq!(w.tick(both.clone(), running(&["a.exe", "b.exe"])), Some(Some("p2".to_string())));
    // b is unbound for a while but keeps running: a wins meanwhile
    assert_eq!(w.tick(binds(&[("a.exe", "p1")]), running(&["a.exe", "b.exe"])), Some(Some("p1".to_string())));
    // bound again: its launch was first seen after a's, so it wins again
    assert_eq!(w.tick(both.clone(), running(&["a.exe", "b.exe"])), Some(Some("p2".to_string())));
    assert_eq!(w.counter, 2);
}

#[test]
fn announcements_only_on_change_over_many_polls() {
    let mut w = Watcher::new();
    let b = binds(&[("a.exe", "p1")]);
    let mut said = Vec::new();
    for up in [false, false, true, true, true, false, false, true] {
        let r = if up { running(&["a.exe"]) } else { running(&[]) };
        said.push(w.tick(b.clone(), r));
    }
    let p1 = Some(Some("p1".to_string()));
    assert_eq!(said, vec![Some(None), None, p1.clone(), None, None, Some(None), None, p1]);
}

#[test]
fn window_titles_decode_surrogate_pairs_and_replace_lone_ones() {
    let pad = utf16("\u{1F3AE} Arena");
    assert_eq!(pad.len(), 8);
    assert_eq!(window_title(&pad).as_deref(), Some("\u{1F3AE} Arena"));
    let lone = vec![0xD83C, 0x41, 0xDFAE];
    assert_eq!(window_title(&lone).as_deref(), Some("\u{FFFD}A\u{FFFD}"));
    let mut field = vec![0x47, 0xD83C];
    field.push(0);
    assert_eq!(process_name(&field).as_deref(), Some("g\u{FFFD}"));
}
