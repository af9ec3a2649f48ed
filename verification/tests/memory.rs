use i3_awm::memory::{Memory, OutputState};
use i3_awm::state_file::{join, state_path};
use std::path::PathBuf;

fn state(primary: bool, workspaces: &[&str]) -> OutputState {
    OutputState {
        resolution: Some((1920, 1080)),
        position: Some((-5, 7)),
        primary,
        workspaces: workspaces.iter().map(|name| name.to_string()).collect(),
    }
}

#[test]
fn unknown_output_starts_blank() {
    let mut memory = Memory::default();
    assert!(memory.get("DP-1").is_none());
    let entry = memory.entry("DP-1");
    assert_eq!(entry.resolution, None);
    assert_eq!(entry.position, None);
    assert!(!entry.primary);
    assert!(entry.workspaces.is_empty());
    assert!(memory.get("DP-1").is_some());
}

#[test]
fn entry_writes_through() {
    let mut memory = Memory::new();
    memory.entry("HDMI-1").resolution = Some((800, 600));
    memory.entry("DP-1").position = Some((1, 2));
    memory.entry("HDMI-1").workspaces = vec!["3".to_string()];
    let hdmi = memory.get("HDMI-1").unwrap();
    assert_eq!(hdmi.resolution, Some((800, 600)));
    assert_eq!(hdmi.workspaces, vec!["3".to_string()]);
    assert_eq!(memory.get("DP-1").unwrap().position, Some((1, 2)));
    assert!(memory.get("DP-10").is_none());
}

#[test]
fn exactly_one_primary_after_set_primary() {
    let mut memory = Memory::new();
    for name in ["eDP-1", "HDMI-1", "DP-2"] {
        memory.entry(name).primary = true;
        memory.entry(name).resolution = Some((1, 1));
    }
    memory.set_primary("HDMI-1");
    let saved = memory.save();
    assert_eq!(saved.len(), 3);
    for (name, state) in &saved {
        assert_eq!(state.primary, name == "HDMI-1");
        assert_eq!(state.resolution, Some((1, 1)));
    }
    memory.set_primary("VGA-1");
    let primaries: Vec<String> = memory
        .save()
        .into_iter()
        .filter(|(_, state)| state.primary)
        .map(|(name, _)| name)
        .collect();
    assert_eq!(primaries, vec!["VGA-1".to_string()]);
}

#[test]
fn missing_record_loads_as_nothing() {
    assert!(Memory::load(None).save().is_empty());
}

#[test]
fn saved_memory_loads_back_in_name_order() {
    let list = vec![
        ("eDP-1".to_string(), state(false, &["9"])),
        ("DP-1".to_string(), state(true, &["1", "2"])),
        ("eDP-1".to_string(), state(true, &[])),
    ];
    let memory = Memory::load(Some(list));
    let saved = memory.save();
    let names: Vec<&str> = saved.iter().map(|entry| entry.0.as_str()).collect();
    assert_eq!(names, vec!["DP-1", "eDP-1"]);
    assert!(saved[1].1.primary && saved[1].1.workspaces.is_empty());
    let again = Memory::load(Some(memory.save()));
    assert_eq!(format!("{:?}", again.save()), format!("{:?}", saved));
    assert_eq!(format!("{:?}", memory.clone().save()), format!("{:?}", saved));
}

fn expected_path(base: &str) -> Vec<u8> {
    PathBuf::from(base).join("i3-awm").join("state.json").to_str().unwrap().as_bytes().to_vec()
}

#[test]
fn state_path_prefers_the_state_home() {
    assert_eq!(state_path(Some(b"/var/state"), Some(b"/home/u")), expected_path("/var/state"));
    assert_eq!(state_path(Some(b"/var/state/"), None), expected_path("/var/state/"));
    assert_eq!(state_path(Some(b"/var/state"), None), b"/var/state/i3-awm/state.json".to_vec());
}

#[test]
fn state_path_falls_back() {
    assert_eq!(state_path(Some(b""), Some(b"/home/u")), expected_path("/home/u/.local/state"));
    assert_eq!(state_path(None, Some(b"/home/u")), expected_path("/home/u/.local/state"));
    assert_eq!(state_path(None, None), expected_path("./.local/state"));
    assert_eq!(state_path(None, Some(b"")), expected_path(".local/state"));
    assert_eq!(state_path(Some(b"\xff"), None), b"\xff/i3-awm/state.json".to_vec());
}

#[test]
fn paths_are_joined_with_one_separator() {
    for base in ["", "/", "a", "a/", "/a/b"] {
        let expected = PathBuf::from(base).join("c");
        assert_eq!(join(base.as_bytes(), "c"), expected.to_str().unwrap().as_bytes().to_vec());
    }
}
