use i3_awm::i3::Workspace;
use i3_awm::layout::{snapshot, update_workspaces};
use i3_awm::memory::Memory;
use i3_awm::names::NameSet;
use i3_awm::output::OutputInfo;
use i3_awm::reconcile::reconcile;
use i3_awm::restore::{
    current_primary, find_output, format_mode, format_position, restore_output, restore_step,
    RestoreAction, RestoreEvent, MAX_CHECKS, PAUSE_MS,
};
use i3_awm::xrandr::{connected_names, parse, parse_mode_resolution};

const DOCKED: &str = "eDP-1 connected 1280x720+0+0
   1280x720 60.00 +
DP-2 connected primary 1920x1080+1280+-40
   3840x2160 60.00 +
";

const UNDOCKED: &str = "eDP-1 connected primary 1280x720+0+0
DP-2 disconnected
";

const REPLUGGED: &str = "eDP-1 connected primary 1280x720+0+0
DP-2 connected
   3840x2160 60.00 +
";

fn workspace(name: &str, output: &str) -> Workspace {
    Workspace { name: name.to_string(), output: output.to_string(), focused: false }
}

fn strings(list: &[&str]) -> Vec<String> {
    list.iter().map(|s| s.to_string()).collect()
}

fn pairs(list: &[(&str, &str)]) -> Vec<(String, String)> {
    list.iter().map(|p| (p.0.to_string(), p.1.to_string())).collect()
}

fn names(list: &[&str]) -> NameSet {
    let mut set = NameSet::new();
    for name in list {
        set.insert(name);
    }
    set
}

#[test]
fn snapshot_records_active_outputs_only() {
    let mut memory = Memory::new();
    snapshot(&mut memory, &parse("A connected 1x2+3+4\nB connected\nC disconnected 5x6+7+8\n"));
    let a = memory.get("A").unwrap();
    assert_eq!(a.resolution, Some((1, 2)));
    assert_eq!(a.position, Some((3, 4)));
    assert!(!a.primary);
    assert!(memory.get("B").is_none());
    assert!(memory.get("C").is_none());
}

#[test]
fn snapshot_keeps_what_was_not_reported() {
    let mut memory = Memory::new();
    memory.entry("A").resolution = Some((1, 2));
    memory.entry("A").workspaces = strings(&["1"]);
    let odd = OutputInfo {
        name: "A".to_string(),
        connected: true,
        active: true,
        primary: true,
        resolution: None,
        position: None,
        preferred: None,
    };
    snapshot(&mut memory, &[odd.clone()]);
    let a = memory.get("A").unwrap();
    assert_eq!(a.resolution, Some((1, 2)));
    assert_eq!(a.position, None);
    assert!(a.primary);
    assert_eq!(a.workspaces, strings(&["1"]));
}

#[test]
fn workspaces_of_connected_outputs_are_refreshed() {
    let mut memory = Memory::new();
    memory.entry("DP-1").workspaces = strings(&["old"]);
    memory.entry("DP-2").workspaces = strings(&["kept"]);
    let mapping = pairs(&[("1", "DP-1"), ("2", "eDP-1"), ("3", "DP-1"), ("4", "HDMI-1")]);
    update_workspaces(&mut memory, Some(&mapping), &names(&["DP-1", "DP-2", "eDP-1"]));
    assert_eq!(memory.get("DP-1").unwrap().workspaces, strings(&["1", "3"]));
    assert_eq!(memory.get("DP-2").unwrap().workspaces, strings(&["kept"]));
    assert_eq!(memory.get("eDP-1").unwrap().workspaces, strings(&["2"]));
    assert!(memory.get("HDMI-1").is_none());
    update_workspaces(&mut memory, None, &names(&["DP-1"]));
    assert_eq!(memory.get("DP-1").unwrap().workspaces, strings(&["1", "3"]));
}

#[test]
fn replugged_monitor_is_restored() {
    let mut memory = Memory::new();
    let mut previous = connected_names(&parse(DOCKED));

    let docked = vec![workspace("1", "eDP-1"), workspace("2", "DP-2"), workspace("3", "DP-2")];
    let changes = reconcile(&mut memory, &mut previous, &parse(DOCKED), &parse(DOCKED), Some(&docked));
    assert!(changes.connected.is_empty() && changes.disconnected.is_empty());

    let rehomed = vec![workspace("1", "eDP-1"), workspace("2", "eDP-1"), workspace("3", "eDP-1")];
    let outputs = parse(UNDOCKED);
    let changes = reconcile(&mut memory, &mut previous, &outputs, &outputs, Some(&rehomed));
    assert!(changes.connected.is_empty());
    assert_eq!(changes.disconnected, strings(&["DP-2"]));
    assert_eq!(previous.len(), 1);

    // The memory survives a restart in between.
    let mut memory = Memory::load(Some(memory.save()));

    let outputs = parse(REPLUGGED);
    let changes = reconcile(&mut memory, &mut previous, &outputs, &outputs, Some(&rehomed));
    assert_eq!(changes.connected, strings(&["DP-2"]));
    assert!(changes.disconnected.is_empty());

    let plan = restore_output(&memory, &outputs, "DP-2");
    assert_eq!(
        plan.arguments,
        strings(&["--output", "DP-2", "--mode", "1920x1080", "--pos", "1280x-40", "--primary"])
    );
    assert_eq!(plan.workspaces, strings(&["2", "3"]));

    let changes = reconcile(&mut memory, &mut previous, &outputs, &outputs, None);
    assert!(changes.connected.is_empty());
}

#[test]
fn new_monitor_stands_right_of_the_primary() {
    let plan = restore_output(&Memory::new(), &parse(REPLUGGED), "DP-2");
    assert_eq!(
        plan.arguments,
        strings(&["--output", "DP-2", "--mode", "3840x2160", "--right-of", "eDP-1"])
    );
    assert!(plan.workspaces.is_empty());
}

#[test]
fn monitor_without_modes_gets_auto() {
    let plan = restore_output(&Memory::new(), &parse("DP-2 connected\n"), "DP-2");
    assert_eq!(plan.arguments, strings(&["--output", "DP-2", "--auto"]));
    let alone = restore_output(&Memory::new(), &parse("A connected primary 1x1+0+0\n"), "A");
    assert_eq!(alone.arguments, strings(&["--output", "A", "--auto"]));
    let absent = restore_output(&Memory::new(), &[], "A");
    assert_eq!(absent.arguments, strings(&["--output", "A", "--auto"]));
}

#[test]
fn primary_must_be_active() {
    assert_eq!(current_primary(&parse("A connected primary\nB connected 1x1+0+0\n")), None);
    assert_eq!(current_primary(&parse(REPLUGGED)), Some("eDP-1".to_string()));
    assert!(find_output(&parse(REPLUGGED), "DP-2").is_some());
    assert!(find_output(&parse(REPLUGGED), "DP-3").is_none());
}

#[test]
fn modes_and_positions_are_written() {
    assert_eq!(format_mode(1920, 1080), "1920x1080");
    assert_eq!(format_position(-1280, 0), "-1280x0");
    assert_eq!(parse_mode_resolution(&format_mode(1366, 768)), Some((1366, 768)));
}

#[test]
fn failed_apply_stops_the_restoration() {
    assert_eq!(restore_step(0, RestoreEvent::Applied(false)).1, RestoreAction::Stop);
}

#[test]
fn wait_for_i3_is_bounded() {
    let (mut failures, mut action) = restore_step(7, RestoreEvent::Applied(true));
    assert_eq!((failures, action), (0, RestoreAction::Check));
    let mut pauses = 0;
    while action != RestoreAction::PauseThenMove {
        assert_eq!(restore_step(failures, RestoreEvent::Checked(true)).1, RestoreAction::Move);
        let next = restore_step(failures, RestoreEvent::Checked(false));
        failures = next.0;
        action = next.1;
        pauses += 1;
    }
    assert_eq!(pauses, 20);
    assert_eq!(failures, MAX_CHECKS);
    assert_eq!(pauses * PAUSE_MS, 2000);
}

#[test]
fn output_is_restored_once_per_connect() {
    let mut memory = Memory::new();
    let mut previous = connected_names(&parse(UNDOCKED));
    let mut restored = Vec::new();
    for report in [UNDOCKED, REPLUGGED, DOCKED, DOCKED, UNDOCKED, UNDOCKED, DOCKED] {
        let outputs = parse(report);
        let changes = reconcile(&mut memory, &mut previous, &outputs, &outputs, None);
        restored.push(changes.connected.len());
    }
    assert_eq!(restored, vec![0, 1, 0, 0, 0, 0, 1]);
}

#[test]
fn last_seen_geometry_and_workspaces_are_remembered_apart() {
    let mut memory = Memory::new();
    let connected = names(&["eDP-1", "DP-2"]);
    snapshot(&mut memory, &parse(DOCKED));
    update_workspaces(&mut memory, Some(&pairs(&[("2", "DP-2")])), &connected);
    snapshot(&mut memory, &parse("DP-2 connected 800x600+0+5\n"));
    update_workspaces(&mut memory, Some(&pairs(&[("4", "DP-2"), ("1", "eDP-1")])), &connected);
    snapshot(&mut memory, &parse(UNDOCKED));
    update_workspaces(&mut memory, Some(&pairs(&[("4", "eDP-1")])), &names(&["eDP-1"]));
    // i3 may still list the output when it is gone already.
    update_workspaces(&mut memory, Some(&pairs(&[("9", "DP-2")])), &names(&["eDP-1"]));
    update_workspaces(&mut memory, None, &connected);
    let plan = restore_output(&memory, &parse(REPLUGGED), "DP-2");
    assert_eq!(plan.arguments, strings(&["--output", "DP-2", "--mode", "800x600", "--pos", "0x5"]));
    assert_eq!(plan.workspaces, strings(&["4"]));
}
