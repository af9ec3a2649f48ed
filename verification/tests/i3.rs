use i3_awm::i3::{
    escape, focused_workspace, move_workspaces_to_output, output_active, workspaces_by_output,
    Output, Workspace,
};
use i3_awm::tracker::{track_i3, TrackerAction, TrackerEvent};

fn workspace(name: &str, output: &str, focused: bool) -> Workspace {
    Workspace { name: name.to_string(), output: output.to_string(), focused }
}

fn strings(list: &[&str]) -> Vec<String> {
    list.iter().map(|s| s.to_string()).collect()
}

#[test]
fn mapping_lists_every_workspace() {
    assert!(workspaces_by_output(None).is_none());
    let listing = vec![workspace("1", "DP-1", false), workspace("2", "eDP-1", true)];
    assert_eq!(
        workspaces_by_output(Some(&listing)),
        Some(vec![
            ("1".to_string(), "DP-1".to_string()),
            ("2".to_string(), "eDP-1".to_string()),
        ])
    );
}

#[test]
fn active_outputs() {
    let listing = vec![
        Output { name: "DP-1".to_string(), active: false },
        Output { name: "eDP-1".to_string(), active: true },
    ];
    assert!(!output_active(None, "eDP-1"));
    assert!(output_active(Some(&listing), "eDP-1"));
    assert!(!output_active(Some(&listing), "DP-1"));
    assert!(!output_active(Some(&listing), "HDMI-1"));
}

#[test]
fn escaping_quotes_and_backslashes() {
    assert_eq!(escape("plain"), "plain");
    assert_eq!(escape("a\"b"), "a\\\"b");
    assert_eq!(escape("a\\b"), "a\\\\b");
    assert_eq!(escape("\\\""), "\\\\\\\"");
    for text in ["", "é\"", "\\\\", "\"\""] {
        assert_eq!(escape(text), text.replace('\\', "\\\\").replace('"', "\\\""));
    }
}

#[test]
fn escaped_text_is_read_to_its_end() {
    for text in ["", "a\"b", "\\", "\\\"", "\"; exit \\"] {
        let escaped = escape(text);
        let mut read = String::new();
        let mut rest = escaped.chars();
        while let Some(c) = rest.next() {
            assert!(c != '"');
            read.push(if c == '\\' { rest.next().unwrap() } else { c });
        }
        assert_eq!(read, text);
    }
}

#[test]
fn workspaces_are_moved_and_focus_restored() {
    let listing = vec![workspace("1", "eDP-1", false), workspace("w\"2", "eDP-1", true)];
    assert_eq!(focused_workspace(&listing), Some(&"w\"2".to_string()));
    assert_eq!(
        move_workspaces_to_output(&strings(&["3", "4: web"]), "DP-1", Some(&listing)),
        strings(&[
            "workspace --no-auto-back-and-forth \"3\"; move workspace to output \"DP-1\"",
            "workspace --no-auto-back-and-forth \"4: web\"; move workspace to output \"DP-1\"",
            "workspace --no-auto-back-and-forth \"w\\\"2\"",
        ])
    );
}

#[test]
fn nothing_to_move_sends_nothing() {
    let listing = vec![workspace("1", "eDP-1", true)];
    assert!(move_workspaces_to_output(&[], "DP-1", Some(&listing)).is_empty());
}

#[test]
fn unknown_focus_is_not_restored() {
    let unfocused = vec![workspace("1", "eDP-1", false)];
    assert_eq!(move_workspaces_to_output(&strings(&["3"]), "DP-1", None).len(), 1);
    assert_eq!(move_workspaces_to_output(&strings(&["3"]), "DP-1", Some(&unfocused)).len(), 1);
}

#[test]
fn tracker_steps() {
    assert_eq!(track_i3(TrackerEvent::Connected(true)), TrackerAction::Subscribe);
    assert_eq!(track_i3(TrackerEvent::Connected(false)), TrackerAction::Reconnect);
    assert_eq!(track_i3(TrackerEvent::Subscribed(true)), TrackerAction::Listen);
    assert_eq!(track_i3(TrackerEvent::Subscribed(false)), TrackerAction::Reconnect);
    assert_eq!(track_i3(TrackerEvent::Workspace), TrackerAction::Refresh);
    assert_eq!(track_i3(TrackerEvent::Other), TrackerAction::Listen);
    assert_eq!(track_i3(TrackerEvent::Failed), TrackerAction::Reconnect);
    assert_eq!(track_i3(TrackerEvent::Ended), TrackerAction::Reconnect);
}
