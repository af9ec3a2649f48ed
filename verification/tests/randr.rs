use i3_awm::randr;
use i3_awm::randr::{
    needs_crtc, query, try_query, CrtcReply, ModeInfo, OutputReply, ScreenReply, SettleAction,
    SettleEvent,
};
use i3_awm::randr_events;
use i3_awm::randr_events::{LayoutEvent, WatchAction};

fn crtc(mode: u32) -> CrtcReply {
    CrtcReply { mode, x: -10, y: 20, width: 1920, height: 1080 }
}

fn reply(name: &[u8], connection: u8, crtc: u32, crtc_reply: Option<CrtcReply>) -> OutputReply {
    OutputReply {
        name: name.to_vec(),
        connection,
        crtc,
        modes: vec![7, 8],
        num_preferred: 1,
        crtc_reply,
    }
}

fn screen(outputs: Vec<(u32, Option<OutputReply>)>) -> ScreenReply {
    ScreenReply {
        modes: vec![
            ModeInfo { id: 7, width: 1, height: 1 },
            ModeInfo { id: 8, width: 800, height: 600 },
            ModeInfo { id: 7, width: 2560, height: 1440 },
        ],
        primary: 42,
        outputs,
    }
}

#[test]
fn enabled_output_has_the_geometry_of_its_crtc() {
    let outputs = try_query(&screen(vec![(42, Some(reply(b"DP-1", 0, 5, Some(crtc(7)))))]));
    assert_eq!(outputs.len(), 1);
    let output = &outputs[0];
    assert_eq!(output.name, "DP-1");
    assert!(output.connected && output.active && output.primary);
    assert_eq!(output.resolution, Some((1920, 1080)));
    assert_eq!(output.position, Some((-10, 20)));
    assert_eq!(output.preferred, Some((2560, 1440)));
}

#[test]
fn output_without_crtc_or_mode_is_inactive() {
    let outputs = try_query(&screen(vec![
        (1, Some(reply(b"A", 0, 0, Some(crtc(7))))),
        (2, Some(reply(b"B", 1, 5, Some(crtc(0))))),
        (3, Some(reply(b"C", 2, 5, None))),
    ]));
    assert_eq!(outputs.len(), 3);
    assert!(outputs[0].connected && !outputs[1].connected && !outputs[2].connected);
    for output in &outputs {
        assert!(!output.active && !output.primary);
        assert_eq!(output.resolution, None);
        assert_eq!(output.position, None);
    }
}

#[test]
fn preferred_mode_must_be_known_and_preferred() {
    let mut unpreferred = reply(b"A", 0, 0, None);
    unpreferred.num_preferred = 0;
    let mut modeless = reply(b"B", 0, 0, None);
    modeless.modes = Vec::new();
    let mut unknown = reply(b"C", 0, 0, None);
    unknown.modes = vec![99];
    let outputs =
        try_query(&screen(vec![(1, Some(unpreferred)), (2, Some(modeless)), (3, Some(unknown))]));
    for output in &outputs {
        assert_eq!(output.preferred, None);
    }
}

#[test]
fn unanswered_outputs_are_left_out() {
    let outputs =
        query(Some(&screen(vec![(1, None), (2, Some(reply(b"caf\xc3\xa9\xff", 0, 0, None)))])));
    assert_eq!(outputs.len(), 1);
    assert_eq!(outputs[0].name, "café\u{fffd}");
    assert!(query(None).is_empty());
}

#[test]
fn crtc_is_asked_for_when_there_is_one() {
    assert!(!needs_crtc(0));
    assert!(needs_crtc(3));
}

#[test]
fn layout_changes_are_reconciled() {
    assert_eq!(randr_events::watch(LayoutEvent::ScreenChange), WatchAction::DrainAndReconcile);
    assert_eq!(randr_events::watch(LayoutEvent::Notify), WatchAction::DrainAndReconcile);
    assert_eq!(randr_events::watch(LayoutEvent::Other), WatchAction::Wait);
    assert_eq!(randr_events::watch(LayoutEvent::Failed), WatchAction::Stop);
}

#[test]
fn bursts_settle() {
    let pause = |pause_ms| SettleAction::PauseAndDrain { pause_ms };
    let received = |event| randr::watch(SettleEvent::Received(event));
    assert_eq!(received(LayoutEvent::ScreenChange), pause(80));
    assert_eq!(received(LayoutEvent::Notify), pause(80));
    assert_eq!(received(LayoutEvent::Other), SettleAction::Wait);
    assert_eq!(received(LayoutEvent::Failed), SettleAction::Stop);
    let drained =
        |saw_more, elapsed_ms| randr::watch(SettleEvent::Drained { saw_more, elapsed_ms });
    assert_eq!(drained(false, 80), SettleAction::Reconcile);
    assert_eq!(drained(true, 80), pause(80));
    assert_eq!(drained(true, 320), pause(80));
    assert_eq!(drained(true, 321), pause(79));
    assert_eq!(drained(true, 399), pause(1));
    assert_eq!(drained(true, 400), SettleAction::Reconcile);
    assert_eq!(drained(true, u64::MAX), SettleAction::Reconcile);
    assert_eq!(randr::watch(SettleEvent::Reconciled), SettleAction::Wait);
}

#[test]
fn busy_burst_is_reconciled_in_time() {
    for late in [0, 7, 50] {
        let mut elapsed_ms = 0;
        let mut pauses = 0;
        let mut action = randr::watch(SettleEvent::Received(LayoutEvent::Notify));
        while let SettleAction::PauseAndDrain { pause_ms } = action {
            assert!(pause_ms > 0 && elapsed_ms + pause_ms <= 400);
            elapsed_ms += pause_ms + late;
            pauses += 1;
            action = randr::watch(SettleEvent::Drained { saw_more: true, elapsed_ms });
        }
        assert_eq!(action, SettleAction::Reconcile);
        assert!(pauses <= 5 && elapsed_ms <= 400 + late);
    }
}
