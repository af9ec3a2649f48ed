//! RandR replies: the current state of the outputs, and how long to let a burst
//! of change events settle.

use crate::output::{outputs_view, OutputInfoView};
use crate::randr_events::{is_layout_change, LayoutEvent};
use crate::text::{lossy_text, text_from_bytes};
use std::collections::HashMap;
use vstd::prelude::*;
use vstd::utf8::{decode_utf8, valid_utf8};

pub use crate::output::OutputInfo;

verus! {

broadcast use vstd::std_specs::hash::group_hash_axioms;

/// The connection status of an output that a monitor is plugged into.
pub const CONNECTED: u8 = 0;

/// After the first event of a burst, wait this long with no further events
/// before reconciling, so the simultaneous events of a single plug/unplug
/// collapse into one reconcile. In milliseconds.
pub const SETTLE_MS: u64 = 80;

/// Never wait longer than this for a burst to go quiet, so we react promptly
/// even while a monitor is still emitting negotiation events. In milliseconds.
pub const MAX_SETTLE_MS: u64 = 400;

/// A mode that the screen offers.
#[derive(Clone, Copy, Debug)]
pub struct ModeInfo {
    pub id: u32,
    pub width: u16,
    pub height: u16,
}

/// The state of a CRTC.
#[derive(Clone, Copy, Debug)]
pub struct CrtcReply {
    /// The mode that the CRTC shows, 0 for none.
    pub mode: u32,
    pub x: i16,
    pub y: i16,
    pub width: u16,
    pub height: u16,
}

/// What the server says of an output.
#[derive(Debug)]
pub struct OutputReply {
    pub name: Vec<u8>,
    /// The connection status.
    pub connection: u8,
    /// The CRTC that drives the output, 0 for none.
    pub crtc: u32,
    /// The modes of the monitor, the preferred ones first.
    pub modes: Vec<u32>,
    /// How many of the modes are preferred.
    pub num_preferred: u16,
    /// What the server says of the CRTC, if it was asked and answered.
    pub crtc_reply: Option<CrtcReply>,
}

/// What the server says of the screen.
#[derive(Debug)]
pub struct ScreenReply {
    pub modes: Vec<ModeInfo>,
    /// The primary output.
    pub primary: u32,
    /// Every output, with the reply for it unless the request failed.
    pub outputs: Vec<(u32, Option<OutputReply>)>,
}

/// The dimensions of each mode; of two modes with one id the later counts.
pub open spec fn dimensions_of(modes: Seq<ModeInfo>) -> Map<u32, (u32, u32)>
    decreases modes.len(),
{
    if modes.len() == 0 {
        Map::empty()
    } else {
        dimensions_of(modes.drop_last()).insert(
            modes.last().id,
            (modes.last().width as u32, modes.last().height as u32),
        )
    }
}

/// The preferred mode of an output: the first of its modes, if any is
/// preferred and the screen knows it.
pub open spec fn preferred_of(reply: OutputReply, dimensions: Map<u32, (u32, u32)>) -> Option<
    (u32, u32),
> {
    if reply.num_preferred > 0 && reply.modes@.len() > 0 && dimensions.contains_key(
        reply.modes@[0],
    ) {
        Some(dimensions[reply.modes@[0]])
    } else {
        None
    }
}

/// The CRTC that enables an output: a non-zero CRTC with a real mode.
pub open spec fn enabling_crtc(reply: OutputReply) -> Option<CrtcReply> {
    match reply.crtc_reply {
        Some(crtc) if reply.crtc != 0 && crtc.mode != 0 => Some(crtc),
        _ => None,
    }
}

/// The state of an output as its reply tells it.
pub open spec fn info_of(
    id: u32,
    reply: OutputReply,
    primary: u32,
    dimensions: Map<u32, (u32, u32)>,
) -> OutputInfoView {
    OutputInfoView {
        name: lossy_text(reply.name@),
        connected: reply.connection == CONNECTED,
        active: enabling_crtc(reply) is Some,
        primary: id == primary,
        resolution: match enabling_crtc(reply) {
            Some(crtc) => Some((crtc.width as u32, crtc.height as u32)),
            None => None,
        },
        position: match enabling_crtc(reply) {
            Some(crtc) => Some((crtc.x as i32, crtc.y as i32)),
            None => None,
        },
        preferred: preferred_of(reply, dimensions),
    }
}

/// The state of every output that the server answered for, in order.
pub open spec fn infos_of(
    outputs: Seq<(u32, Option<OutputReply>)>,
    primary: u32,
    dimensions: Map<u32, (u32, u32)>,
) -> Seq<OutputInfoView>
    decreases outputs.len(),
{
    if outputs.len() == 0 {
        Seq::empty()
    } else {
        let earlier = infos_of(outputs.drop_last(), primary, dimensions);
        match outputs.last().1 {
            Some(reply) => earlier.push(info_of(outputs.last().0, reply, primary, dimensions)),
            None => earlier,
        }
    }
}

/// Whether bytes, if they are valid UTF-8, are read as the characters they
/// encode.
pub open spec fn reads_utf8(bytes: Seq<u8>) -> bool {
    valid_utf8(bytes) ==> lossy_text(bytes) == decode_utf8(bytes)
}

/// Whether the names of all outputs that the server answered for are read so.
pub open spec fn names_read_utf8(outputs: Seq<(u32, Option<OutputReply>)>) -> bool {
    forall|i: int|
        0 <= i < outputs.len() ==> ((#[trigger] outputs[i]).1 matches Some(reply) ==> reads_utf8(
            reply.name@,
        ))
}

/// An output is read as active exactly when a CRTC enables it: it then has a
/// resolution and a position, and otherwise neither.
pub proof fn law_active_outputs_have_geometry(
    outputs: Seq<(u32, Option<OutputReply>)>,
    primary: u32,
    dimensions: Map<u32, (u32, u32)>,
)
    ensures
        forall|i: int|
            0 <= i < infos_of(outputs, primary, dimensions).len() ==> {
                let output = #[trigger] infos_of(outputs, primary, dimensions)[i];
                &&& output.active <==> output.resolution is Some
                &&& output.active <==> output.position is Some
            },
    decreases outputs.len(),
{
    if outputs.len() > 0 {
        law_active_outputs_have_geometry(outputs.drop_last(), primary, dimensions);
        let earlier = infos_of(outputs.drop_last(), primary, dimensions);
        let now = infos_of(outputs, primary, dimensions);
        assert forall|i: int| 0 <= i < now.len() implies {
            let output = #[trigger] now[i];
            &&& output.active <==> output.resolution is Some
            &&& output.active <==> output.position is Some
        } by {
            if i < earlier.len() {
                assert(now[i] == earlier[i]);
            }
        }
    }
}

/// Map each mode id to its pixel dimensions, to resolve preferred modes.
fn mode_dimensions(modes: &Vec<ModeInfo>) -> (dimensions: HashMap<u32, (u32, u32)>)
    ensures
        dimensions@ == dimensions_of(modes@),
{
    let mut dimensions: HashMap<u32, (u32, u32)> = HashMap::new();
    assert(modes@.take(0) =~= Seq::<ModeInfo>::empty());
    let mut i: usize = 0;
    while i < modes.len()
        invariant
            i <= modes@.len(),
            dimensions@ == dimensions_of(modes@.take(i as int)),
        decreases modes.len() - i,
    {
        let mode = modes[i];
        assert(modes@.take(i + 1).drop_last() =~= modes@.take(i as int));
        dimensions.insert(mode.id, (mode.width as u32, mode.height as u32));
        i += 1;
    }
    assert(modes@.take(i as int) =~= modes@);
    dimensions
}

/// Tests whether the CRTC of an output is to be asked for: only a non-zero CRTC
/// can enable it.
pub fn needs_crtc(crtc: u32) -> (needed: bool)
    ensures
        needed == (crtc != 0),
{
    crtc != 0
}

/// Reads the state of one output from the reply for it.
fn output_info(
    id: u32,
    reply: &OutputReply,
    primary: u32,
    dimensions: &HashMap<u32, (u32, u32)>,
) -> (info: OutputInfo)
    ensures
        info@ == info_of(id, *reply, primary, dimensions@),
        reads_utf8(reply.name@),
{
    let preferred = if reply.num_preferred > 0 && reply.modes.len() > 0 {
        match dimensions.get(&reply.modes[0]) {
            Some(size) => Some(*size),
            None => None,
        }
    } else {
        None
    };
    let mut info = OutputInfo {
        name: text_from_bytes(reply.name.as_slice()),
        connected: reply.connection == CONNECTED,
        active: false,
        primary: id == primary,
        resolution: None,
        position: None,
        preferred,
    };
    if let Some(crtc) = reply.crtc_reply {
        if reply.crtc != 0 && crtc.mode != 0 {
            info.active = true;
            info.resolution = Some((crtc.width as u32, crtc.height as u32));
            info.position = Some((crtc.x as i32, crtc.y as i32));
        }
    }
    info
}

/// Reads the state of every output from the replies.
pub fn try_query(screen: &ScreenReply) -> (outputs: Vec<OutputInfo>)
    ensures
        outputs_view(outputs@) == infos_of(
            screen.outputs@,
            screen.primary,
            dimensions_of(screen.modes@),
        ),
        names_read_utf8(screen.outputs@),
{
    let dimensions = mode_dimensions(&screen.modes);
    let mut outputs: Vec<OutputInfo> = Vec::new();
    let ghost known = dimensions@;
    assert(screen.outputs@.take(0) =~= Seq::<(u32, Option<OutputReply>)>::empty());
    assert(outputs_view(outputs@) =~= Seq::<OutputInfoView>::empty());
    let mut i: usize = 0;
    while i < screen.outputs.len()
        invariant
            i <= screen.outputs@.len(),
            known == dimensions@,
            outputs_view(outputs@) == infos_of(
                screen.outputs@.take(i as int),
                screen.primary,
                known,
            ),
            forall|k: int|
                0 <= k < i ==> ((#[trigger] screen.outputs@[k]).1 matches Some(reply)
                    ==> reads_utf8(reply.name@)),
        decreases screen.outputs.len() - i,
    {
        let ghost earlier = outputs_view(outputs@);
        assert(screen.outputs@.take(i + 1).drop_last() =~= screen.outputs@.take(i as int));
        let id = screen.outputs[i].0;
        if let Some(reply) = &screen.outputs[i].1 {
            let info = output_info(id, reply, screen.primary, &dimensions);
            let ghost seen = info@;
            outputs.push(info);
            assert(outputs_view(outputs@) =~= earlier.push(seen));
        }
        i += 1;
    }
    assert(screen.outputs@.take(i as int) =~= screen.outputs@);
    outputs
}

/// Reads the current state of every output; without replies there is none.
pub fn query(screen: Option<&ScreenReply>) -> (outputs: Vec<OutputInfo>)
    ensures
        outputs_view(outputs@) == (match screen {
            Some(reply) => infos_of(reply.outputs@, reply.primary, dimensions_of(reply.modes@)),
            None => Seq::empty(),
        }),
        screen matches Some(reply) ==> names_read_utf8(reply.outputs@),
{
    match screen {
        Some(reply) => try_query(reply),
        None => {
            let outputs: Vec<OutputInfo> = Vec::new();
            assert(outputs_view(outputs@) =~= Seq::<OutputInfoView>::empty());
            outputs
        },
    }
}

/// What came of the last step of the watcher.
#[derive(Clone, Copy, Debug, PartialEq, Eq, Structural)]
pub enum SettleEvent {
    /// Waiting for an event ended.
    Received(LayoutEvent),
    /// After a pause the queue was drained: whether it held events, and how
    /// long ago the burst began, in milliseconds.
    Drained { saw_more: bool, elapsed_ms: u64 },
    /// The change was reconciled.
    Reconciled,
}

/// What the watcher does next.
#[derive(Clone, Copy, Debug, PartialEq, Eq, Structural)]
pub enum SettleAction {
    /// Wait for the next event.
    Wait,
    /// Pause for so many milliseconds, then drain the queue.
    PauseAndDrain { pause_ms: u64 },
    /// Reconcile.
    Reconcile,
    /// Stop watching.
    Stop,
}

/// How long to pause once a burst has lasted `elapsed_ms`: never past the time
/// that a burst may take.
pub open spec fn pause_after(elapsed_ms: u64) -> u64 {
    if elapsed_ms + SETTLE_MS <= MAX_SETTLE_MS {
        SETTLE_MS
    } else {
        (MAX_SETTLE_MS - elapsed_ms) as u64
    }
}

/// How the watcher goes on. A layout change begins a burst; the burst is over
/// once a pause brought no events, or once it has lasted long enough.
pub open spec fn settle_next(event: SettleEvent) -> SettleAction {
    match event {
        SettleEvent::Received(received) => if is_layout_change(received) {
            SettleAction::PauseAndDrain { pause_ms: SETTLE_MS }
        } else if received == LayoutEvent::Failed {
            SettleAction::Stop
        } else {
            SettleAction::Wait
        },
        SettleEvent::Drained { saw_more, elapsed_ms } => if saw_more && elapsed_ms
            < MAX_SETTLE_MS {
            SettleAction::PauseAndDrain { pause_ms: pause_after(elapsed_ms) }
        } else {
            SettleAction::Reconcile
        },
        SettleEvent::Reconciled => SettleAction::Wait,
    }
}

/// Decides how the watcher goes on.
pub fn watch(event: SettleEvent) -> (action: SettleAction)
    ensures
        action == settle_next(event),
{
    match event {
        SettleEvent::Received(LayoutEvent::ScreenChange) => SettleAction::PauseAndDrain {
            pause_ms: SETTLE_MS,
        },
        SettleEvent::Received(LayoutEvent::Notify) => SettleAction::PauseAndDrain {
            pause_ms: SETTLE_MS,
        },
        SettleEvent::Received(LayoutEvent::Other) => SettleAction::Wait,
        SettleEvent::Received(LayoutEvent::Failed) => SettleAction::Stop,
        SettleEvent::Drained { saw_more, elapsed_ms } => if !saw_more || elapsed_ms
            >= MAX_SETTLE_MS {
            SettleAction::Reconcile
        } else if elapsed_ms <= MAX_SETTLE_MS - SETTLE_MS {
            SettleAction::PauseAndDrain { pause_ms: SETTLE_MS }
        } else {
            SettleAction::PauseAndDrain { pause_ms: MAX_SETTLE_MS - elapsed_ms }
        },
        SettleEvent::Reconciled => SettleAction::Wait,
    }
}

/// Every burst ends: once it has lasted long enough it is reconciled, though
/// events still arrive; and a pause without events is never prolonged.
pub proof fn law_settling_is_bounded(saw_more: bool, elapsed_ms: u64)
    ensures
        elapsed_ms >= MAX_SETTLE_MS ==> settle_next(SettleEvent::Drained { saw_more, elapsed_ms })
            == SettleAction::Reconcile,
        !saw_more ==> settle_next(SettleEvent::Drained { saw_more, elapsed_ms })
            == SettleAction::Reconcile,
{
}

/// No pause leads past the time that a burst may take, neither the first one nor
/// a later one, and none is empty.
pub proof fn law_pauses_keep_the_limit(event: SettleEvent)
    ensures
        settle_next(event) matches SettleAction::PauseAndDrain { pause_ms } ==> {
            &&& 0 < pause_ms <= SETTLE_MS
            &&& match event {
                SettleEvent::Drained { elapsed_ms, .. } => elapsed_ms + pause_ms <= MAX_SETTLE_MS,
                _ => pause_ms <= MAX_SETTLE_MS,
            }
        },
{
}

/// Whether a burst that never goes quiet can run so: `elapsed[i]` is how long it
/// has lasted after its pause number `i`, each but the last of these is followed
/// by another pause, and no pause is shorter than it was meant to be.
pub open spec fn busy_burst(elapsed: Seq<u64>) -> bool {
    &&& elapsed.len() > 0
    &&& elapsed[0] >= SETTLE_MS
    &&& forall|i: int|
        0 <= i < elapsed.len() - 1 ==> (settle_next(
            SettleEvent::Drained { saw_more: true, elapsed_ms: #[trigger] elapsed[i] },
        ) matches SettleAction::PauseAndDrain { pause_ms } && elapsed[i + 1] >= elapsed[i]
            + pause_ms)
}

/// Whether every pause of a burst is exactly as long as it was meant to be, and
/// nothing else takes time.
pub open spec fn punctual(elapsed: Seq<u64>) -> bool {
    &&& elapsed.len() > 0
    &&& elapsed[0] == SETTLE_MS
    &&& forall|i: int|
        0 <= i < elapsed.len() - 1 ==> (settle_next(
            SettleEvent::Drained { saw_more: true, elapsed_ms: #[trigger] elapsed[i] },
        ) matches SettleAction::PauseAndDrain { pause_ms } && elapsed[i + 1] == elapsed[i]
            + pause_ms)
}

/// After `i` more pauses a busy burst has lasted as long as they all take, or as
/// long as it may.
proof fn lemma_burst_progress(elapsed: Seq<u64>, i: int)
    requires
        busy_burst(elapsed),
        0 <= i < elapsed.len(),
    ensures
        elapsed[i] >= MAX_SETTLE_MS || elapsed[i] >= (i + 1) * SETTLE_MS,
    decreases i,
{
    if i > 0 {
        lemma_burst_progress(elapsed, i - 1);
        let before = elapsed[i - 1];
        assert(settle_next(SettleEvent::Drained { saw_more: true, elapsed_ms: before })
            is PauseAndDrain);
        assert((i + 1) * SETTLE_MS == i * SETTLE_MS + SETTLE_MS) by (nonlinear_arith);
    }
}

/// A burst is reconciled after a fixed number of pauses at the latest, though
/// events never stop arriving.
pub proof fn law_pauses_are_limited(elapsed: Seq<u64>)
    requires
        busy_burst(elapsed),
    ensures
        elapsed.len() * SETTLE_MS <= MAX_SETTLE_MS,
{
    if elapsed.len() > 5 {
        lemma_burst_progress(elapsed, 4);
        assert(elapsed[4] >= MAX_SETTLE_MS);
        assert(settle_next(SettleEvent::Drained { saw_more: true, elapsed_ms: elapsed[4] })
            is PauseAndDrain);
    }
}

/// While pauses are punctual, a burst is never waited for longer than it may
/// take, and when it has lasted that long it is reconciled.
pub proof fn law_burst_is_reconciled_in_time(elapsed: Seq<u64>)
    requires
        punctual(elapsed),
    ensures
        elapsed.last() <= MAX_SETTLE_MS,
        elapsed.last() == MAX_SETTLE_MS ==> settle_next(
            SettleEvent::Drained { saw_more: true, elapsed_ms: elapsed.last() },
        ) == SettleAction::Reconcile,
{
    if elapsed.len() > 1 {
        let before = elapsed[elapsed.len() - 2];
        law_pauses_keep_the_limit(SettleEvent::Drained { saw_more: true, elapsed_ms: before });
    }
}

/// The dimensions of a mode are those of the last entry with its id.
pub proof fn law_last_mode_counts(modes: Seq<ModeInfo>, at: int)
    requires
        0 <= at < modes.len(),
        forall|j: int| at < j < modes.len() ==> (#[trigger] modes[j]).id != modes[at].id,
    ensures
        dimensions_of(modes).contains_key(modes[at].id),
        dimensions_of(modes)[modes[at].id] == (modes[at].width as u32, modes[at].height as u32),
    decreases modes.len(),
{
    let rest = modes.drop_last();
    let last = modes.len() - 1;
    if at < last {
        assert(modes[last].id != modes[at].id);
        assert(rest[at] == modes[at]);
        assert forall|j: int| at < j < rest.len() implies (#[trigger] rest[j]).id
            != rest[at].id by {
            assert(rest[j] == modes[j]);
        }
        law_last_mode_counts(rest, at);
    }
}

/// A mode that no entry has is unknown.
pub proof fn law_unlisted_mode_is_unknown(modes: Seq<ModeInfo>, id: u32)
    requires
        forall|i: int| 0 <= i < modes.len() ==> (#[trigger] modes[i]).id != id,
    ensures
        !dimensions_of(modes).contains_key(id),
    decreases modes.len(),
{
    if modes.len() > 0 {
        let rest = modes.drop_last();
        assert forall|i: int| 0 <= i < rest.len() implies (#[trigger] rest[i]).id != id by {
            assert(rest[i] == modes[i]);
        }
        law_unlisted_mode_is_unknown(rest, id);
        assert(modes[modes.len() - 1].id != id);
    }
}

/// Each output that the server answered for is read by itself, in order: replies
/// in two parts are read as the one part and then the other, and an output
/// without a reply is left out.
pub proof fn law_replies_are_read_one_by_one(
    a: Seq<(u32, Option<OutputReply>)>,
    id: u32,
    b: Seq<(u32, Option<OutputReply>)>,
    primary: u32,
    dimensions: Map<u32, (u32, u32)>,
)
    ensures
        infos_of(Seq::empty(), primary, dimensions).len() == 0,
        infos_of(seq![(id, None)], primary, dimensions).len() == 0,
        infos_of(a + b, primary, dimensions) == infos_of(a, primary, dimensions) + infos_of(
            b,
            primary,
            dimensions,
        ),
    decreases b.len(),
{
    reveal_with_fuel(infos_of, 2);
    let none: (u32, Option<OutputReply>) = (id, None);
    assert(seq![none].drop_last() =~= Seq::<(u32, Option<OutputReply>)>::empty());
    if b.len() == 0 {
        assert(a + b =~= a);
    } else {
        law_replies_are_read_one_by_one(a, id, b.drop_last(), primary, dimensions);
        assert((a + b).drop_last() =~= a + b.drop_last());
        assert((a + b).last() == b.last());
    }
    assert(infos_of(a + b, primary, dimensions) =~= infos_of(a, primary, dimensions) + infos_of(
        b,
        primary,
        dimensions,
    ));
}

/// What a reply says of its output, field by field. It is connected when the
/// server says so with a zero, and primary when its id is that of the primary
/// output. It is active when it has a CRTC that answered and shows a mode, and
/// then has the size and place of that CRTC. Its preferred mode is the first of
/// its modes, if it has preferred modes and the size of that one is known.
pub proof fn law_reply_field_by_field(
    id: u32,
    reply: OutputReply,
    primary: u32,
    dimensions: Map<u32, (u32, u32)>,
)
    ensures
        infos_of(seq![(id, Some(reply))], primary, dimensions).len() == 1,
        ({
            let output = infos_of(seq![(id, Some(reply))], primary, dimensions)[0];
            &&& output.name == lossy_text(reply.name@)
            &&& output.connected <==> reply.connection == 0
            &&& output.primary <==> id == primary
            &&& match reply.crtc_reply {
                Some(crtc) => if reply.crtc == 0 || crtc.mode == 0 {
                    !output.active && output.resolution is None && output.position is None
                } else {
                    &&& output.active
                    &&& output.resolution == Some((crtc.width as u32, crtc.height as u32))
                    &&& output.position == Some((crtc.x as i32, crtc.y as i32))
                },
                None => !output.active && output.resolution is None && output.position is None,
            }
            &&& output.preferred is Some <==> reply.num_preferred > 0 && reply.modes@.len() > 0
                && dimensions.contains_key(reply.modes@[0])
            &&& output.preferred matches Some(mode) ==> mode == dimensions[reply.modes@[0]]
        }),
{
    reveal_with_fuel(infos_of, 2);
    let one: Seq<(u32, Option<OutputReply>)> = seq![(id, Some(reply))];
    assert(one.drop_last() =~= Seq::<(u32, Option<OutputReply>)>::empty());
}

/// A burst that is not quiet, and has time left, is paused for again: for the
/// settling time, or for the time left when that is less.
pub proof fn law_busy_bursts_are_paused_for(elapsed_ms: u64)
    requires
        elapsed_ms < MAX_SETTLE_MS,
    ensures
        settle_next(SettleEvent::Drained { saw_more: true, elapsed_ms }) matches
            SettleAction::PauseAndDrain { pause_ms } && (pause_ms == SETTLE_MS || elapsed_ms
            + pause_ms == MAX_SETTLE_MS),
{
}

} // verus!
