//! What the memory keeps while monitors come and go.

use crate::layout::{
    listed_and_connected, lists_output, recorded, snapshot_of, with_workspaces, workspaces_on,
    workspaces_updated,
};
use crate::memory::{state_of, OutputStateView};
use crate::output::OutputInfoView;
use crate::reconcile::reconciled;
use crate::restore::{
    mode_arguments, mode_text, output_named, position_arguments, position_text,
    primary_arguments, primary_of, restore_arguments, stored_state,
};
use vstd::prelude::*;

verus! {

/// Something that is seen of the outputs and goes into memory.
pub enum Observation {
    /// The outputs, for their geometry.
    Geometry(Seq<OutputInfoView>),
    /// The workspaces and the outputs they are on, if i3 answered, and the
    /// outputs that are connected.
    Workspaces(Option<Seq<(Seq<char>, Seq<char>)>>, Set<Seq<char>>),
}

/// What is remembered after one observation.
pub open spec fn observed(
    m: Map<Seq<char>, OutputStateView>,
    observation: Observation,
) -> Map<Seq<char>, OutputStateView> {
    match observation {
        Observation::Geometry(outputs) => snapshot_of(m, outputs),
        Observation::Workspaces(mapping, connected) => workspaces_updated(m, mapping, connected),
    }
}

/// What is remembered after a series of observations.
pub open spec fn remembered_after(
    m: Map<Seq<char>, OutputStateView>,
    observations: Seq<Observation>,
) -> Map<Seq<char>, OutputStateView>
    decreases observations.len(),
{
    if observations.len() == 0 {
        m
    } else {
        observed(remembered_after(m, observations.drop_last()), observations.last())
    }
}

/// A reconcile is a look at the geometry and then one at the workspaces.
pub proof fn law_reconcile_observes_twice(
    m: Map<Seq<char>, OutputStateView>,
    connected: Set<Seq<char>>,
    geometry: Seq<OutputInfoView>,
    mapping: Option<Seq<(Seq<char>, Seq<char>)>>,
)
    ensures
        reconciled(m, connected, geometry, mapping) == remembered_after(
            m,
            seq![
                Observation::Geometry(geometry),
                Observation::Workspaces(mapping, connected),
            ],
        ),
{
    let both = seq![
        Observation::Geometry(geometry),
        Observation::Workspaces(mapping, connected),
    ];
    let one = seq![Observation::Geometry(geometry)];
    assert(both.drop_last() =~= one);
    assert(one.drop_last() =~= Seq::<Observation>::empty());
    reveal_with_fuel(remembered_after, 3);
}

/// Whether outputs are seen without one of that name that is connected and
/// active. So it is while a monitor is unplugged, and still when it has just
/// been plugged in and is not enabled yet.
pub open spec fn without_active(outputs: Seq<OutputInfoView>, name: Seq<char>) -> bool {
    forall|i: int|
        0 <= i < outputs.len() && (#[trigger] outputs[i]).name == name ==> !(outputs[i].connected
            && outputs[i].active)
}

/// Whether an observation says nothing of an output: it is not seen active, or
/// it is not connected, or no workspace is on it.
pub open spec fn silent_about(observation: Observation, name: Seq<char>) -> bool {
    match observation {
        Observation::Geometry(outputs) => without_active(outputs, name),
        Observation::Workspaces(mapping, connected) => match mapping {
            Some(pairs) => !(connected.contains(name) && lists_output(pairs, name)),
            None => true,
        },
    }
}

/// A look at the outputs forgets none of them, and touches no workspace list.
pub proof fn law_snapshot_keeps_workspaces(
    m: Map<Seq<char>, OutputStateView>,
    outputs: Seq<OutputInfoView>,
    name: Seq<char>,
)
    ensures
        m.contains_key(name) ==> snapshot_of(m, outputs).contains_key(name),
        state_of(snapshot_of(m, outputs), name).workspaces == state_of(m, name).workspaces,
    decreases outputs.len(),
{
    if outputs.len() > 0 {
        law_snapshot_keeps_workspaces(m, outputs.drop_last(), name);
    }
}

/// A look at the workspaces forgets no output, and touches nothing but workspace
/// lists.
pub proof fn law_update_keeps_geometry(
    m: Map<Seq<char>, OutputStateView>,
    mapping: Option<Seq<(Seq<char>, Seq<char>)>>,
    connected: Set<Seq<char>>,
    name: Seq<char>,
)
    ensures
        m.contains_key(name) ==> workspaces_updated(m, mapping, connected).contains_key(name),
        with_workspaces(
            state_of(workspaces_updated(m, mapping, connected), name),
            state_of(m, name).workspaces,
        ) == state_of(m, name),
{
}

/// The workspace list of an output that has vanished is never cleared: unless
/// the output is connected and i3 lists a workspace on it, all that is
/// remembered of it stays.
pub proof fn law_vanished_output_keeps_its_workspaces(
    m: Map<Seq<char>, OutputStateView>,
    mapping: Option<Seq<(Seq<char>, Seq<char>)>>,
    connected: Set<Seq<char>>,
    name: Seq<char>,
)
    requires
        silent_about(Observation::Workspaces(mapping, connected), name),
    ensures
        stored_state(workspaces_updated(m, mapping, connected), name) == stored_state(m, name),
{
}

/// The workspaces that i3 lists on a connected output are remembered.
pub proof fn law_listed_workspaces_are_remembered(
    m: Map<Seq<char>, OutputStateView>,
    mapping: Seq<(Seq<char>, Seq<char>)>,
    connected: Set<Seq<char>>,
    name: Seq<char>,
)
    requires
        connected.contains(name),
        lists_output(mapping, name),
    ensures
        workspaces_updated(m, Some(mapping), connected).contains_key(name),
        workspaces_updated(m, Some(mapping), connected)[name].workspaces == workspaces_on(
            mapping,
            name,
        ),
{
    assert(listed_and_connected(mapping, connected).contains(name));
}

/// A look at the outputs that does not show an output active leaves all that is
/// remembered of it.
pub proof fn law_unseen_output_is_left_alone(
    m: Map<Seq<char>, OutputStateView>,
    outputs: Seq<OutputInfoView>,
    name: Seq<char>,
)
    requires
        without_active(outputs, name),
    ensures
        stored_state(snapshot_of(m, outputs), name) == stored_state(m, name),
    decreases outputs.len(),
{
    if outputs.len() > 0 {
        let last = outputs.len() - 1;
        assert(outputs[last] == outputs.last());
        assert forall|i: int|
            0 <= i < outputs.drop_last().len() && (#[trigger] outputs.drop_last()[i]).name
                == name implies !(outputs.drop_last()[i].connected
            && outputs.drop_last()[i].active) by {
            assert(outputs.drop_last()[i] == outputs[i]);
        }
        law_unseen_output_is_left_alone(m, outputs.drop_last(), name);
    }
}

/// An output that is connected and active is recorded: its resolution, position
/// and primary flag are remembered. Should a name be listed twice, the last
/// active entry counts.
pub proof fn law_active_output_is_recorded(
    m: Map<Seq<char>, OutputStateView>,
    outputs: Seq<OutputInfoView>,
    at: int,
)
    requires
        0 <= at < outputs.len(),
        outputs[at].connected,
        outputs[at].active,
        without_active(outputs.skip(at + 1), outputs[at].name),
    ensures
        stored_state(snapshot_of(m, outputs), outputs[at].name) == Some(
            recorded(state_of(snapshot_of(m, outputs.take(at)), outputs[at].name), outputs[at]),
        ),
    decreases outputs.len(),
{
    let name = outputs[at].name;
    let rest = outputs.drop_last();
    let last = outputs.len() - 1;
    if at == last {
        assert(rest =~= outputs.take(at));
    } else {
        let tail = outputs.skip(at + 1);
        assert(outputs[last] == tail[tail.len() - 1]);
        assert(rest[at] == outputs[at]);
        assert(rest.take(at) =~= outputs.take(at));
        assert(rest.skip(at + 1) =~= tail.drop_last());
        assert forall|i: int|
            0 <= i < rest.skip(at + 1).len() && (#[trigger] rest.skip(at + 1)[i]).name
                == name implies !(rest.skip(at + 1)[i].connected
            && rest.skip(at + 1)[i].active) by {
            assert(rest.skip(at + 1)[i] == tail[i]);
        }
        law_active_output_is_recorded(m, rest, at);
    }
}

/// While nothing is seen of an output, nothing remembered of it changes,
/// whatever becomes of the others.
pub proof fn law_unplugged_monitor_is_remembered(
    m: Map<Seq<char>, OutputStateView>,
    away: Seq<Observation>,
    name: Seq<char>,
)
    requires
        forall|i: int| 0 <= i < away.len() ==> silent_about(#[trigger] away[i], name),
    ensures
        stored_state(remembered_after(m, away), name) == stored_state(m, name),
    decreases away.len(),
{
    if away.len() > 0 {
        let rest = away.drop_last();
        assert forall|i: int| 0 <= i < rest.len() implies silent_about(
            #[trigger] rest[i],
            name,
        ) by {
            assert(rest[i] == away[i]);
        }
        law_unplugged_monitor_is_remembered(m, rest, name);
        let last = away[away.len() - 1];
        assert(silent_about(last, name));
        let before = remembered_after(m, rest);
        match last {
            Observation::Geometry(outputs) => {
                law_unseen_output_is_left_alone(before, outputs, name);
            },
            Observation::Workspaces(mapping, connected) => {
                law_vanished_output_keeps_its_workspaces(before, mapping, connected, name);
            },
        }
    }
}

/// What is remembered of an output's geometry is what was last seen of it. Here
/// the look at `g` is the last that shows the output active; what comes after,
/// looks at the workspaces included, does not change its resolution, position or
/// primary flag.
pub proof fn law_last_geometry_is_remembered(
    m: Map<Seq<char>, OutputStateView>,
    history: Seq<Observation>,
    g: int,
    seen: Seq<OutputInfoView>,
    at: int,
)
    requires
        0 <= g < history.len(),
        history[g] == Observation::Geometry(seen),
        0 <= at < seen.len(),
        seen[at].connected,
        seen[at].active,
        without_active(seen.skip(at + 1), seen[at].name),
        forall|i: int|
            g < i < history.len() && (#[trigger] history[i]) is Geometry ==> silent_about(
                history[i],
                seen[at].name,
            ),
    ensures
        remembered_after(m, history).contains_key(seen[at].name),
        ({
            let state = remembered_after(m, history)[seen[at].name];
            &&& seen[at].resolution is Some ==> state.resolution == seen[at].resolution
            &&& seen[at].position is Some ==> state.position == seen[at].position
            &&& state.primary == seen[at].primary
        }),
    decreases history.len(),
{
    let name = seen[at].name;
    let rest = history.drop_last();
    let last = history.len() - 1;
    let before = remembered_after(m, rest);
    if g == last {
        law_active_output_is_recorded(before, seen, at);
    } else {
        assert(rest[g] == history[g]);
        assert forall|i: int|
            g < i < rest.len() && (#[trigger] rest[i]) is Geometry implies silent_about(
            rest[i],
            name,
        ) by {
            assert(rest[i] == history[i]);
        }
        law_last_geometry_is_remembered(m, rest, g, seen, at);
        match history[last] {
            Observation::Geometry(outputs) => {
                law_unseen_output_is_left_alone(before, outputs, name);
            },
            Observation::Workspaces(mapping, connected) => {
                law_update_keeps_geometry(before, mapping, connected, name);
            },
        }
    }
}

/// The workspaces that are remembered of an output are those last seen on it.
/// Here the look at `w` is the last that shows any on it while it is connected;
/// what comes after, looks at the geometry included, does not change the list.
pub proof fn law_last_workspaces_are_remembered(
    m: Map<Seq<char>, OutputStateView>,
    history: Seq<Observation>,
    w: int,
    mapping: Seq<(Seq<char>, Seq<char>)>,
    connected: Set<Seq<char>>,
    name: Seq<char>,
)
    requires
        0 <= w < history.len(),
        history[w] == Observation::Workspaces(Some(mapping), connected),
        connected.contains(name),
        lists_output(mapping, name),
        forall|i: int|
            w < i < history.len() && (#[trigger] history[i]) is Workspaces ==> silent_about(
                history[i],
                name,
            ),
    ensures
        remembered_after(m, history).contains_key(name),
        remembered_after(m, history)[name].workspaces == workspaces_on(mapping, name),
    decreases history.len(),
{
    let rest = history.drop_last();
    let last = history.len() - 1;
    let before = remembered_after(m, rest);
    if w == last {
        law_listed_workspaces_are_remembered(before, mapping, connected, name);
    } else {
        assert(rest[w] == history[w]);
        assert forall|i: int|
            w < i < rest.len() && (#[trigger] rest[i]) is Workspaces implies silent_about(
            rest[i],
            name,
        ) by {
            assert(rest[i] == history[i]);
        }
        law_last_workspaces_are_remembered(m, rest, w, mapping, connected, name);
        match history[last] {
            Observation::Geometry(outputs) => {
                law_snapshot_keeps_workspaces(before, outputs, name);
            },
            Observation::Workspaces(listed, plugged) => {
                law_vanished_output_keeps_its_workspaces(before, listed, plugged, name);
            },
        }
    }
}

/// A monitor that was unplugged and is plugged in again is restored. Whatever
/// has been observed, and whatever the outputs are now, the arguments give back
/// the resolution, the position and the primary flag that the monitor had when
/// it was last seen active, and the workspaces to move are those that were last
/// seen on it. The look that finds the monitor connected again is part of what
/// has been observed: should it come back active, in whatever mode, then that is
/// how it was last seen active.
pub proof fn law_replugged_monitor_is_restored(
    m: Map<Seq<char>, OutputStateView>,
    history: Seq<Observation>,
    g: int,
    seen: Seq<OutputInfoView>,
    at: int,
    resolution: (u32, u32),
    position: (i32, i32),
    w: int,
    mapping: Seq<(Seq<char>, Seq<char>)>,
    connected: Set<Seq<char>>,
    now: Seq<OutputInfoView>,
)
    requires
        0 <= g < history.len(),
        history[g] == Observation::Geometry(seen),
        0 <= at < seen.len(),
        seen[at].connected,
        seen[at].active,
        seen[at].resolution == Some(resolution),
        seen[at].position == Some(position),
        without_active(seen.skip(at + 1), seen[at].name),
        forall|i: int|
            g < i < history.len() && (#[trigger] history[i]) is Geometry ==> silent_about(
                history[i],
                seen[at].name,
            ),
        0 <= w < history.len(),
        history[w] == Observation::Workspaces(Some(mapping), connected),
        connected.contains(seen[at].name),
        lists_output(mapping, seen[at].name),
        forall|i: int|
            w < i < history.len() && (#[trigger] history[i]) is Workspaces ==> silent_about(
                history[i],
                seen[at].name,
            ),
    ensures
        ({
            let name = seen[at].name;
            let stored = stored_state(remembered_after(m, history), name);
            &&& restore_arguments(stored, now, name) == seq![
                "--output"@,
                name,
                "--mode"@,
                mode_text(resolution),
                "--pos"@,
                position_text(position),
            ] + primary_arguments(seen[at].primary)
            &&& stored matches Some(state) && state.workspaces == workspaces_on(mapping, name)
        }),
{
    let name = seen[at].name;
    law_last_geometry_is_remembered(m, history, g, seen, at);
    law_last_workspaces_are_remembered(m, history, w, mapping, connected, name);
    let stored = stored_state(remembered_after(m, history), name);
    assert(restore_arguments(stored, now, name) =~= seq![
        "--output"@,
        name,
        "--mode"@,
        mode_text(resolution),
        "--pos"@,
        position_text(position),
    ] + primary_arguments(seen[at].primary));
}

/// A monitor of which nothing is remembered gets its preferred mode, or whatever
/// `xrandr` picks when it has none, stands right of the primary output, if that
/// is another one, and does not become the primary.
pub proof fn law_new_monitor_is_placed_beside_the_primary(
    m: Map<Seq<char>, OutputStateView>,
    now: Seq<OutputInfoView>,
    name: Seq<char>,
)
    requires
        !m.contains_key(name),
    ensures
        restore_arguments(stored_state(m, name), now, name) == seq!["--output"@, name]
            + mode_arguments(
            match output_named(now, name) {
                Some(output) => output.preferred,
                None => None,
            },
        ) + position_arguments(None, primary_of(now), name),
{
    assert(restore_arguments(stored_state(m, name), now, name) =~= seq!["--output"@, name]
        + mode_arguments(
        match output_named(now, name) {
            Some(output) => output.preferred,
            None => None,
        },
    ) + position_arguments(None, primary_of(now), name));
}

} // verus!
