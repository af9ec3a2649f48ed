//! Reacting to a change of the monitor layout: what is seen goes into memory,
//! and the outputs that were just connected are to be restored.

use crate::i3::{mapping_of, workspaces_by_output, workspaces_view, Workspace};
use crate::layout::{
    law_update_output_by_output, snapshot, snapshot_of, update_workspaces, workspaces_updated,
};
use crate::memory::{Memory, OutputStateView};
use crate::names::NameSet;
use crate::output::{outputs_view, OutputInfo, OutputInfoView};
use crate::text::strings_view;
use crate::xrandr::{connected_names, connected_set, law_connected_outputs_say_so};
use vstd::prelude::*;

verus! {

/// What changed between two looks at the outputs.
#[derive(Debug)]
pub struct Changes {
    /// The outputs that have become connected: they are to be restored.
    pub connected: Vec<String>,
    /// The outputs that have become disconnected: their state is remembered.
    pub disconnected: Vec<String>,
}

/// What is remembered after a reconcile: the geometry of the active outputs,
/// then the workspaces of the connected ones.
pub open spec fn reconciled(
    m: Map<Seq<char>, OutputStateView>,
    connected: Set<Seq<char>>,
    geometry: Seq<OutputInfoView>,
    mapping: Option<Seq<(Seq<char>, Seq<char>)>>,
) -> Map<Seq<char>, OutputStateView> {
    workspaces_updated(snapshot_of(m, geometry), mapping, connected)
}

/// On every RandR change: snapshot geometry, refresh the workspace lists, and
/// find the outputs that just became connected or disconnected.
///
/// `outputs` tells which outputs are connected, `geometry` is the look at them
/// that is recorded, and `listing` is what i3 says of its workspaces.
pub fn reconcile(
    memory: &mut Memory,
    previous: &mut NameSet,
    outputs: &[OutputInfo],
    geometry: &[OutputInfo],
    listing: Option<&Vec<Workspace>>,
) -> (changes: Changes)
    requires
        old(memory).wf(),
        old(previous).wf(),
    ensures
        final(memory).wf(),
        final(memory)@ == reconciled(
            old(memory)@,
            connected_set(outputs_view(outputs@)),
            outputs_view(geometry@),
            match listing {
                Some(list) => Some(mapping_of(workspaces_view(list@))),
                None => None,
            },
        ),
        final(previous).wf(),
        final(previous)@ == connected_set(outputs_view(outputs@)),
        strings_view(changes.connected@).no_duplicates(),
        strings_view(changes.connected@).to_set() == connected_set(
            outputs_view(outputs@),
        ).difference(old(previous)@),
        strings_view(changes.disconnected@).no_duplicates(),
        strings_view(changes.disconnected@).to_set() == old(previous)@.difference(
            connected_set(outputs_view(outputs@)),
        ),
        forall|name: Seq<char>| #[trigger]
            strings_view(changes.connected@).contains(name) <==> !old(previous)@.contains(name)
                && exists|i: int|
                0 <= i < outputs@.len() && (#[trigger] outputs@[i]).connected
                    && outputs@[i].name@ == name,
        forall|name: Seq<char>| #[trigger]
            strings_view(changes.disconnected@).contains(name) <==> old(previous)@.contains(name)
                && forall|i: int|
                0 <= i < outputs@.len() && (#[trigger] outputs@[i]).name@ == name
                    ==> !outputs@[i].connected,
{
    let connected_now = connected_names(outputs);
    snapshot(memory, geometry);
    let mapping = workspaces_by_output(listing);
    update_workspaces(memory, mapping.as_ref(), &connected_now);
    let connected = connected_now.difference(previous);
    let disconnected = previous.difference(&connected_now);
    proof {
        let now = connected_now@;
        let gone = old(previous)@.difference(now);
        let new = now.difference(old(previous)@);
        assert forall|name: Seq<char>|
            now.contains(name) <==> exists|i: int|
                0 <= i < outputs@.len() && (#[trigger] outputs@[i]).connected && outputs@[i].name@
                    == name by {}
        assert forall|name: Seq<char>| #[trigger]
            strings_view(connected@).contains(name) <==> new.contains(name) by {
            assert(strings_view(connected@).to_set().contains(name) <==> strings_view(
                connected@,
            ).contains(name));
        }
        assert forall|name: Seq<char>| #[trigger]
            strings_view(disconnected@).contains(name) <==> gone.contains(name) by {
            assert(strings_view(disconnected@).to_set().contains(name) <==> strings_view(
                disconnected@,
            ).contains(name));
        }
    }
    *previous = connected_now;
    Changes { connected, disconnected }
}

/// Whether an output is restored on the look at `k`, in a series of looks at the
/// outputs that begins with the one at the start: it is connected there, and was
/// not on the look before.
pub open spec fn restored_at(
    looks: Seq<Seq<OutputInfoView>>,
    k: int,
    name: Seq<char>,
) -> bool {
    &&& 0 < k < looks.len()
    &&& connected_set(looks[k]).difference(connected_set(looks[k - 1])).contains(name)
}

/// An output is restored once per connect: between two looks on which it is
/// restored there is one that shows it disconnected.
pub proof fn law_restored_once_per_connect(
    looks: Seq<Seq<OutputInfoView>>,
    i: int,
    j: int,
    name: Seq<char>,
)
    requires
        i < j,
        restored_at(looks, i, name),
        restored_at(looks, j, name),
    ensures
        exists|k: int| i < k < j && !connected_set(#[trigger] looks[k]).contains(name),
{
    assert(!connected_set(looks[j - 1]).contains(name));
    assert(connected_set(looks[i]).contains(name));
}

/// Every connect is answered: an output that is connected on one look and was
/// not on an earlier one is restored on a look after that, up to this one.
pub proof fn law_every_connect_is_restored(
    looks: Seq<Seq<OutputInfoView>>,
    i: int,
    j: int,
    name: Seq<char>,
)
    requires
        0 <= i < j < looks.len(),
        !connected_set(looks[i]).contains(name),
        connected_set(looks[j]).contains(name),
    ensures
        exists|k: int| i < k <= j && restored_at(looks, k, name),
    decreases j - i,
{
    if connected_set(looks[j - 1]).contains(name) {
        law_every_connect_is_restored(looks, i, j - 1, name);
        let k = choose|k: int| i < k <= j - 1 && restored_at(looks, k, name);
        assert(i < k <= j && restored_at(looks, k, name));
    } else {
        assert(restored_at(looks, j, name));
    }
}

/// A look that shows the same outputs connected as the one before restores
/// nothing: so it is on the first reconcile after the start, when nothing has
/// been plugged in since.
pub proof fn law_unchanged_layout_restores_nothing(outputs: Seq<OutputInfoView>)
    ensures
        connected_set(outputs).difference(connected_set(outputs)) == Set::<Seq<char>>::empty(),
{
    assert(connected_set(outputs).difference(connected_set(outputs)) =~= Set::<
        Seq<char>,
    >::empty());
}

/// Unplugging a monitor is noticed: one that an entry of the first look showed
/// connected, and no entry of the second does, has become disconnected, whatever
/// geometry the second look still shows; and plugging it in again is noticed on
/// a third look.
pub proof fn law_unplugging_and_plugging_are_noticed(
    first: Seq<OutputInfoView>,
    i: int,
    second: Seq<OutputInfoView>,
    third: Seq<OutputInfoView>,
    k: int,
)
    requires
        0 <= i < first.len(),
        first[i].connected,
        forall|j: int|
            0 <= j < second.len() && (#[trigger] second[j]).name == first[i].name
                ==> !second[j].connected,
        0 <= k < third.len(),
        third[k].connected,
        third[k].name == first[i].name,
    ensures
        connected_set(first).difference(connected_set(second)).contains(first[i].name),
        !connected_set(second).difference(connected_set(first)).contains(first[i].name),
        connected_set(third).difference(connected_set(second)).contains(first[i].name),
{
    law_connected_outputs_say_so(first);
    law_connected_outputs_say_so(second);
    law_connected_outputs_say_so(third);
    assert(connected_set(first).contains(first[i].name));
    assert(connected_set(third).contains(third[k].name));
}

/// A monitor that both looks show connected is neither connected nor
/// disconnected anew, and neither is one that both do not.
pub proof fn law_what_stays_is_no_change(
    first: Seq<OutputInfoView>,
    second: Seq<OutputInfoView>,
    name: Seq<char>,
)
    requires
        (exists|i: int|
            0 <= i < first.len() && (#[trigger] first[i]).connected && first[i].name == name) <==> (
        exists|j: int|
            0 <= j < second.len() && (#[trigger] second[j]).connected && second[j].name == name),
    ensures
        !connected_set(first).difference(connected_set(second)).contains(name),
        !connected_set(second).difference(connected_set(first)).contains(name),
{
}

/// A reconcile, output by output: the geometry remembered is what the look at
/// the outputs leaves, the workspaces are those that the mapping puts on a
/// connected output, and for any other output they stay.
pub proof fn law_reconcile_output_by_output(
    m: Map<Seq<char>, OutputStateView>,
    connected: Set<Seq<char>>,
    geometry: Seq<OutputInfoView>,
    mapping: Option<Seq<(Seq<char>, Seq<char>)>>,
    name: Seq<char>,
)
    ensures
        ({
            let looked = snapshot_of(m, geometry);
            let after = reconciled(m, connected, geometry, mapping);
            let listed = mapping matches Some(pairs) && exists|i: int|
                0 <= i < pairs.len() && (#[trigger] pairs[i]).1 == name;
            &&& looked.contains_key(name) ==> {
                &&& after.contains_key(name)
                &&& after[name].resolution == looked[name].resolution
                &&& after[name].position == looked[name].position
                &&& after[name].primary == looked[name].primary
            }
            &&& after.contains_key(name) <==> looked.contains_key(name) || (connected.contains(name)
                && listed)
            &&& connected.contains(name) && listed ==> after[name].workspaces
                == mapping->0.filter(|p: (Seq<char>, Seq<char>)| p.1 == name).map_values(
                |p: (Seq<char>, Seq<char>)| p.0,
            )
            &&& !(connected.contains(name) && listed) && looked.contains_key(name) ==> after[name]
                == looked[name]
        }),
{
    let looked = snapshot_of(m, geometry);
    if let Some(pairs) = mapping {
        law_update_output_by_output(looked, pairs, connected, name);
    }
}

} // verus!
