//! Keeping the memory in step with what is seen: the geometry of the active
//! outputs, and the workspaces on the connected ones.

use crate::i3::pairs_view;
use crate::memory::{state_of, Memory, OutputStateView};
use crate::names::NameSet;
use crate::output::{outputs_view, OutputInfo, OutputInfoView};
use crate::text::{same_text, strings_view};
use vstd::prelude::*;

verus! {

/// What is remembered of an output after it was seen active. A resolution or
/// position that was not reported stays as it was.
pub open spec fn recorded(state: OutputStateView, output: OutputInfoView) -> OutputStateView {
    OutputStateView {
        resolution: if output.resolution is Some {
            output.resolution
        } else {
            state.resolution
        },
        position: if output.position is Some {
            output.position
        } else {
            state.position
        },
        primary: output.primary,
        workspaces: state.workspaces,
    }
}

/// What is remembered after a look at the outputs: each that is connected and
/// active is recorded, in order; the others change nothing.
pub open spec fn snapshot_of(
    m: Map<Seq<char>, OutputStateView>,
    outputs: Seq<OutputInfoView>,
) -> Map<Seq<char>, OutputStateView>
    decreases outputs.len(),
{
    if outputs.len() == 0 {
        m
    } else {
        let earlier = snapshot_of(m, outputs.drop_last());
        let output = outputs.last();
        if output.connected && output.active {
            earlier.insert(output.name, recorded(state_of(earlier, output.name), output))
        } else {
            earlier
        }
    }
}

/// Copy every active output's current resolution/position/primary into memory,
/// so the last-good geometry is always captured before a future disconnect.
pub fn snapshot(memory: &mut Memory, outputs: &[OutputInfo])
    requires
        old(memory).wf(),
    ensures
        final(memory).wf(),
        final(memory)@ == snapshot_of(old(memory)@, outputs_view(outputs@)),
{
    let ghost start = memory@;
    let ghost whole = outputs_view(outputs@);
    assert(whole.take(0) =~= Seq::<OutputInfoView>::empty());
    let mut i: usize = 0;
    while i < outputs.len()
        invariant
            i <= outputs@.len(),
            whole == outputs_view(outputs@),
            memory.wf(),
            memory@ == snapshot_of(start, whole.take(i as int)),
        decreases outputs.len() - i,
    {
        let output = &outputs[i];
        let ghost earlier = memory@;
        assert(whole.take(i + 1).drop_last() =~= whole.take(i as int));
        assert(whole.take(i + 1).last() == output@);
        if output.connected && output.active {
            let entry = memory.entry(output.name.as_str());
            if output.resolution.is_some() {
                entry.resolution = output.resolution;
            }
            if output.position.is_some() {
                entry.position = output.position;
            }
            entry.primary = output.primary;
            assert(entry@ =~= recorded(state_of(earlier, output.name@), output@));
        }
        i += 1;
    }
    assert(whole.take(i as int) =~= whole);
}

/// Whether a mapping puts any workspace on an output.
pub open spec fn lists_output(mapping: Seq<(Seq<char>, Seq<char>)>, output: Seq<char>) -> bool {
    exists|i: int| 0 <= i < mapping.len() && (#[trigger] mapping[i]).1 == output
}

/// The workspaces that a mapping puts on an output, in order.
pub open spec fn workspaces_on(
    mapping: Seq<(Seq<char>, Seq<char>)>,
    output: Seq<char>,
) -> Seq<Seq<char>>
    decreases mapping.len(),
{
    if mapping.len() == 0 {
        Seq::empty()
    } else if mapping.last().1 == output {
        workspaces_on(mapping.drop_last(), output).push(mapping.last().0)
    } else {
        workspaces_on(mapping.drop_last(), output)
    }
}

/// A state with the given workspaces.
pub open spec fn with_workspaces(
    state: OutputStateView,
    workspaces: Seq<Seq<char>>,
) -> OutputStateView {
    OutputStateView { workspaces, ..state }
}

/// What is remembered after a look at the workspaces: the lists of the outputs
/// in `touched` are those of the mapping, all else stays.
pub open spec fn relisted(
    m: Map<Seq<char>, OutputStateView>,
    mapping: Seq<(Seq<char>, Seq<char>)>,
    touched: Set<Seq<char>>,
) -> Map<Seq<char>, OutputStateView> {
    Map::new(
        |name: Seq<char>| m.contains_key(name) || touched.contains(name),
        |name: Seq<char>|
            if touched.contains(name) {
                with_workspaces(state_of(m, name), workspaces_on(mapping, name))
            } else {
                m[name]
            },
    )
}

/// The connected outputs that a mapping lists.
pub open spec fn listed_and_connected(
    mapping: Seq<(Seq<char>, Seq<char>)>,
    connected: Set<Seq<char>>,
) -> Set<Seq<char>> {
    Set::new(|name: Seq<char>| connected.contains(name) && lists_output(mapping, name))
}

/// What is remembered after i3 was asked for its workspaces. Without an answer
/// nothing changes.
pub open spec fn workspaces_updated(
    m: Map<Seq<char>, OutputStateView>,
    mapping: Option<Seq<(Seq<char>, Seq<char>)>>,
    connected: Set<Seq<char>>,
) -> Map<Seq<char>, OutputStateView> {
    match mapping {
        Some(pairs) => relisted(m, pairs, listed_and_connected(pairs, connected)),
        None => m,
    }
}

/// Collects the workspaces that a mapping puts on an output.
pub fn collect_workspaces(mapping: &Vec<(String, String)>, output: &str) -> (list: Vec<String>)
    ensures
        strings_view(list@) == workspaces_on(pairs_view(mapping@), output@),
        ({
            let name = output@;
            strings_view(list@) == pairs_view(mapping@).filter(
                |p: (Seq<char>, Seq<char>)| p.1 == name,
            ).map_values(|p: (Seq<char>, Seq<char>)| p.0)
        }),
{
    let mut list: Vec<String> = Vec::new();
    let ghost pairs = pairs_view(mapping@);
    assert(pairs.take(0) =~= Seq::<(Seq<char>, Seq<char>)>::empty());
    assert(strings_view(list@) =~= Seq::<Seq<char>>::empty());
    let mut i: usize = 0;
    while i < mapping.len()
        invariant
            i <= mapping@.len(),
            pairs == pairs_view(mapping@),
            strings_view(list@) == workspaces_on(pairs.take(i as int), output@),
        decreases mapping.len() - i,
    {
        let ghost earlier = strings_view(list@);
        assert(pairs.take(i + 1).drop_last() =~= pairs.take(i as int));
        assert(pairs.take(i + 1).last() == (mapping@[i as int].0@, mapping@[i as int].1@));
        if same_text(mapping[i].1.as_str(), output) {
            list.push(mapping[i].0.clone());
            assert(strings_view(list@) =~= earlier.push(mapping@[i as int].0@));
        }
        i += 1;
    }
    assert(pairs.take(i as int) =~= pairs);
    proof {
        law_workspaces_on_an_output_are_filtered(pairs, output@);
    }
    list
}

/// Refresh workspace lists for currently connected outputs only. Outputs absent
/// from i3's report are left untouched, preserving the last-good list for a
/// monitor that just disconnected (whose workspaces i3 has re-homed elsewhere).
pub fn update_workspaces(
    memory: &mut Memory,
    mapping: Option<&Vec<(String, String)>>,
    connected: &NameSet,
)
    requires
        old(memory).wf(),
    ensures
        final(memory).wf(),
        final(memory)@ == workspaces_updated(
            old(memory)@,
            match mapping {
                Some(list) => Some(pairs_view(list@)),
                None => None,
            },
            connected@,
        ),
{
    let list = match mapping {
        Some(list) => list,
        None => return,
    };
    let ghost start = memory@;
    let ghost pairs = pairs_view(list@);
    let mut i: usize = 0;
    assert(memory@ =~= relisted(
        start,
        pairs,
        listed_and_connected(pairs.take(0), connected@),
    ));
    while i < list.len()
        invariant
            i <= list@.len(),
            pairs == pairs_view(list@),
            memory.wf(),
            memory@ == relisted(
                start,
                pairs,
                listed_and_connected(pairs.take(i as int), connected@),
            ),
        decreases list.len() - i,
    {
        let ghost before = listed_and_connected(pairs.take(i as int), connected@);
        let ghost after = listed_and_connected(pairs.take(i + 1), connected@);
        let ghost name = pairs[i as int].1;
        proof {
            assert(name == list@[i as int].1@);
            assert(pairs.take(i + 1)[i as int].1 == name);
            assert forall|k: Seq<char>| #[trigger]
                after.contains(k) == (before.contains(k) || (connected@.contains(k) && k
                    == name)) by {
                if before.contains(k) {
                    let j = choose|j: int|
                        0 <= j < i && (#[trigger] pairs.take(i as int)[j]).1 == k;
                    assert(pairs.take(i + 1)[j].1 == k);
                }
                if after.contains(k) && k != name {
                    let j = choose|j: int|
                        0 <= j < i + 1 && (#[trigger] pairs.take(i + 1)[j]).1 == k;
                    assert(pairs.take(i as int)[j].1 == k);
                }
            }
        }
        if connected.contains(list[i].1.as_str()) {
            let workspaces = collect_workspaces(list, list[i].1.as_str());
            memory.entry(list[i].1.as_str()).workspaces = workspaces;
        }
        i += 1;
        assert(memory@ =~= relisted(start, pairs, after));
    }
    assert(pairs.take(i as int) =~= pairs);
}

/// The workspaces on an output are all those that the mapping puts there, and no
/// others, in the order of the mapping: the mapping filtered by the output, and
/// of each pair the workspace.
pub proof fn law_workspaces_on_an_output_are_filtered(
    mapping: Seq<(Seq<char>, Seq<char>)>,
    output: Seq<char>,
)
    ensures
        workspaces_on(mapping, output) == mapping.filter(
            |p: (Seq<char>, Seq<char>)| p.1 == output,
        ).map_values(|p: (Seq<char>, Seq<char>)| p.0),
    decreases mapping.len(),
{
    let on = |p: (Seq<char>, Seq<char>)| p.1 == output;
    let name = |p: (Seq<char>, Seq<char>)| p.0;
    reveal(Seq::filter);
    if mapping.len() == 0 {
        assert(mapping.filter(on).map_values(name) =~= Seq::<Seq<char>>::empty());
    } else {
        law_workspaces_on_an_output_are_filtered(mapping.drop_last(), output);
        let earlier = mapping.drop_last().filter(on);
        assert(earlier.push(mapping.last()).map_values(name) =~= earlier.map_values(name).push(
            mapping.last().0,
        ));
    }
}

/// No workspace is dropped and none is added: a mapping in two parts puts on an
/// output what the first part puts there and then what the second does, and a
/// single pair puts its workspace on its own output only.
pub proof fn law_workspaces_on_an_output_add_up(
    a: Seq<(Seq<char>, Seq<char>)>,
    pair: (Seq<char>, Seq<char>),
    b: Seq<(Seq<char>, Seq<char>)>,
    output: Seq<char>,
)
    ensures
        workspaces_on(Seq::empty(), output) == Seq::<Seq<char>>::empty(),
        workspaces_on(seq![pair], output) == (if pair.1 == output {
            seq![pair.0]
        } else {
            Seq::empty()
        }),
        workspaces_on(a + b, output) == workspaces_on(a, output) + workspaces_on(b, output),
    decreases b.len(),
{
    reveal_with_fuel(workspaces_on, 2);
    assert(seq![pair].drop_last() =~= Seq::<(Seq<char>, Seq<char>)>::empty());
    assert(workspaces_on(seq![pair], output) =~= (if pair.1 == output {
        seq![pair.0]
    } else {
        Seq::empty()
    }));
    if b.len() == 0 {
        assert(a + b =~= a);
    } else {
        law_workspaces_on_an_output_add_up(a, pair, b.drop_last(), output);
        assert((a + b).drop_last() =~= a + b.drop_last());
        assert((a + b).last() == b.last());
    }
    assert(workspaces_on(a + b, output) =~= workspaces_on(a, output) + workspaces_on(b, output));
}

/// A look at the workspaces, output by output. One that is connected, and on
/// which the mapping puts a workspace, is remembered with just the workspaces
/// that the mapping puts there, and otherwise as it was. All that is remembered
/// of any other output stays, and no other one becomes known.
pub proof fn law_update_output_by_output(
    m: Map<Seq<char>, OutputStateView>,
    mapping: Seq<(Seq<char>, Seq<char>)>,
    connected: Set<Seq<char>>,
    name: Seq<char>,
)
    ensures
        ({
            let after = workspaces_updated(m, Some(mapping), connected);
            let listed = exists|i: int| 0 <= i < mapping.len() && (#[trigger] mapping[i]).1 == name;
            &&& connected.contains(name) && listed ==> {
                &&& after.contains_key(name)
                &&& after[name].workspaces == mapping.filter(
                    |p: (Seq<char>, Seq<char>)| p.1 == name,
                ).map_values(|p: (Seq<char>, Seq<char>)| p.0)
                &&& after[name].resolution == (if m.contains_key(name) {
                    m[name].resolution
                } else {
                    None
                })
                &&& after[name].position == (if m.contains_key(name) {
                    m[name].position
                } else {
                    None
                })
                &&& after[name].primary == (m.contains_key(name) && m[name].primary)
            }
            &&& !(connected.contains(name) && listed) ==> {
                &&& after.contains_key(name) <==> m.contains_key(name)
                &&& m.contains_key(name) ==> after[name] == m[name]
            }
        }),
        workspaces_updated(m, None, connected) == m,
{
    law_workspaces_on_an_output_are_filtered(mapping, name);
    let touched = listed_and_connected(mapping, connected);
    assert(touched.contains(name) <==> connected.contains(name) && lists_output(mapping, name));
}

/// What one output in view does to the memory: one that is connected and active
/// is remembered with its primary flag, and with its resolution and position
/// where they are told; what is not told stays, and so do the workspaces. One
/// that is not changes nothing, and no output changes what is remembered of
/// another.
pub proof fn law_snapshot_of_one_output(
    m: Map<Seq<char>, OutputStateView>,
    output: OutputInfoView,
    other: Seq<char>,
)
    ensures
        ({
            let after = snapshot_of(m, seq![output]);
            let name = output.name;
            &&& !(output.connected && output.active) ==> after == m
            &&& output.connected && output.active ==> {
                &&& after.contains_key(name)
                &&& after[name].primary == output.primary
                &&& output.resolution is Some ==> after[name].resolution == output.resolution
                &&& output.position is Some ==> after[name].position == output.position
                &&& m.contains_key(name) ==> {
                    &&& output.resolution is None ==> after[name].resolution == m[name].resolution
                    &&& output.position is None ==> after[name].position == m[name].position
                    &&& after[name].workspaces == m[name].workspaces
                }
                &&& !m.contains_key(name) ==> {
                    &&& output.resolution is None ==> after[name].resolution is None
                    &&& output.position is None ==> after[name].position is None
                    &&& after[name].workspaces.len() == 0
                }
            }
            &&& other != name ==> {
                &&& after.contains_key(other) <==> m.contains_key(other)
                &&& m.contains_key(other) ==> after[other] == m[other]
            }
        }),
{
    reveal_with_fuel(snapshot_of, 2);
    assert(seq![output].drop_last() =~= Seq::<OutputInfoView>::empty());
}

/// The outputs go into memory one after the other, none left out: a look at
/// some and then at others remembers the same as one look at all of them.
pub proof fn law_snapshots_add_up(
    m: Map<Seq<char>, OutputStateView>,
    a: Seq<OutputInfoView>,
    b: Seq<OutputInfoView>,
)
    ensures
        snapshot_of(m, Seq::empty()) == m,
        snapshot_of(m, a + b) == snapshot_of(snapshot_of(m, a), b),
    decreases b.len(),
{
    if b.len() == 0 {
        assert(a + b =~= a);
    } else {
        law_snapshots_add_up(m, a, b.drop_last());
        assert((a + b).drop_last() =~= a + b.drop_last());
        assert((a + b).last() == b.last());
    }
}

} // verus!
