//! The record of what belonged to each monitor.
//!
//! Identity is the xrandr output name (e.g. `HDMI-1`). For every output we
//! remember its last-connected resolution, position, primary flag and the i3
//! workspaces that lived on it, so the layout can be restored on reconnect.

use crate::names::{
    is_before, lemma_before_irreflexive, lemma_before_total, lemma_before_transitive, name_before,
};
use crate::text::{same_text, strings_view};
use vstd::prelude::*;

verus! {

/// What is remembered of one output.
#[derive(Debug)]
pub struct OutputState {
    /// Last-connected mode, `(width, height)`. `None` => use the monitor's
    /// preferred mode on restore.
    pub resolution: Option<(u32, u32)>,
    /// Last-connected absolute position, `(x, y)`. `None` => place `--right-of`
    /// the current primary on restore.
    pub position: Option<(i32, i32)>,
    /// Whether this output was the primary.
    pub primary: bool,
    /// i3 workspace names last seen on this output.
    pub workspaces: Vec<String>,
}

/// What an [`OutputState`] says, with text as sequences of characters.
#[verifier::ext_equal]
pub struct OutputStateView {
    pub resolution: Option<(u32, u32)>,
    pub position: Option<(i32, i32)>,
    pub primary: bool,
    pub workspaces: Seq<Seq<char>>,
}

impl View for OutputState {
    type V = OutputStateView;

    open spec fn view(&self) -> OutputStateView {
        OutputStateView {
            resolution: self.resolution,
            position: self.position,
            primary: self.primary,
            workspaces: strings_view(self.workspaces@),
        }
    }
}

/// What is remembered of an output before anything was seen of it.
pub open spec fn blank_state() -> OutputStateView {
    OutputStateView {
        resolution: None,
        position: None,
        primary: false,
        workspaces: Seq::empty(),
    }
}

impl Default for OutputState {
    fn default() -> (state: Self)
        ensures
            state@ == blank_state(),
    {
        let state = OutputState {
            resolution: None,
            position: None,
            primary: false,
            workspaces: Vec::new(),
        };
        assert(state@ =~= blank_state());
        state
    }
}

impl Clone for OutputState {
    fn clone(&self) -> (state: Self)
        ensures
            state@ == self@,
    {
        let state = OutputState {
            resolution: self.resolution,
            position: self.position,
            primary: self.primary,
            workspaces: self.workspaces.clone(),
        };
        assert(state@ =~= self@);
        state
    }
}

/// The texts of a list of remembered outputs.
pub open spec fn entries_view(list: Seq<(String, OutputState)>) -> Seq<
    (Seq<char>, OutputStateView),
> {
    list.map_values(|e: (String, OutputState)| (e.0@, e.1@))
}

/// What a list of entries says of each output; of two entries for one output
/// the later counts.
pub open spec fn map_of(entries: Seq<(Seq<char>, OutputStateView)>) -> Map<
    Seq<char>,
    OutputStateView,
>
    decreases entries.len(),
{
    if entries.len() == 0 {
        Map::empty()
    } else {
        map_of(entries.drop_last()).insert(entries.last().0, entries.last().1)
    }
}

/// Whether the entries stand in the order of their names, each name once.
pub open spec fn in_name_order(entries: Seq<(Seq<char>, OutputStateView)>) -> bool {
    forall|i: int, j: int|
        0 <= i < j < entries.len() ==> name_before((#[trigger] entries[i]).0, (
        #[trigger] entries[j]).0)
}

/// Everything that is remembered, by output name.
#[derive(Debug)]
pub struct Memory {
    outputs: Vec<(String, OutputState)>,
}

impl View for Memory {
    type V = Map<Seq<char>, OutputStateView>;

    closed spec fn view(&self) -> Map<Seq<char>, OutputStateView> {
        map_of(entries_view(self.outputs@))
    }
}

/// What `m` remembers of `name`, or the blank state when it knows nothing of it.
pub open spec fn state_of(m: Map<Seq<char>, OutputStateView>, name: Seq<char>) -> OutputStateView {
    if m.contains_key(name) {
        m[name]
    } else {
        blank_state()
    }
}

/// The contents of entries without duplicate names, entry by entry.
proof fn lemma_map_of(entries: Seq<(Seq<char>, OutputStateView)>)
    requires
        in_name_order(entries),
    ensures
        forall|i: int|
            0 <= i < entries.len() ==> map_of(entries).contains_key((#[trigger] entries[i]).0)
                && map_of(entries)[entries[i].0] == entries[i].1,
        forall|name: Seq<char>| #[trigger]
            map_of(entries).contains_key(name) ==> exists|i: int|
                0 <= i < entries.len() && (#[trigger] entries[i]).0 == name,
    decreases entries.len(),
{
    if entries.len() > 0 {
        let rest = entries.drop_last();
        assert forall|i: int, j: int| 0 <= i < j < rest.len() implies name_before(
            (#[trigger] rest[i]).0,
            (#[trigger] rest[j]).0,
        ) by {
            assert(rest[i] == entries[i] && rest[j] == entries[j]);
        }
        lemma_map_of(rest);
        let last = entries.len() - 1;
        assert forall|i: int| 0 <= i < entries.len() implies map_of(entries).contains_key(
            (#[trigger] entries[i]).0,
        ) && map_of(entries)[entries[i].0] == entries[i].1 by {
            if i < last {
                assert(entries[i] == rest[i]);
                assert(name_before(entries[i].0, entries[last].0));
                lemma_before_irreflexive(entries[i].0);
            }
        }
        assert forall|name: Seq<char>| #[trigger]
            map_of(entries).contains_key(name) implies exists|i: int|
            0 <= i < entries.len() && (#[trigger] entries[i]).0 == name by {
            if name == entries[last].0 {
                assert(entries[last].0 == name);
            } else {
                assert(map_of(rest).contains_key(name));
                let i = choose|i: int| 0 <= i < rest.len() && (#[trigger] rest[i]).0 == name;
                assert(entries[i].0 == name);
            }
        }
    }
}

/// Writing to the entry of a name leaves the order alone and changes what is
/// said of that name only.
proof fn lemma_write_entry(
    entries: Seq<(Seq<char>, OutputStateView)>,
    at: int,
    state: OutputStateView,
)
    requires
        in_name_order(entries),
        0 <= at < entries.len(),
    ensures
        in_name_order(entries.update(at, (entries[at].0, state))),
        map_of(entries.update(at, (entries[at].0, state))) == map_of(entries).insert(
            entries[at].0,
            state,
        ),
{
    let name = entries[at].0;
    let written = entries.update(at, (name, state));
    assert forall|i: int, j: int| 0 <= i < j < written.len() implies name_before(
        (#[trigger] written[i]).0,
        (#[trigger] written[j]).0,
    ) by {
        assert(written[i].0 == entries[i].0 && written[j].0 == entries[j].0);
    }
    lemma_map_of(entries);
    lemma_map_of(written);
    let left = map_of(written);
    let right = map_of(entries).insert(name, state);
    assert forall|k: Seq<char>|
        #![trigger left.dom().contains(k)]
        #![trigger right.dom().contains(k)]
        left.dom().contains(k) == right.dom().contains(k) && (left.dom().contains(k) ==> left[k]
            == right[k]) by {
        if left.contains_key(k) {
            let i = choose|i: int| 0 <= i < written.len() && (#[trigger] written[i]).0 == k;
            assert(entries[i].0 == k);
            if i != at {
                assert(written[i] == entries[i]);
                lemma_distinct(entries, i, at);
            }
        }
        if right.contains_key(k) && k != name {
            let i = choose|i: int| 0 <= i < entries.len() && (#[trigger] entries[i]).0 == k;
            assert(written[i].0 == k);
        }
        assert(written[at].0 == name);
    }
    assert(left =~= right);
}

/// What a stored record holds. A missing or unreadable one holds nothing.
pub open spec fn loaded(stored: Option<Seq<(Seq<char>, OutputStateView)>>) -> Map<
    Seq<char>,
    OutputStateView,
> {
    match stored {
        Some(entries) => map_of(entries),
        None => Map::empty(),
    }
}

/// What a save writes depends on what is remembered alone: two lists in name
/// order that say the same are the same.
pub proof fn law_saved_list_is_determined(
    a: Seq<(Seq<char>, OutputStateView)>,
    b: Seq<(Seq<char>, OutputStateView)>,
)
    requires
        in_name_order(a),
        in_name_order(b),
        map_of(a) == map_of(b),
    ensures
        a == b,
    decreases a.len(),
{
    lemma_map_of(a);
    lemma_map_of(b);
    if a.len() == 0 {
        if b.len() > 0 {
            assert(map_of(b).contains_key(b[0].0));
        }
        assert(a =~= b);
    } else {
        assert(map_of(b).contains_key(a[0].0));
        let x = a.len() - 1;
        let y = b.len() - 1;
        assert(map_of(b).contains_key(a[x].0));
        assert(map_of(a).contains_key(b[y].0));
        let j = choose|j: int| 0 <= j < b.len() && (#[trigger] b[j]).0 == a[x].0;
        let i = choose|i: int| 0 <= i < a.len() && (#[trigger] a[i]).0 == b[y].0;
        if a[x].0 != b[y].0 {
            assert(name_before(a[i].0, a[x].0));
            assert(name_before(b[j].0, b[y].0));
            lemma_before_transitive(a[x].0, b[y].0, a[x].0);
            lemma_before_irreflexive(a[x].0);
        }
        lemma_drop_last_entry(a);
        lemma_drop_last_entry(b);
        law_saved_list_is_determined(a.drop_last(), b.drop_last());
        assert(a =~= a.drop_last().push(a[x]));
        assert(b =~= b.drop_last().push(b[y]));
    }
}

/// Loading what a save wrote gives back what was remembered, and saving that
/// again writes the same list.
pub proof fn law_saved_memory_loads_back(
    m: Map<Seq<char>, OutputStateView>,
    saved: Seq<(Seq<char>, OutputStateView)>,
    again: Seq<(Seq<char>, OutputStateView)>,
)
    requires
        in_name_order(saved),
        map_of(saved) == m,
        in_name_order(again),
        map_of(again) == loaded(Some(saved)),
    ensures
        loaded(Some(saved)) == m,
        again == saved,
{
    law_saved_list_is_determined(again, saved);
}

/// Without the last entry, entries in order say the same of all other names.
proof fn lemma_drop_last_entry(entries: Seq<(Seq<char>, OutputStateView)>)
    requires
        in_name_order(entries),
        entries.len() > 0,
    ensures
        in_name_order(entries.drop_last()),
        map_of(entries.drop_last()) == map_of(entries).remove(entries.last().0),
{
    let rest = entries.drop_last();
    let last = entries.len() - 1;
    assert forall|i: int, j: int| 0 <= i < j < rest.len() implies name_before(
        (#[trigger] rest[i]).0,
        (#[trigger] rest[j]).0,
    ) by {
        assert(name_before(entries[i].0, entries[j].0));
    }
    lemma_map_of(rest);
    if map_of(rest).contains_key(entries.last().0) {
        let i = choose|i: int| 0 <= i < rest.len() && (#[trigger] rest[i]).0 == entries.last().0;
        assert(rest[i] == entries[i]);
        lemma_distinct(entries, i, last);
    }
    assert(map_of(rest) =~= map_of(entries).remove(entries.last().0));
}

/// A state with the primary flag set as given.
pub open spec fn with_primary(state: OutputStateView, primary: bool) -> OutputStateView {
    OutputStateView { primary, ..state }
}

/// What is remembered once `name` is the sole primary output.
pub open spec fn sole_primary(m: Map<Seq<char>, OutputStateView>, name: Seq<char>) -> Map<
    Seq<char>,
    OutputStateView,
> {
    Map::new(
        |k: Seq<char>| m.contains_key(k) || k == name,
        |k: Seq<char>| with_primary(state_of(m, k), k == name),
    )
}

/// Naming a sole primary output leaves exactly one primary, whatever was
/// remembered before.
pub proof fn law_exactly_one_primary(m: Map<Seq<char>, OutputStateView>, name: Seq<char>)
    ensures
        sole_primary(m, name).contains_key(name),
        forall|k: Seq<char>| #[trigger]
            sole_primary(m, name).contains_key(k) ==> (sole_primary(m, name)[k].primary <==> k
                == name),
{
}

/// Naming a sole primary output changes nothing but primary flags, and forgets
/// no output.
pub proof fn law_sole_primary_keeps_the_rest(m: Map<Seq<char>, OutputStateView>, name: Seq<char>)
    ensures
        forall|k: Seq<char>| #[trigger]
            m.contains_key(k) ==> sole_primary(m, name).contains_key(k) && with_primary(
                sole_primary(m, name)[k],
                m[k].primary,
            ) == m[k],
{
}

/// Setting the flags of all entries by name sets them in what the entries say.
proof fn lemma_flag_entries(
    entries: Seq<(Seq<char>, OutputStateView)>,
    flagged: Seq<(Seq<char>, OutputStateView)>,
    name: Seq<char>,
)
    requires
        in_name_order(entries),
        flagged.len() == entries.len(),
        forall|i: int|
            0 <= i < entries.len() ==> #[trigger] flagged[i] == (
                entries[i].0,
                with_primary(entries[i].1, entries[i].0 == name),
            ),
    ensures
        in_name_order(flagged),
        forall|k: Seq<char>| #[trigger]
            map_of(flagged).contains_key(k) == map_of(entries).contains_key(k),
        forall|k: Seq<char>| #[trigger]
            map_of(flagged).contains_key(k) ==> map_of(flagged)[k] == with_primary(
                map_of(entries)[k],
                k == name,
            ),
{
    assert forall|i: int, j: int| 0 <= i < j < flagged.len() implies name_before(
        (#[trigger] flagged[i]).0,
        (#[trigger] flagged[j]).0,
    ) by {
        assert(name_before(entries[i].0, entries[j].0));
    }
    lemma_map_of(entries);
    lemma_map_of(flagged);
    assert forall|k: Seq<char>| #[trigger]
        map_of(flagged).contains_key(k) == map_of(entries).contains_key(k) by {
        if map_of(flagged).contains_key(k) {
            let i = choose|i: int| 0 <= i < flagged.len() && (#[trigger] flagged[i]).0 == k;
            assert(entries[i].0 == k);
        }
        if map_of(entries).contains_key(k) {
            let i = choose|i: int| 0 <= i < entries.len() && (#[trigger] entries[i]).0 == k;
            assert(flagged[i].0 == k);
        }
    }
    assert forall|k: Seq<char>| #[trigger] map_of(flagged).contains_key(k) implies map_of(
        flagged,
    )[k] == with_primary(map_of(entries)[k], k == name) by {
        let i = choose|i: int| 0 <= i < flagged.len() && (#[trigger] flagged[i]).0 == k;
        assert(entries[i].0 == k);
    }
}

/// No name stands twice among entries in order.
proof fn lemma_distinct(entries: Seq<(Seq<char>, OutputStateView)>, i: int, j: int)
    requires
        in_name_order(entries),
        0 <= i < entries.len(),
        0 <= j < entries.len(),
        i != j,
    ensures
        entries[i].0 != entries[j].0,
{
    lemma_before_irreflexive(entries[i].0);
    if i < j {
        assert(name_before(entries[i].0, entries[j].0));
    } else {
        assert(name_before(entries[j].0, entries[i].0));
    }
}

/// Inserting a new name where it belongs keeps the order and adds its state.
proof fn lemma_insert_entry(
    entries: Seq<(Seq<char>, OutputStateView)>,
    at: int,
    name: Seq<char>,
    state: OutputStateView,
)
    requires
        in_name_order(entries),
        0 <= at <= entries.len(),
        forall|i: int| 0 <= i < at ==> name_before((#[trigger] entries[i]).0, name),
        forall|i: int|
            at <= i < entries.len() ==> !name_before((#[trigger] entries[i]).0, name)
                && entries[i].0 != name,
    ensures
        in_name_order(entries.insert(at, (name, state))),
        map_of(entries.insert(at, (name, state))) == map_of(entries).insert(name, state),
{
    let grown = entries.insert(at, (name, state));
    assert forall|i: int, j: int| 0 <= i < j < grown.len() implies name_before(
        (#[trigger] grown[i]).0,
        (#[trigger] grown[j]).0,
    ) by {
        if j < at {
            assert(grown[i] == entries[i] && grown[j] == entries[j]);
        } else if j == at {
            assert(grown[i] == entries[i]);
        } else if i == at {
            assert(grown[j] == entries[j - 1]);
            lemma_before_total(name, entries[j - 1].0);
        } else if i < at {
            assert(grown[i] == entries[i] && grown[j] == entries[j - 1]);
        } else {
            assert(grown[i] == entries[i - 1] && grown[j] == entries[j - 1]);
        }
    }
    lemma_map_of(entries);
    lemma_map_of(grown);
    let left = map_of(grown);
    let right = map_of(entries).insert(name, state);
    assert forall|k: Seq<char>|
        #![trigger left.dom().contains(k)]
        #![trigger right.dom().contains(k)]
        left.dom().contains(k) == right.dom().contains(k) && (left.dom().contains(k) ==> left[k]
            == right[k]) by {
        assert(grown[at] == (name, state));
        if left.contains_key(k) && k != name {
            let i = choose|i: int| 0 <= i < grown.len() && (#[trigger] grown[i]).0 == k;
            if i < at {
                assert(entries[i] == grown[i]);
            } else {
                assert(entries[i - 1] == grown[i]);
            }
        }
        if right.contains_key(k) && k != name {
            let i = choose|i: int| 0 <= i < entries.len() && (#[trigger] entries[i]).0 == k;
            if i < at {
                assert(entries[i] == grown[i]);
            } else {
                assert(entries[i] == grown[i + 1]);
            }
        }
    }
    assert(left =~= right);
}

impl Memory {
    /// The entries stand in the order of their names, each name once.
    pub closed spec fn wf(self) -> bool {
        in_name_order(entries_view(self.outputs@))
    }

    /// A memory of nothing.
    pub fn new() -> (memory: Memory)
        ensures
            memory.wf(),
            memory@ == Map::<Seq<char>, OutputStateView>::empty(),
    {
        Memory { outputs: Vec::new() }
    }

    /// Position of the first entry whose name does not come before `name`.
    fn position(&self, name: &str) -> (at: usize)
        requires
            self.wf(),
        ensures
            at <= self.outputs@.len(),
            forall|i: int| 0 <= i < at ==> name_before((#[trigger] self.outputs@[i]).0@, name@),
            forall|i: int|
                at <= i < self.outputs@.len() ==> !name_before(
                    (#[trigger] self.outputs@[i]).0@,
                    name@,
                ),
    {
        let mut at: usize = 0;
        while at < self.outputs.len() && is_before(self.outputs[at].0.as_str(), name)
            invariant
                at <= self.outputs@.len(),
                forall|i: int|
                    0 <= i < at ==> name_before((#[trigger] self.outputs@[i]).0@, name@),
            decreases self.outputs.len() - at,
        {
            at += 1;
        }
        proof {
            let entries = entries_view(self.outputs@);
            assert forall|i: int| at <= i < self.outputs@.len() implies !name_before(
                (#[trigger] self.outputs@[i]).0@,
                name@,
            ) by {
                if i > at && name_before(self.outputs@[i].0@, name@) {
                    assert(name_before(entries[at as int].0, entries[i].0));
                    lemma_before_transitive(entries[at as int].0, entries[i].0, name@);
                }
            }
        }
        at
    }

    /// What is remembered of `name`.
    pub fn get(&self, name: &str) -> (state: Option<&OutputState>)
        requires
            self.wf(),
        ensures
            match state {
                Some(s) => self@.contains_key(name@) && s@ == self@[name@],
                None => !self@.contains_key(name@),
            },
    {
        let at: usize = self.position(name);
        let ghost entries = entries_view(self.outputs@);
        proof {
            lemma_map_of(entries);
            lemma_before_irreflexive(name@);
        }
        if at < self.outputs.len() && same_text(self.outputs[at].0.as_str(), name) {
            assert(entries[at as int].0 == name@);
            Some(&self.outputs[at].1)
        } else {
            proof {
                if self@.contains_key(name@) {
                    let i = choose|i: int|
                        0 <= i < entries.len() && (#[trigger] entries[i]).0 == name@;
                    assert(self.outputs@[i].0@ == name@);
                    assert(at < i);
                    assert(name_before(entries[at as int].0, entries[i].0));
                }
            }
            None
        }
    }

    /// The state of `name`, for writing. An output that was unknown starts
    /// blank.
    pub fn entry(&mut self, name: &str) -> (state: &mut OutputState)
        requires
            old(self).wf(),
        ensures
            state@ == state_of(old(self)@, name@),
            final(self).wf(),
            final(self)@ == old(self)@.insert(name@, final(state)@),
    {
        let at: usize = self.position(name);
        let ghost before = self.outputs@;
        let ghost entries = entries_view(self.outputs@);
        let known = at < self.outputs.len() && same_text(self.outputs[at].0.as_str(), name);
        proof {
            lemma_map_of(entries);
            lemma_before_irreflexive(name@);
        }
        if !known {
            let blank = OutputState::default();
            proof {
                assert forall|i: int| at <= i < entries.len() implies !name_before(
                    (#[trigger] entries[i]).0,
                    name@,
                ) && entries[i].0 != name@ by {
                    assert(before[i].0@ == entries[i].0);
                    if i > at && entries[i].0 == name@ {
                        assert(name_before(entries[at as int].0, entries[i].0));
                    }
                }
                assert forall|i: int| 0 <= i < at implies name_before(
                    (#[trigger] entries[i]).0,
                    name@,
                ) by {
                    assert(before[i].0@ == entries[i].0);
                }
                lemma_insert_entry(entries, at as int, name@, blank@);
            }
            self.outputs.insert(at, (name.to_owned(), blank));
            assert(entries_view(self.outputs@) =~= entries.insert(
                at as int,
                (name@, blank_state()),
            ));
        }
        let ghost list = self.outputs@;
        let state = &mut self.outputs[at].1;
        proof {
            let after = list.update(at as int, (list[at as int].0, *final(state)));
            lemma_write_entry(entries_view(list), at as int, final(state)@);
            assert(entries_view(after) =~= entries_view(list).update(
                at as int,
                (list[at as int].0@, final(state)@),
            ));
        }
        state
    }

    /// Mark `name` as the sole primary output, clearing the primary flag from
    /// every other remembered output so exactly one primary ever exists.
    pub fn set_primary(&mut self, name: &str)
        requires
            old(self).wf(),
        ensures
            final(self).wf(),
            final(self)@ == sole_primary(old(self)@, name@),
    {
        let ghost entries = entries_view(self.outputs@);
        let ghost remembered = self@;
        let mut i: usize = 0;
        while i < self.outputs.len()
            invariant
                i <= self.outputs@.len(),
                self.outputs@.len() == entries.len(),
                forall|k: int|
                    0 <= k < i ==> #[trigger] entries_view(self.outputs@)[k] == (
                        entries[k].0,
                        with_primary(entries[k].1, entries[k].0 == name@),
                    ),
                forall|k: int|
                    i <= k < entries.len() ==> #[trigger] entries_view(self.outputs@)[k]
                        == entries[k],
            decreases self.outputs.len() - i,
        {
            let ghost earlier = entries_view(self.outputs@);
            assert(earlier[i as int] == entries[i as int]);
            let primary = same_text(self.outputs[i].0.as_str(), name);
            self.outputs[i].1.primary = primary;
            assert(entries_view(self.outputs@) =~= earlier.update(
                i as int,
                (entries[i as int].0, with_primary(entries[i as int].1, primary)),
            ));
            i += 1;
        }
        let ghost flagged = entries_view(self.outputs@);
        proof {
            lemma_flag_entries(entries, flagged, name@);
        }
        self.entry(name).primary = true;
        proof {
            let marked = sole_primary(remembered, name@);
            assert forall|k: Seq<char>|
                #![trigger self@.dom().contains(k)]
                #![trigger marked.dom().contains(k)]
                self@.dom().contains(k) == marked.dom().contains(k) && (self@.dom().contains(k)
                    ==> self@[k] == marked[k]) by {
                assert(map_of(flagged).contains_key(k) == map_of(entries).contains_key(k));
            }
            assert(self@ =~= marked);
        }
    }

    /// The memory that a stored record holds, or an empty memory when the record
    /// is missing or unreadable (a corrupt file must never stop the daemon).
    pub fn load(stored: Option<Vec<(String, OutputState)>>) -> (memory: Memory)
        ensures
            memory.wf(),
            memory@ == loaded(
                match stored {
                    Some(list) => Some(entries_view(list@)),
                    None => None,
                },
            ),
    {
        let mut memory = Memory::new();
        if let Some(list) = stored {
            let ghost entries = entries_view(list@);
            assert(entries.take(0) =~= Seq::<(Seq<char>, OutputStateView)>::empty());
            let mut i: usize = 0;
            while i < list.len()
                invariant
                    i <= list@.len(),
                    entries == entries_view(list@),
                    memory.wf(),
                    memory@ == map_of(entries.take(i as int)),
                decreases list.len() - i,
            {
                assert(entries.take(i + 1).drop_last() =~= entries.take(i as int));
                assert(entries.take(i + 1).last() == (list@[i as int].0@, list@[i as int].1@));
                let state = list[i].1.clone();
                *memory.entry(list[i].0.as_str()) = state;
                i += 1;
            }
            assert(entries.take(i as int) =~= entries);
        }
        memory
    }

    /// A copy of the entries.
    fn copy_entries(&self) -> (list: Vec<(String, OutputState)>)
        ensures
            entries_view(list@) == entries_view(self.outputs@),
    {
        let mut list: Vec<(String, OutputState)> = Vec::new();
        let mut i: usize = 0;
        while i < self.outputs.len()
            invariant
                i <= self.outputs@.len(),
                list@.len() == i,
                forall|k: int|
                    0 <= k < i ==> #[trigger] entries_view(list@)[k] == entries_view(
                        self.outputs@,
                    )[k],
            decreases self.outputs.len() - i,
        {
            let ghost earlier = entries_view(list@);
            let name = self.outputs[i].0.clone();
            let state = self.outputs[i].1.clone();
            list.push((name, state));
            assert(entries_view(list@) =~= earlier.push(entries_view(self.outputs@)[i as int]));
            i += 1;
        }
        assert(entries_view(list@) =~= entries_view(self.outputs@));
        list
    }

    /// The record to store: every remembered output once, in the order of the
    /// names.
    pub fn save(&self) -> (list: Vec<(String, OutputState)>)
        requires
            self.wf(),
        ensures
            in_name_order(entries_view(list@)),
            map_of(entries_view(list@)) == self@,
    {
        self.copy_entries()
    }
}

impl Clone for Memory {
    fn clone(&self) -> (memory: Self)
        ensures
            memory@ == self@,
            memory.wf() == self.wf(),
    {
        Memory { outputs: self.copy_entries() }
    }
}

impl Default for Memory {
    fn default() -> (memory: Self)
        ensures
            memory.wf(),
            memory@ == Map::<Seq<char>, OutputStateView>::empty(),
    {
        Memory::new()
    }
}

/// Every field of a remembered output is told, as it is, and a list entry by
/// entry.
pub proof fn law_entries_are_viewed_field_by_field(list: Seq<(String, OutputState)>)
    ensures
        entries_view(list).len() == list.len(),
        forall|i: int|
            0 <= i < list.len() ==> {
                let told = #[trigger] entries_view(list)[i];
                &&& told.0 == list[i].0@
                &&& told.1.resolution == list[i].1.resolution
                &&& told.1.position == list[i].1.position
                &&& told.1.primary == list[i].1.primary
                &&& told.1.workspaces.len() == list[i].1.workspaces@.len()
                &&& forall|k: int|
                    0 <= k < list[i].1.workspaces@.len() ==> #[trigger] told.1.workspaces[k]
                        == list[i].1.workspaces@[k]@
            },
{
}

/// Of an output that was never seen nothing is known.
pub proof fn law_unknown_output_is_blank(m: Map<Seq<char>, OutputStateView>, name: Seq<char>)
    ensures
        m.contains_key(name) ==> state_of(m, name) == m[name],
        !m.contains_key(name) ==> {
            &&& state_of(m, name).resolution is None
            &&& state_of(m, name).position is None
            &&& !state_of(m, name).primary
            &&& state_of(m, name).workspaces.len() == 0
        },
{
}

/// A list tells of each name what its last entry for that name says.
pub proof fn law_last_entry_counts(entries: Seq<(Seq<char>, OutputStateView)>, at: int)
    requires
        0 <= at < entries.len(),
        forall|j: int| at < j < entries.len() ==> (#[trigger] entries[j]).0 != entries[at].0,
    ensures
        map_of(entries).contains_key(entries[at].0),
        map_of(entries)[entries[at].0] == entries[at].1,
    decreases entries.len(),
{
    let rest = entries.drop_last();
    let last = entries.len() - 1;
    if at < last {
        assert(entries[last].0 != entries[at].0);
        assert(rest[at] == entries[at]);
        assert forall|j: int| at < j < rest.len() implies (#[trigger] rest[j]).0
            != rest[at].0 by {
            assert(rest[j] == entries[j]);
        }
        law_last_entry_counts(rest, at);
    }
}

/// A list tells nothing of a name that it has no entry for.
pub proof fn law_name_without_entry_is_unknown(
    entries: Seq<(Seq<char>, OutputStateView)>,
    name: Seq<char>,
)
    requires
        forall|i: int| 0 <= i < entries.len() ==> (#[trigger] entries[i]).0 != name,
    ensures
        !map_of(entries).contains_key(name),
    decreases entries.len(),
{
    if entries.len() > 0 {
        let rest = entries.drop_last();
        assert forall|i: int| 0 <= i < rest.len() implies (#[trigger] rest[i]).0 != name by {
            assert(rest[i] == entries[i]);
        }
        law_name_without_entry_is_unknown(rest, name);
        assert(entries[entries.len() - 1].0 != name);
    }
}

/// A missing or unreadable record is as good as an empty one: no output is
/// known. Any other tells what its list tells.
pub proof fn law_loading(stored: Seq<(Seq<char>, OutputStateView)>, name: Seq<char>)
    ensures
        !loaded(None).contains_key(name),
        !loaded(Some(Seq::empty())).contains_key(name),
        loaded(Some(stored)) == map_of(stored),
{
}

/// Naming a sole primary output, field by field: the named one becomes known, no
/// other one does, every flag is set by the name, and nothing else changes.
pub proof fn law_sole_primary_field_by_field(
    m: Map<Seq<char>, OutputStateView>,
    name: Seq<char>,
    other: Seq<char>,
)
    ensures
        ({
            let marked = sole_primary(m, name);
            &&& marked.contains_key(other) <==> m.contains_key(other) || other == name
            &&& marked.contains_key(other) ==> {
                &&& marked[other].primary == (other == name)
                &&& marked[other].resolution == (if m.contains_key(other) {
                    m[other].resolution
                } else {
                    None
                })
                &&& marked[other].position == (if m.contains_key(other) {
                    m[other].position
                } else {
                    None
                })
                &&& marked[other].workspaces == (if m.contains_key(other) {
                    m[other].workspaces
                } else {
                    Seq::empty()
                })
            }
        }),
{
}

} // verus!
