//! i3: the workspace->output mapping, and the commands that move workspaces onto
//! a specific output.

use crate::text::{same_text, strings_view};
use vstd::prelude::*;

verus! {

/// A workspace as i3 lists it.
#[derive(Debug)]
pub struct Workspace {
    pub name: String,
    /// The output that the workspace is on.
    pub output: String,
    pub focused: bool,
}

/// What a [`Workspace`] says.
#[verifier::ext_equal]
pub struct WorkspaceView {
    pub name: Seq<char>,
    pub output: Seq<char>,
    pub focused: bool,
}

impl View for Workspace {
    type V = WorkspaceView;

    open spec fn view(&self) -> WorkspaceView {
        WorkspaceView { name: self.name@, output: self.output@, focused: self.focused }
    }
}

/// An output as i3 lists it.
#[derive(Debug)]
pub struct Output {
    pub name: String,
    pub active: bool,
}

/// What i3 lists of its workspaces.
pub open spec fn workspaces_view(list: Seq<Workspace>) -> Seq<WorkspaceView> {
    list.map_values(|w: Workspace| w@)
}

/// `(workspace_name, output_name)` for every workspace listed, in order.
pub open spec fn mapping_of(list: Seq<WorkspaceView>) -> Seq<(Seq<char>, Seq<char>)> {
    list.map_values(|w: WorkspaceView| (w.name, w.output))
}

/// The texts of a list of pairs.
pub open spec fn pairs_view(list: Seq<(String, String)>) -> Seq<(Seq<char>, Seq<char>)> {
    list.map_values(|p: (String, String)| (p.0@, p.1@))
}

/// `(workspace_name, output_name)` for every current workspace, or `None` if
/// i3 gave no list.
pub fn workspaces_by_output(listing: Option<&Vec<Workspace>>) -> (mapping: Option<
    Vec<(String, String)>,
>)
    ensures
        match (listing, mapping) {
            (Some(list), Some(pairs)) => pairs_view(pairs@) == mapping_of(workspaces_view(list@)),
            (None, None) => true,
            _ => false,
        },
{
    let list = match listing {
        Some(list) => list,
        None => return None,
    };
    let mut pairs: Vec<(String, String)> = Vec::new();
    let ghost whole = mapping_of(workspaces_view(list@));
    let mut i: usize = 0;
    while i < list.len()
        invariant
            i <= list@.len(),
            whole == mapping_of(workspaces_view(list@)),
            pairs_view(pairs@) =~= whole.take(i as int),
        decreases list.len() - i,
    {
        let ghost earlier = pairs_view(pairs@);
        pairs.push((list[i].name.clone(), list[i].output.clone()));
        assert(pairs_view(pairs@) =~= earlier.push(whole[i as int]));
        i += 1;
    }
    assert(whole.take(i as int) =~= whole);
    Some(pairs)
}

/// Whether an active output of that name is listed.
pub open spec fn lists_active(list: Seq<Output>, name: Seq<char>) -> bool {
    exists|i: int| 0 <= i < list.len() && (#[trigger] list[i]).name@ == name && list[i].active
}

/// Whether i3 reports `name` as an active output; without a list it does not.
/// Used to wait for i3 to catch up with an xrandr change before moving
/// workspaces onto it.
pub fn output_active(listing: Option<&Vec<Output>>, name: &str) -> (active: bool)
    ensures
        active == (match listing {
            Some(list) => lists_active(list@, name@),
            None => false,
        }),
        active <==> (listing matches Some(list) && exists|i: int|
            0 <= i < list@.len() && (#[trigger] list@[i]).name@ == name@ && list@[i].active),
{
    let list = match listing {
        Some(list) => list,
        None => return false,
    };
    let mut i: usize = 0;
    while i < list.len()
        invariant
            i <= list@.len(),
            listing == Some(list),
            forall|k: int|
                0 <= k < i ==> !((#[trigger] list@[k]).name@ == name@ && list@[k].active),
        decreases list.len() - i,
    {
        if same_text(list[i].name.as_str(), name) && list[i].active {
            assert(list@[i as int].name@ == name@);
            return true;
        }
        i += 1;
    }
    false
}

/// A text with every `from` replaced by `to`.
pub open spec fn replaced(s: Seq<char>, from: char, to: Seq<char>) -> Seq<char>
    decreases s.len(),
{
    if s.len() == 0 {
        Seq::empty()
    } else {
        (if s[0] == from {
            to
        } else {
            seq![s[0]]
        }) + replaced(s.drop_first(), from, to)
    }
}

/// A text fit to stand between double quotes in an i3 command: a backslash
/// before every backslash, then one before every double quote.
pub open spec fn escaped(s: Seq<char>) -> Seq<char> {
    replaced(replaced(s, '\\', "\\\\"@), '"', "\\\""@)
}

/// Replaces every `from` in a text by `to`.
fn replace(s: &str, from: char, to: &str) -> (result: String)
    ensures
        result@ == replaced(s@, from, to@),
{
    let mut result = String::new();
    let n: usize = s.unicode_len();
    let mut i: usize = 0;
    assert(s@.skip(0) =~= s@);
    assert(result@ + replaced(s@, from, to@) =~= replaced(s@, from, to@));
    while i < n
        invariant
            i <= n,
            n == s@.len(),
            result@ + replaced(s@.skip(i as int), from, to@) == replaced(s@, from, to@),
        decreases n - i,
    {
        let ghost earlier = result@;
        let ghost rest = s@.skip(i as int);
        assert(rest.drop_first() =~= s@.skip(i + 1));
        if s.get_char(i) == from {
            result.append(to);
        } else {
            let kept = s.substring_char(i, i + 1);
            assert(kept@ =~= seq![s@[i as int]]);
            result.append(kept);
        }
        i += 1;
        assert(result@ + replaced(s@.skip(i as int), from, to@) =~= earlier + replaced(
            rest,
            from,
            to@,
        ));
    }
    assert(result@ + replaced(s@.skip(i as int), from, to@) =~= result@);
    result
}

/// Escape characters that would break out of an i3 double-quoted string.
pub fn escape(s: &str) -> (result: String)
    ensures
        result@ == escaped(s@),
{
    replace(replace(s, '\\', "\\\\").as_str(), '"', "\\\"")
}

/// Whether a text, read between double quotes with the backslash as the escape
/// character, is read to its end: no quote closes it, and no escape is cut off.
pub open spec fn stays_quoted(s: Seq<char>) -> bool
    decreases s.len(),
{
    if s.len() == 0 {
        true
    } else if s[0] == '"' {
        false
    } else if s[0] == '\\' {
        s.len() >= 2 && stays_quoted(s.skip(2))
    } else {
        stays_quoted(s.skip(1))
    }
}

/// What a text between double quotes stands for: a backslash gives way to the
/// character after it.
pub open spec fn unescaped(s: Seq<char>) -> Seq<char>
    decreases s.len(),
{
    if s.len() == 0 {
        Seq::empty()
    } else if s[0] == '\\' && s.len() >= 2 {
        seq![s[1]] + unescaped(s.skip(2))
    } else {
        seq![s[0]] + unescaped(s.skip(1))
    }
}

/// Replacing goes part by part.
proof fn lemma_replaced_concat(a: Seq<char>, b: Seq<char>, from: char, to: Seq<char>)
    ensures
        replaced(a + b, from, to) == replaced(a, from, to) + replaced(b, from, to),
    decreases a.len(),
{
    if a.len() == 0 {
        assert(a + b =~= b);
        assert(replaced(a, from, to) + replaced(b, from, to) =~= replaced(b, from, to));
    } else {
        lemma_replaced_concat(a.drop_first(), b, from, to);
        assert((a + b).drop_first() =~= a.drop_first() + b);
        assert(replaced(a + b, from, to) =~= replaced(a, from, to) + replaced(b, from, to));
    }
}

/// The escape of one character.
pub open spec fn escaped_char(c: char) -> Seq<char> {
    if c == '\\' || c == '"' {
        seq!['\\', c]
    } else {
        seq![c]
    }
}

/// Escaping goes character by character.
proof fn lemma_escaped_step(s: Seq<char>)
    requires
        s.len() > 0,
    ensures
        escaped(s) == escaped_char(s[0]) + escaped(s.drop_first()),
{
    reveal_strlit("\\\\");
    reveal_strlit("\\\"");
    reveal_with_fuel(replaced, 3);
    let rest = replaced(s.drop_first(), '\\', "\\\\"@);
    let head = if s[0] == '\\' {
        "\\\\"@
    } else {
        seq![s[0]]
    };
    assert(replaced(s, '\\', "\\\\"@) == head + rest);
    lemma_replaced_concat(head, rest, '"', "\\\""@);
    assert(replaced(head, '"', "\\\""@) =~= escaped_char(s[0])) by {
        if s[0] == '\\' {
            assert(head =~= seq!['\\', '\\']);
            assert(head.drop_first() =~= seq!['\\']);
            assert(head.drop_first().drop_first() =~= Seq::<char>::empty());
        } else {
            assert(head.drop_first() =~= Seq::<char>::empty());
            assert("\\\""@ =~= seq!['\\', '"']);
        }
    }
}

/// An escaped text cannot break out of the double quotes around it, and stands
/// for the text that was escaped.
pub proof fn law_escaped_text_stays_quoted(s: Seq<char>)
    ensures
        stays_quoted(escaped(s)),
        unescaped(escaped(s)) == s,
    decreases s.len(),
{
    if s.len() == 0 {
        reveal_with_fuel(replaced, 2);
        assert(escaped(s) =~= Seq::<char>::empty());
        assert(unescaped(escaped(s)) =~= s);
    } else {
        lemma_escaped_step(s);
        law_escaped_text_stays_quoted(s.drop_first());
        let rest = escaped(s.drop_first());
        if s[0] == '\\' || s[0] == '"' {
            assert(escaped(s).skip(2) =~= rest);
        } else {
            assert(escaped(s).skip(1) =~= rest);
        }
        assert(unescaped(escaped(s)) =~= seq![s[0]] + s.drop_first());
        assert(s =~= seq![s[0]] + s.drop_first());
    }
}

/// The command that focuses a workspace, without jumping back from it.
pub open spec fn focus_command(workspace: Seq<char>) -> Seq<char> {
    "workspace --no-auto-back-and-forth \""@ + escaped(workspace) + "\""@
}

/// The command that focuses a workspace and moves it onto an output.
pub open spec fn move_command(workspace: Seq<char>, output: Seq<char>) -> Seq<char> {
    focus_command(workspace) + "; move workspace to output \""@ + escaped(output) + "\""@
}

/// The name of the first focused workspace.
pub open spec fn focused_of(list: Seq<WorkspaceView>) -> Option<Seq<char>>
    decreases list.len(),
{
    if list.len() == 0 {
        None
    } else if list[0].focused {
        Some(list[0].name)
    } else {
        focused_of(list.drop_first())
    }
}

/// The commands that move workspaces onto an output, one by one, and then go
/// back to the workspace that was focused.
pub open spec fn move_commands(
    workspaces: Seq<Seq<char>>,
    output: Seq<char>,
    focused: Option<Seq<char>>,
) -> Seq<Seq<char>> {
    if workspaces.len() == 0 {
        Seq::empty()
    } else {
        workspaces.map_values(|w: Seq<char>| move_command(w, output)) + (match focused {
            Some(f) => seq![focus_command(f)],
            None => Seq::empty(),
        })
    }
}

/// Every workspace is moved, in order, and nothing else is.
pub proof fn law_every_workspace_is_moved(
    workspaces: Seq<Seq<char>>,
    output: Seq<char>,
    focused: Option<Seq<char>>,
)
    ensures
        forall|i: int|
            0 <= i < workspaces.len() ==> #[trigger] move_commands(workspaces, output, focused)[i]
                == move_command(workspaces[i], output),
        forall|i: int|
            workspaces.len() <= i < move_commands(workspaces, output, focused).len() ==> (focused
                matches Some(f) && #[trigger] move_commands(workspaces, output, focused)[i]
                == focus_command(f)),
{
}

/// The workspace that was focused before is focused after.
pub proof fn law_focus_is_restored(
    workspaces: Seq<Seq<char>>,
    output: Seq<char>,
    focused: Seq<char>,
)
    requires
        workspaces.len() > 0,
    ensures
        move_commands(workspaces, output, Some(focused)).last() == focus_command(focused),
{
}

/// Writes the command that focuses a workspace.
fn format_focus(workspace: &str) -> (command: String)
    ensures
        command@ == focus_command(workspace@),
{
    let mut command = "workspace --no-auto-back-and-forth \"".to_owned();
    command.append(escape(workspace).as_str());
    command.append("\"");
    command
}

/// Writes the command that moves a workspace.
fn format_move(workspace: &str, output: &str) -> (command: String)
    ensures
        command@ == move_command(workspace@, output@),
{
    let mut command = format_focus(workspace);
    command.append("; move workspace to output \"");
    command.append(escape(output).as_str());
    command.append("\"");
    command
}

/// Finds the name of the first focused workspace.
pub fn focused_workspace(list: &Vec<Workspace>) -> (name: Option<&String>)
    ensures
        match name {
            Some(f) => focused_of(workspaces_view(list@)) == Some(f@),
            None => focused_of(workspaces_view(list@)) is None,
        },
        match name {
            Some(f) => exists|i: int|
                #![trigger list@[i]]
                0 <= i < list@.len() && list@[i].focused && list@[i].name@ == f@ && (forall|j: int|
                    0 <= j < i ==> !(#[trigger] list@[j]).focused),
            None => forall|i: int| 0 <= i < list@.len() ==> !(#[trigger] list@[i]).focused,
        },
{
    let ghost whole = workspaces_view(list@);
    let mut i: usize = 0;
    assert(whole.skip(0) =~= whole);
    while i < list.len()
        invariant
            i <= list@.len(),
            whole == workspaces_view(list@),
            focused_of(whole) == focused_of(whole.skip(i as int)),
            forall|j: int| 0 <= j < i ==> !(#[trigger] list@[j]).focused,
        decreases list.len() - i,
    {
        assert(whole.skip(i as int)[0] == list@[i as int]@);
        assert(whole.skip(i as int).drop_first() =~= whole.skip(i + 1));
        if list[i].focused {
            assert(list@[i as int].focused);
            return Some(&list[i].name);
        }
        i += 1;
    }
    None
}

/// The commands to send to i3 to move the named workspaces onto `output`,
/// preserving the originally focused workspace. i3's `move workspace to output`
/// acts on the focused workspace, so each one is focused in turn, then focus is
/// restored if the list that i3 gave tells it.
pub fn move_workspaces_to_output(
    workspaces: &[String],
    output: &str,
    listing: Option<&Vec<Workspace>>,
) -> (commands: Vec<String>)
    ensures
        strings_view(commands@) == move_commands(
            strings_view(workspaces@),
            output@,
            match listing {
                Some(list) => focused_of(workspaces_view(list@)),
                None => None,
            },
        ),
{
    let mut commands: Vec<String> = Vec::new();
    let ghost names = strings_view(workspaces@);
    let ghost moves = names.map_values(|w: Seq<char>| move_command(w, output@));
    if workspaces.len() == 0 {
        assert(strings_view(commands@) =~= Seq::<Seq<char>>::empty());
        return commands;
    }
    let mut i: usize = 0;
    while i < workspaces.len()
        invariant
            i <= workspaces@.len(),
            names == strings_view(workspaces@),
            moves == names.map_values(|w: Seq<char>| move_command(w, output@)),
            strings_view(commands@) =~= moves.take(i as int),
        decreases workspaces.len() - i,
    {
        let ghost earlier = strings_view(commands@);
        commands.push(format_move(workspaces[i].as_str(), output));
        assert(strings_view(commands@) =~= earlier.push(moves[i as int]));
        i += 1;
    }
    assert(moves.take(i as int) =~= moves);
    assert(strings_view(commands@) =~= moves + Seq::<Seq<char>>::empty());
    if let Some(list) = listing {
        if let Some(focused) = focused_workspace(list) {
            commands.push(format_focus(focused.as_str()));
            assert(strings_view(commands@) =~= moves + seq![focus_command(focused@)]);
        }
    }
    commands
}

/// Every field of a workspace is told, as it is; the mapping pairs its name with
/// its output, workspace by workspace.
pub proof fn law_workspaces_are_viewed_field_by_field(list: Seq<Workspace>)
    ensures
        workspaces_view(list).len() == list.len(),
        mapping_of(workspaces_view(list)).len() == list.len(),
        forall|i: int|
            0 <= i < list.len() ==> {
                let told = #[trigger] workspaces_view(list)[i];
                &&& told.name == list[i].name@
                &&& told.output == list[i].output@
                &&& told.focused == list[i].focused
                &&& mapping_of(workspaces_view(list))[i] == (list[i].name@, list[i].output@)
            },
{
}

/// A list of pairs is viewed pair by pair.
pub proof fn law_pairs_are_viewed_one_by_one(list: Seq<(String, String)>)
    ensures
        pairs_view(list).len() == list.len(),
        forall|i: int|
            0 <= i < list.len() ==> #[trigger] pairs_view(list)[i] == (list[i].0@, list[i].1@),
{
}

/// An output is active for i3 when any one entry says so: an entry must bear the
/// name and be active itself, and lists put together say what either says.
pub proof fn law_one_active_entry_is_enough(
    a: Seq<Output>,
    output: Output,
    b: Seq<Output>,
    name: Seq<char>,
)
    ensures
        !lists_active(Seq::empty(), name),
        lists_active(seq![output], name) <==> output.name@ == name && output.active,
        lists_active(a + b, name) <==> lists_active(a, name) || lists_active(b, name),
{
    let one = seq![output];
    assert(one[0] == output);
    let both = a + b;
    if lists_active(a, name) {
        let i = choose|i: int| 0 <= i < a.len() && (#[trigger] a[i]).name@ == name && a[i].active;
        assert(both[i] == a[i]);
    }
    if lists_active(b, name) {
        let i = choose|i: int| 0 <= i < b.len() && (#[trigger] b[i]).name@ == name && b[i].active;
        assert(both[a.len() + i] == b[i]);
    }
    if lists_active(both, name) {
        let i = choose|i: int|
            0 <= i < both.len() && (#[trigger] both[i]).name@ == name && both[i].active;
        if i < a.len() {
            assert(a[i] == both[i]);
        } else {
            assert(b[i - a.len()] == both[i]);
        }
    }
}

/// Escaping goes character by character: a backslash goes in front of each
/// backslash and each double quote, and every other character stays alone.
pub proof fn law_escaping_is_by_character(a: Seq<char>, c: char, b: Seq<char>)
    ensures
        escaped(Seq::empty()) == Seq::<char>::empty(),
        escaped(seq![c]) == (if c == '\\' || c == '"' {
            seq!['\\', c]
        } else {
            seq![c]
        }),
        escaped(a + b) == escaped(a) + escaped(b),
    decreases a.len(),
{
    reveal_with_fuel(replaced, 2);
    assert(escaped(Seq::empty()) =~= Seq::<char>::empty());
    lemma_escaped_step(seq![c]);
    assert(seq![c].drop_first() =~= Seq::<char>::empty());
    assert(escaped(seq![c]) =~= escaped_char(c));
    if a.len() == 0 {
        assert(a + b =~= b);
        assert(a =~= Seq::<char>::empty());
        assert(escaped(a) + escaped(b) =~= escaped(b));
    } else {
        law_escaping_is_by_character(a.drop_first(), c, b);
        lemma_escaped_step(a);
        lemma_escaped_step(a + b);
        assert((a + b).drop_first() =~= a.drop_first() + b);
        assert(escaped(a + b) =~= escaped(a) + escaped(b));
    }
}

/// The commands as i3 reads them: the names stand escaped between double quotes.
pub proof fn law_commands_as_i3_reads_them(workspace: Seq<char>, output: Seq<char>)
    ensures
        focus_command(workspace) == "workspace --no-auto-back-and-forth \""@ + escaped(workspace)
            + seq!['"'],
        move_command(workspace, output) == "workspace --no-auto-back-and-forth \""@ + escaped(
            workspace,
        ) + "\"; move workspace to output \""@ + escaped(output) + seq!['"'],
{
    reveal_strlit("\"");
    reveal_strlit("; move workspace to output \"");
    reveal_strlit("\"; move workspace to output \"");
    assert(focus_command(workspace) =~= "workspace --no-auto-back-and-forth \""@ + escaped(
        workspace,
    ) + seq!['"']);
    assert(move_command(workspace, output) =~= "workspace --no-auto-back-and-forth \""@ + escaped(
        workspace,
    ) + "\"; move workspace to output \""@ + escaped(output) + seq!['"']);
}

/// The focus is with a workspace that is listed as focused, and before which
/// none is; nowhere just when no workspace is listed as focused.
pub proof fn law_focused_workspace_is_listed_as_focused(list: Seq<WorkspaceView>)
    ensures
        match focused_of(list) {
            Some(name) => exists|i: int|
                #![trigger list[i]]
                0 <= i < list.len() && list[i].focused && list[i].name == name && (forall|j: int|
                    0 <= j < i ==> !(#[trigger] list[j]).focused),
            None => forall|i: int| 0 <= i < list.len() ==> !(#[trigger] list[i]).focused,
        },
    decreases list.len(),
{
    if list.len() > 0 {
        if list[0].focused {
            assert(list[0].name == focused_of(list)->0);
        } else {
            let rest = list.drop_first();
            law_focused_workspace_is_listed_as_focused(rest);
            match focused_of(rest) {
                Some(name) => {
                    let i = choose|i: int|
                        #![trigger rest[i]]
                        0 <= i < rest.len() && rest[i].focused && rest[i].name == name && (forall|
                            j: int,
                        |
                            0 <= j < i ==> !(#[trigger] rest[j]).focused);
                    assert(list[i + 1] == rest[i]);
                    assert forall|j: int| 0 <= j < i + 1 implies !(#[trigger] list[j]).focused by {
                        if j > 0 {
                            assert(list[j] == rest[j - 1]);
                        }
                    }
                },
                None => {
                    assert forall|i: int| 0 <= i < list.len() implies !(
                    #[trigger] list[i]).focused by {
                        if i > 0 {
                            assert(list[i] == rest[i - 1]);
                        }
                    }
                },
            }
        }
    }
}

/// A move sends one command for each workspace, in order, and one more to go
/// back to the workspace that the list shows as focused, the first if it shows
/// several; none more when it shows none. Without workspaces it sends nothing.
#[verifier::spinoff_prover]
pub proof fn law_a_move_goes_back_to_the_focus(
    workspaces: Seq<Seq<char>>,
    output: Seq<char>,
    list: Seq<WorkspaceView>,
)
    ensures
        ({
            let commands = move_commands(workspaces, output, focused_of(list));
            let n = workspaces.len() as int;
            &&& n == 0 ==> commands.len() == 0
            &&& n > 0 ==> forall|i: int|
                0 <= i < n ==> #[trigger] commands[i] == move_command(workspaces[i], output)
            &&& n > 0 && (forall|i: int| 0 <= i < list.len() ==> !(#[trigger] list[i]).focused)
                ==> commands.len() == n
            &&& n > 0 ==> forall|i: int|
                0 <= i < list.len() && (#[trigger] list[i]).focused && (forall|j: int|
                    0 <= j < i ==> !(#[trigger] list[j]).focused) ==> commands.len() == n + 1
                    && commands[n] == focus_command(list[i].name)
        }),
{
    law_focused_workspace_is_listed_as_focused(list);
    if let Some(name) = focused_of(list) {
        let k = choose|k: int|
            #![trigger list[k]]
            0 <= k < list.len() && list[k].focused && list[k].name == name && (forall|j: int|
                0 <= j < k ==> !(#[trigger] list[j]).focused);
        assert(list[k].focused);
        assert forall|i: int|
            0 <= i < list.len() && (#[trigger] list[i]).focused && (forall|j: int|
                0 <= j < i ==> !(#[trigger] list[j]).focused) implies i == k by {
            if i < k {
                assert(!list[i].focused);
            } else if k < i {
                assert(!list[k].focused);
            }
        }
    }
}

} // verus!
