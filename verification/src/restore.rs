//! Restoring an output that has just been connected: the `xrandr` arguments that
//! enable it, the wait for i3, and the workspaces to move back.

use crate::decimal::{
    format_number, format_signed, law_numeral_reads_back, law_u32_numeral_reads_back, numeral,
    signed_numeral,
};
use crate::memory::{Memory, OutputStateView};
use crate::output::{outputs_view, OutputInfo, OutputInfoView};
use crate::text::{
    is_digit, is_space, law_visible_text_is_one_word, lemma_first_at_is, same_text, strings_view,
    CharClass,
};
use crate::xrandr::mode_of;
use vstd::prelude::*;

verus! {

/// The name of the first output that is both primary and active.
pub open spec fn primary_of(outputs: Seq<OutputInfoView>) -> Option<Seq<char>>
    decreases outputs.len(),
{
    if outputs.len() == 0 {
        None
    } else if outputs[0].primary && outputs[0].active {
        Some(outputs[0].name)
    } else {
        primary_of(outputs.drop_first())
    }
}

/// The first output of the given name.
pub open spec fn output_named(outputs: Seq<OutputInfoView>, name: Seq<char>) -> Option<
    OutputInfoView,
>
    decreases outputs.len(),
{
    if outputs.len() == 0 {
        None
    } else if outputs[0].name == name {
        Some(outputs[0])
    } else {
        output_named(outputs.drop_first(), name)
    }
}

/// A mode as `xrandr` names it, such as `1920x1080`.
pub open spec fn mode_text(mode: (u32, u32)) -> Seq<char> {
    numeral(mode.0 as nat) + "x"@ + numeral(mode.1 as nat)
}

/// A position as `xrandr` takes it, such as `1280x0`.
pub open spec fn position_text(position: (i32, i32)) -> Seq<char> {
    signed_numeral(position.0 as int) + "x"@ + signed_numeral(position.1 as int)
}

/// A mode is named to `xrandr` as `xrandr` names it: the text of a mode, read
/// from a mode line, is that mode.
pub proof fn law_mode_text_reads_back(mode: (u32, u32))
    ensures
        mode_of(mode_text(mode)) == Some(mode),
{
    let wide = numeral(mode.0 as nat);
    let high = numeral(mode.1 as nat);
    let text = mode_text(mode);
    reveal_strlit("x");
    law_numeral_reads_back(mode.0 as nat);
    law_numeral_reads_back(mode.1 as nat);
    law_u32_numeral_reads_back(mode.0);
    law_u32_numeral_reads_back(mode.1);
    let cross = wide.len() as int;
    assert forall|k: int| 0 <= k < text.len() implies is_digit(#[trigger] text[k]) || (k == cross
        && text[k] == 'x') by {
        if k < cross {
            assert(text[k] == wide[k]);
        } else if k > cross {
            assert(text[k] == high[k - cross - 1]);
        }
    }
    assert forall|k: int| 0 <= k < text.len() implies !is_space(#[trigger] text[k]) by {
        assert(is_digit(text[k]) || text[k] == 'x');
    }
    law_visible_text_is_one_word(text);
    assert forall|k: int| 0 <= k < cross implies !CharClass::Cross.has(#[trigger] text[k]) by {
        assert(is_digit(text[k]));
    }
    assert(text[cross] == 'x');
    lemma_first_at_is(text, CharClass::Cross, cross);
    assert(text.take(cross) =~= wide);
    let remainder = text.skip(cross + 1);
    assert(remainder =~= high);
    lemma_first_at_is(high, CharClass::NonDigit, high.len() as int);
    assert(high.take(high.len() as int) =~= high);
}

/// The mode to set: the remembered one, else the monitor's preferred one.
pub open spec fn chosen_mode(
    stored: Option<OutputStateView>,
    info: Option<OutputInfoView>,
) -> Option<(u32, u32)> {
    match stored {
        Some(OutputStateView { resolution: Some(mode), .. }) => Some(mode),
        _ => match info {
            Some(output) => output.preferred,
            None => None,
        },
    }
}

/// The arguments that set the mode; `xrandr` picks one when none is known.
pub open spec fn mode_arguments(mode: Option<(u32, u32)>) -> Seq<Seq<char>> {
    match mode {
        Some(mode) => seq!["--mode"@, mode_text(mode)],
        None => seq!["--auto"@],
    }
}

/// The arguments that place the output: at the remembered position, else right
/// of the primary output, if that is another one.
pub open spec fn position_arguments(
    position: Option<(i32, i32)>,
    primary: Option<Seq<char>>,
    name: Seq<char>,
) -> Seq<Seq<char>> {
    match position {
        Some(position) => seq!["--pos"@, position_text(position)],
        None => match primary {
            Some(primary) if primary != name => seq!["--right-of"@, primary],
            _ => Seq::empty(),
        },
    }
}

/// The argument that makes the output the primary one.
pub open spec fn primary_arguments(primary: bool) -> Seq<Seq<char>> {
    if primary {
        seq!["--primary"@]
    } else {
        Seq::empty()
    }
}

/// The `xrandr` arguments that restore an output, given what is remembered of it
/// and the outputs as they are now.
pub open spec fn restore_arguments(
    stored: Option<OutputStateView>,
    outputs: Seq<OutputInfoView>,
    name: Seq<char>,
) -> Seq<Seq<char>> {
    seq!["--output"@, name] + mode_arguments(chosen_mode(stored, output_named(outputs, name)))
        + position_arguments(
        match stored {
            Some(state) => state.position,
            None => None,
        },
        primary_of(outputs),
        name,
    ) + primary_arguments(stored matches Some(state) && state.primary)
}

/// What is remembered of an output, if anything.
pub open spec fn stored_state(m: Map<Seq<char>, OutputStateView>, name: Seq<char>) -> Option<
    OutputStateView,
> {
    if m.contains_key(name) {
        Some(m[name])
    } else {
        None
    }
}

/// Name of the currently active primary output, if any.
pub fn current_primary(outputs: &[OutputInfo]) -> (name: Option<String>)
    ensures
        match name {
            Some(n) => primary_of(outputs_view(outputs@)) == Some(n@),
            None => primary_of(outputs_view(outputs@)) is None,
        },
        match name {
            Some(n) => exists|i: int|
                #![trigger outputs@[i]]
                0 <= i < outputs@.len() && outputs@[i].primary && outputs@[i].active
                    && outputs@[i].name@ == n@ && (forall|j: int|
                    0 <= j < i ==> !((#[trigger] outputs@[j]).primary && outputs@[j].active)),
            None => forall|i: int|
                0 <= i < outputs@.len() ==> !((#[trigger] outputs@[i]).primary
                    && outputs@[i].active),
        },
{
    let ghost whole = outputs_view(outputs@);
    assert(whole.skip(0) =~= whole);
    let mut i: usize = 0;
    while i < outputs.len()
        invariant
            i <= outputs@.len(),
            whole == outputs_view(outputs@),
            primary_of(whole) == primary_of(whole.skip(i as int)),
            forall|j: int|
                0 <= j < i ==> !((#[trigger] outputs@[j]).primary && outputs@[j].active),
        decreases outputs.len() - i,
    {
        assert(whole.skip(i as int)[0] == outputs@[i as int]@);
        assert(whole.skip(i as int).drop_first() =~= whole.skip(i + 1));
        if outputs[i].primary && outputs[i].active {
            assert(outputs@[i as int].primary && outputs@[i as int].active);
            return Some(outputs[i].name.clone());
        }
        i += 1;
    }
    None
}

/// Finds the first output of the given name.
pub fn find_output<'a>(outputs: &'a [OutputInfo], name: &str) -> (output: Option<&'a OutputInfo>)
    ensures
        match output {
            Some(o) => output_named(outputs_view(outputs@), name@) == Some(o@),
            None => output_named(outputs_view(outputs@), name@) is None,
        },
        match output {
            Some(o) => exists|i: int|
                #![trigger outputs@[i]]
                0 <= i < outputs@.len() && outputs@[i] == *o && outputs@[i].name@ == name@ && (
                forall|j: int| 0 <= j < i ==> (#[trigger] outputs@[j]).name@ != name@),
            None => forall|i: int|
                0 <= i < outputs@.len() ==> (#[trigger] outputs@[i]).name@ != name@,
        },
{
    let ghost whole = outputs_view(outputs@);
    assert(whole.skip(0) =~= whole);
    let mut i: usize = 0;
    while i < outputs.len()
        invariant
            i <= outputs@.len(),
            whole == outputs_view(outputs@),
            output_named(whole, name@) == output_named(whole.skip(i as int), name@),
            forall|j: int| 0 <= j < i ==> (#[trigger] outputs@[j]).name@ != name@,
        decreases outputs.len() - i,
    {
        assert(whole.skip(i as int)[0] == outputs@[i as int]@);
        assert(whole.skip(i as int).drop_first() =~= whole.skip(i + 1));
        if same_text(outputs[i].name.as_str(), name) {
            assert(outputs@[i as int].name@ == name@);
            return Some(&outputs[i]);
        }
        i += 1;
    }
    None
}

/// Writes a mode as `xrandr` names it.
pub fn format_mode(width: u32, height: u32) -> (text: String)
    ensures
        text@ == mode_text((width, height)),
{
    let mut text = format_number(width as u64);
    text.append("x");
    text.append(format_number(height as u64).as_str());
    text
}

/// Writes a position as `xrandr` takes it.
pub fn format_position(x: i32, y: i32) -> (text: String)
    ensures
        text@ == position_text((x, y)),
{
    let mut text = format_signed(x as i64);
    text.append("x");
    text.append(format_signed(y as i64).as_str());
    text
}

/// What it takes to restore an output.
#[derive(Debug)]
pub struct Restoration {
    /// The arguments to run `xrandr` with.
    pub arguments: Vec<String>,
    /// The workspaces to move onto the output once i3 sees it.
    pub workspaces: Vec<String>,
}

/// Works out how to restore a freshly connected output: resolution, position
/// and primary flag as `xrandr` arguments, and its remembered workspaces.
pub fn restore_output(memory: &Memory, outputs: &[OutputInfo], name: &str) -> (plan: Restoration)
    requires
        memory.wf(),
    ensures
        strings_view(plan.arguments@) == restore_arguments(
            stored_state(memory@, name@),
            outputs_view(outputs@),
            name@,
        ),
        strings_view(plan.workspaces@) == (match stored_state(memory@, name@) {
            Some(state) => state.workspaces,
            None => Seq::empty(),
        }),
{
    let ghost remembered = stored_state(memory@, name@);
    let ghost seen = outputs_view(outputs@);
    let stored = memory.get(name);
    let info = find_output(outputs, name);

    let mut arguments: Vec<String> = Vec::new();
    arguments.push("--output".to_owned());
    arguments.push(name.to_owned());
    let ghost head = strings_view(arguments@);
    assert(head =~= seq!["--output"@, name@]);

    // Mode: stored resolution, else the monitor's preferred (native) mode.
    let remembered_mode = match stored {
        Some(state) => state.resolution,
        None => None,
    };
    let mode = match remembered_mode {
        Some(mode) => Some(mode),
        None => match info {
            Some(output) => output.preferred,
            None => None,
        },
    };
    assert(mode == chosen_mode(remembered, output_named(seen, name@)));
    match mode {
        Some((width, height)) => {
            arguments.push("--mode".to_owned());
            arguments.push(format_mode(width, height));
        },
        None => {
            arguments.push("--auto".to_owned());
        },
    }
    let ghost with_mode = strings_view(arguments@);
    assert(with_mode =~= head + mode_arguments(mode));

    // Position: stored absolute position, else right of the current primary.
    let position = match stored {
        Some(state) => state.position,
        None => None,
    };
    match position {
        Some((x, y)) => {
            arguments.push("--pos".to_owned());
            arguments.push(format_position(x, y));
        },
        None => {
            if let Some(primary) = current_primary(outputs) {
                if !same_text(primary.as_str(), name) {
                    arguments.push("--right-of".to_owned());
                    arguments.push(primary);
                }
            }
        },
    }
    let ghost with_position = strings_view(arguments@);
    assert(with_position =~= with_mode + position_arguments(position, primary_of(seen), name@));

    let primary = match stored {
        Some(state) => state.primary,
        None => false,
    };
    if primary {
        arguments.push("--primary".to_owned());
    }
    assert(strings_view(arguments@) =~= with_position + primary_arguments(primary));

    let workspaces: Vec<String> = match stored {
        Some(state) => state.workspaces.clone(),
        None => Vec::new(),
    };
    assert(strings_view(workspaces@) =~= (match remembered {
        Some(state) => state.workspaces,
        None => Seq::empty(),
    }));
    Restoration { arguments, workspaces }
}

/// How often i3 is asked whether it sees the output.
pub const MAX_CHECKS: u32 = 20;

/// How long to pause after i3 did not see the output, in milliseconds.
pub const PAUSE_MS: u64 = 100;

/// What came of the last step of a restoration.
#[derive(Clone, Copy, Debug, PartialEq, Eq, Structural)]
pub enum RestoreEvent {
    /// `xrandr` ran, and succeeded or not.
    Applied(bool),
    /// i3 was asked, and sees the output as active or not.
    Checked(bool),
}

/// What to do next in a restoration.
#[derive(Clone, Copy, Debug, PartialEq, Eq, Structural)]
pub enum RestoreAction {
    /// Leave the output as it is.
    Stop,
    /// Ask i3 whether it sees the output.
    Check,
    /// Pause, then ask i3 again.
    PauseThenCheck,
    /// Move the workspaces.
    Move,
    /// Pause, then move the workspaces although i3 does not see the output.
    PauseThenMove,
}

/// How a restoration goes on after `failures` checks in vain.
pub open spec fn restore_next(failures: u32, event: RestoreEvent) -> (u32, RestoreAction) {
    match event {
        RestoreEvent::Applied(true) => (0, RestoreAction::Check),
        RestoreEvent::Applied(false) => (failures, RestoreAction::Stop),
        RestoreEvent::Checked(true) => (failures, RestoreAction::Move),
        RestoreEvent::Checked(false) => if failures + 1 < MAX_CHECKS {
            ((failures + 1) as u32, RestoreAction::PauseThenCheck)
        } else {
            (MAX_CHECKS, RestoreAction::PauseThenMove)
        },
    }
}

/// Decides how a restoration goes on. i3 processes the RandR change
/// asynchronously; wait until it sees the output active before moving
/// workspaces onto it, but not forever.
pub fn restore_step(failures: u32, event: RestoreEvent) -> (next: (u32, RestoreAction))
    ensures
        next == restore_next(failures, event),
{
    match event {
        RestoreEvent::Applied(true) => (0, RestoreAction::Check),
        RestoreEvent::Applied(false) => (failures, RestoreAction::Stop),
        RestoreEvent::Checked(true) => (failures, RestoreAction::Move),
        RestoreEvent::Checked(false) => if failures < MAX_CHECKS - 1 {
            (failures + 1, RestoreAction::PauseThenCheck)
        } else {
            (MAX_CHECKS, RestoreAction::PauseThenMove)
        },
    }
}

/// Where a restoration stands after `xrandr` succeeded and `n` checks were in
/// vain.
pub open spec fn after_failures(n: nat) -> (u32, RestoreAction)
    decreases n,
{
    if n == 0 {
        restore_next(0, RestoreEvent::Applied(true))
    } else {
        restore_next(after_failures((n - 1) as nat).0, RestoreEvent::Checked(false))
    }
}

/// The wait for i3 is bounded: each check in vain is followed by a pause, and
/// the last one allowed by the move. A check that succeeds is followed by the
/// move at once.
pub proof fn law_wait_is_bounded(n: nat)
    requires
        n <= MAX_CHECKS,
    ensures
        after_failures(n).0 == n,
        n == 0 ==> after_failures(n).1 == RestoreAction::Check,
        0 < n < MAX_CHECKS ==> after_failures(n).1 == RestoreAction::PauseThenCheck,
        n == MAX_CHECKS ==> after_failures(n).1 == RestoreAction::PauseThenMove,
        restore_next(after_failures(n).0, RestoreEvent::Checked(true)).1 == RestoreAction::Move,
    decreases n,
{
    if n > 0 {
        law_wait_is_bounded((n - 1) as nat);
    }
}

/// An output is found by its name: it is one of the list, it bears the name, and
/// none before it does. None is found just when none bears the name.
pub proof fn law_found_output_bears_the_name(outputs: Seq<OutputInfoView>, name: Seq<char>)
    ensures
        match output_named(outputs, name) {
            Some(output) => exists|i: int|
                #![trigger outputs[i]]
                0 <= i < outputs.len() && outputs[i] == output && outputs[i].name == name && (
                forall|j: int| 0 <= j < i ==> (#[trigger] outputs[j]).name != name),
            None => forall|i: int| 0 <= i < outputs.len() ==> (#[trigger] outputs[i]).name != name,
        },
    decreases outputs.len(),
{
    if outputs.len() > 0 {
        if outputs[0].name == name {
            assert(outputs[0] == output_named(outputs, name)->0);
        } else {
            let rest = outputs.drop_first();
            law_found_output_bears_the_name(rest, name);
            match output_named(rest, name) {
                Some(output) => {
                    let i = choose|i: int|
                        #![trigger rest[i]]
                        0 <= i < rest.len() && rest[i] == output && rest[i].name == name && (forall|
                            j: int,
                        |
                            0 <= j < i ==> (#[trigger] rest[j]).name != name);
                    assert(outputs[i + 1] == rest[i]);
                    assert forall|j: int| 0 <= j < i + 1 implies (#[trigger] outputs[j]).name
                        != name by {
                        if j > 0 {
                            assert(outputs[j] == rest[j - 1]);
                        }
                    }
                },
                None => {
                    assert forall|i: int| 0 <= i < outputs.len() implies (
                    #[trigger] outputs[i]).name != name by {
                        if i > 0 {
                            assert(outputs[i] == rest[i - 1]);
                        }
                    }
                },
            }
        }
    }
}

/// The primary output is the first that is both flagged as primary and active;
/// there is none just when no output is both.
pub proof fn law_primary_output_is_flagged_and_active(outputs: Seq<OutputInfoView>)
    ensures
        match primary_of(outputs) {
            Some(name) => exists|i: int|
                #![trigger outputs[i]]
                0 <= i < outputs.len() && outputs[i].primary && outputs[i].active && outputs[i].name
                    == name && (forall|j: int|
                    0 <= j < i ==> !((#[trigger] outputs[j]).primary && outputs[j].active)),
            None => forall|i: int|
                0 <= i < outputs.len() ==> !((#[trigger] outputs[i]).primary && outputs[i].active),
        },
    decreases outputs.len(),
{
    if outputs.len() > 0 {
        if outputs[0].primary && outputs[0].active {
            assert(outputs[0].name == primary_of(outputs)->0);
        } else {
            let rest = outputs.drop_first();
            law_primary_output_is_flagged_and_active(rest);
            match primary_of(rest) {
                Some(name) => {
                    let i = choose|i: int|
                        #![trigger rest[i]]
                        0 <= i < rest.len() && rest[i].primary && rest[i].active && rest[i].name
                            == name && (forall|j: int|
                            0 <= j < i ==> !((#[trigger] rest[j]).primary && rest[j].active));
                    assert(outputs[i + 1] == rest[i]);
                    assert forall|j: int| 0 <= j < i + 1 implies !(
                    (#[trigger] outputs[j]).primary && outputs[j].active) by {
                        if j > 0 {
                            assert(outputs[j] == rest[j - 1]);
                        }
                    }
                },
                None => {
                    assert forall|i: int| 0 <= i < outputs.len() implies !(
                    (#[trigger] outputs[i]).primary && outputs[i].active) by {
                        if i > 0 {
                            assert(outputs[i] == rest[i - 1]);
                        }
                    }
                },
            }
        }
    }
}

/// What is remembered of an output is what the memory holds for its name.
pub proof fn law_stored_state(m: Map<Seq<char>, OutputStateView>, name: Seq<char>)
    ensures
        stored_state(m, name) is Some <==> m.contains_key(name),
        m.contains_key(name) ==> stored_state(m, name) == Some(m[name]),
{
}

/// Modes and positions are written as two numerals with an `x` between them.
pub proof fn law_modes_and_positions_as_xrandr_takes_them(mode: (u32, u32), position: (i32, i32))
    ensures
        mode_text(mode) == numeral(mode.0 as nat).push('x') + numeral(mode.1 as nat),
        position_text(position) == signed_numeral(position.0 as int).push('x') + signed_numeral(
            position.1 as int,
        ),
{
    reveal_strlit("x");
    assert(mode_text(mode) =~= numeral(mode.0 as nat).push('x') + numeral(mode.1 as nat));
    assert(position_text(position) =~= signed_numeral(position.0 as int).push('x')
        + signed_numeral(position.1 as int));
}

/// The arguments of a restoration begin with the output and its mode: the mode
/// that is remembered of it, else the preferred mode of the first output listed
/// under its own name, else `--auto`.
#[verifier::spinoff_prover]
pub proof fn law_restored_mode(
    m: Map<Seq<char>, OutputStateView>,
    outputs: Seq<OutputInfoView>,
    name: Seq<char>,
)
    ensures
        ({
            let arguments = restore_arguments(stored_state(m, name), outputs, name);
            let forgotten = !(m.contains_key(name) && m[name].resolution is Some);
            &&& arguments.len() >= 3
            &&& arguments[0] == "--output"@
            &&& arguments[1] == name
            &&& m.contains_key(name) ==> (m[name].resolution matches Some(mode) ==> {
                &&& arguments.len() >= 4
                &&& arguments[2] == "--mode"@
                &&& arguments[3] == mode_text(mode)
            })
            &&& forgotten ==> forall|i: int|
                0 <= i < outputs.len() && (#[trigger] outputs[i]).name == name && (forall|j: int|
                    0 <= j < i ==> (#[trigger] outputs[j]).name != name) ==> (
                match outputs[i].preferred {
                    Some(mode) => {
                        &&& arguments.len() >= 4
                        &&& arguments[2] == "--mode"@
                        &&& arguments[3] == mode_text(mode)
                    },
                    None => arguments[2] == "--auto"@,
                })
            &&& forgotten && (forall|i: int|
                0 <= i < outputs.len() ==> (#[trigger] outputs[i]).name != name) ==> arguments[2]
                == "--auto"@
        }),
{
    law_found_output_bears_the_name(outputs, name);
    if let Some(output) = output_named(outputs, name) {
        let k = choose|k: int|
            #![trigger outputs[k]]
            0 <= k < outputs.len() && outputs[k] == output && outputs[k].name == name && (forall|
                j: int,
            |
                0 <= j < k ==> (#[trigger] outputs[j]).name != name);
        assert(outputs[k].name == name);
        assert forall|i: int|
            0 <= i < outputs.len() && (#[trigger] outputs[i]).name == name && (forall|j: int|
                0 <= j < i ==> (#[trigger] outputs[j]).name != name) implies i == k by {
            if i < k {
                assert(outputs[i].name != name);
            } else if k < i {
                assert(outputs[k].name != name);
            }
        }
    }
}

/// The arguments of a restoration end with the place and the primary flag: the
/// position that is remembered, else right of the first output that is primary
/// and active, unless there is none or it is the output itself; and `--primary`
/// just when the output is remembered as primary.
#[verifier::spinoff_prover]
pub proof fn law_restored_place(
    m: Map<Seq<char>, OutputStateView>,
    outputs: Seq<OutputInfoView>,
    name: Seq<char>,
)
    ensures
        ({
            let arguments = restore_arguments(stored_state(m, name), outputs, name);
            let cut: int = if arguments[2] == "--auto"@ {
                3
            } else {
                4
            };
            let place = arguments.skip(cut);
            let flag = if m.contains_key(name) && m[name].primary {
                seq!["--primary"@]
            } else {
                Seq::empty()
            };
            let forgotten = !(m.contains_key(name) && m[name].position is Some);
            &&& cut <= arguments.len()
            &&& m.contains_key(name) ==> (m[name].position matches Some(position) ==> place == seq![
                "--pos"@,
                position_text(position),
            ] + flag)
            &&& forgotten ==> forall|i: int|
                0 <= i < outputs.len() && (#[trigger] outputs[i]).primary && outputs[i].active && (
                forall|j: int|
                    0 <= j < i ==> !((#[trigger] outputs[j]).primary && outputs[j].active))
                    ==> place == (if outputs[i].name != name {
                    seq!["--right-of"@, outputs[i].name]
                } else {
                    Seq::empty()
                }) + flag
            &&& forgotten && (forall|i: int|
                0 <= i < outputs.len() ==> !((#[trigger] outputs[i]).primary && outputs[i].active))
                ==> place == flag
        }),
{
    reveal_strlit("--auto");
    reveal_strlit("--mode");
    assert("--auto"@ != "--mode"@) by {
        assert("--auto"@[2] == 'a');
        assert("--mode"@[2] == 'm');
    }
    law_primary_output_is_flagged_and_active(outputs);
    let stored = stored_state(m, name);
    let arguments = restore_arguments(stored, outputs, name);
    let mode = chosen_mode(stored, output_named(outputs, name));
    let cut: int = if arguments[2] == "--auto"@ {
        3
    } else {
        4
    };
    assert(mode is None <==> cut == 3);
    let position = match stored {
        Some(state) => state.position,
        None => None,
    };
    let flag = primary_arguments(stored matches Some(state) && state.primary);
    assert(arguments.skip(cut) =~= position_arguments(position, primary_of(outputs), name) + flag);
    assert(Seq::<Seq<char>>::empty() + flag =~= flag);
    if let Some(primary) = primary_of(outputs) {
        let k = choose|k: int|
            #![trigger outputs[k]]
            0 <= k < outputs.len() && outputs[k].primary && outputs[k].active && outputs[k].name
                == primary && (forall|j: int|
                0 <= j < k ==> !((#[trigger] outputs[j]).primary && outputs[j].active));
        assert(outputs[k].primary && outputs[k].active);
        assert forall|i: int|
            0 <= i < outputs.len() && (#[trigger] outputs[i]).primary && outputs[i].active && (
            forall|j: int|
                0 <= j < i ==> !((#[trigger] outputs[j]).primary
                    && outputs[j].active)) implies i == k by {
            if i < k {
                assert(!(outputs[i].primary && outputs[i].active));
            } else if k < i {
                assert(!(outputs[k].primary && outputs[k].active));
            }
        }
    }
}

/// A restoration goes on only after `xrandr` succeeded, moves as soon as i3 sees
/// the output, and after any number of checks in vain either pauses and checks
/// again, one failure the wiser, or pauses and moves; never does it move without
/// one or the other, and never does it check more often than allowed.
pub proof fn law_restoration_steps(failures: u32)
    ensures
        restore_next(failures, RestoreEvent::Applied(false)).1 == RestoreAction::Stop,
        restore_next(failures, RestoreEvent::Applied(true)) == (0u32, RestoreAction::Check),
        restore_next(failures, RestoreEvent::Checked(true)).1 == RestoreAction::Move,
        failures + 1 < MAX_CHECKS ==> restore_next(failures, RestoreEvent::Checked(false)) == (
            (failures + 1) as u32,
            RestoreAction::PauseThenCheck,
        ),
        failures + 1 >= MAX_CHECKS ==> restore_next(failures, RestoreEvent::Checked(false)).1
            == RestoreAction::PauseThenMove,
{
}

/// The pauses after all the checks in vain make up two seconds.
pub proof fn law_wait_is_two_seconds()
    ensures
        MAX_CHECKS * PAUSE_MS == 2 * 1000,
        PAUSE_MS == 100,
{
}

} // verus!
