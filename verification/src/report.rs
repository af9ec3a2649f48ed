//! What the report of the displays says, told by its lines, words and
//! characters.

use crate::decimal::{
    i32_of, law_numbers_are_digits, law_numeral_reads_back, law_u32_numeral_reads_back, numeral,
    u32_of,
};
use crate::text::{
    first_at, is_digit, is_space, is_visible_word, law_white_space_holds_no_words,
    law_words_stand_between_white_space, lemma_first_at, lemma_first_at_is, lines_of, words_of,
    CharClass,
};
use crate::xrandr::{
    attributes_of, first_preferred, geometry_fits, geometry_of, header_of, is_header_line,
    is_mode_line, last_geometry, law_modes_belong_to_their_output, law_other_lines_say_nothing,
    line_fits, mode_of, offset_fits, offset_of, offsets_fit, offsets_of, read_lines, report_fits,
};
use vstd::prelude::*;

verus! {

/// A sign in front of a number: a plus leaves it, a minus negates it. Without a
/// sign in front a text is the number that it is, and an empty text is none.
pub proof fn law_offsets_are_signed(text: Seq<char>)
    ensures
        offset_of(seq!['+'] + text) == (match i32_of(text) {
            Some(v) => Some(v as int),
            None => None,
        }),
        offset_of(seq!['-'] + text) == (match i32_of(text) {
            Some(v) => Some(-(v as int)),
            None => None,
        }),
        text.len() > 0 && text[0] != '+' && text[0] != '-' ==> offset_of(text) == (match i32_of(
            text,
        ) {
            Some(v) => Some(v as int),
            None => None,
        }),
        text.len() == 0 ==> offset_of(text) is None,
{
    assert((seq!['+'] + text).drop_first() =~= text);
    assert((seq!['-'] + text).drop_first() =~= text);
}

/// Two packed offsets are cut at the first sign past the first character, and
/// both must be offsets.
pub proof fn law_packed_offsets(first: Seq<char>, second: Seq<char>)
    requires
        first.len() > 0,
        forall|k: int| 1 <= k < first.len() ==> #[trigger] first[k] != '+' && first[k] != '-',
        second.len() > 0,
        second[0] == '+' || second[0] == '-',
    ensures
        offsets_of(first) is None,
        offsets_of(first + second) == (match (offset_of(first), offset_of(second)) {
            (Some(x), Some(y)) => Some((x, y)),
            _ => None,
        }),
{
    let text = first + second;
    let cut = first.len() - 1;
    let own = first.drop_first();
    assert forall|k: int| 0 <= k < cut implies !CharClass::Sign.has(#[trigger] own[k]) by {
        assert(own[k] == first[k + 1]);
    }
    lemma_first_at_is(own, CharClass::Sign, cut);
    let tail = text.drop_first();
    assert forall|k: int| 0 <= k < cut implies !CharClass::Sign.has(#[trigger] tail[k]) by {
        assert(tail[k] == first[k + 1]);
    }
    assert(tail[cut] == second[0]);
    lemma_first_at_is(tail, CharClass::Sign, cut);
    assert(text.take(1 + cut) =~= first);
    assert(text.skip(1 + cut) =~= second);
}

/// A geometry is a width up to the first `x`, a height up to the first sign
/// after it, and two packed offsets; all four must be numbers.
#[verifier::spinoff_prover]
pub proof fn law_geometry_part_by_part(
    wide: Seq<char>,
    high: Seq<char>,
    right: Seq<char>,
    down: Seq<char>,
)
    requires
        forall|k: int| 0 <= k < wide.len() ==> #[trigger] wide[k] != 'x',
        forall|k: int| 0 <= k < high.len() ==> #[trigger] high[k] != '+' && high[k] != '-',
        right.len() > 0,
        right[0] == '+' || right[0] == '-',
        forall|k: int| 1 <= k < right.len() ==> #[trigger] right[k] != '+' && right[k] != '-',
        down.len() > 0,
        down[0] == '+' || down[0] == '-',
    ensures
        geometry_of(wide + seq!['x'] + (high + (right + down))) == (match (
            u32_of(wide),
            u32_of(high),
            offset_of(right),
            offset_of(down),
        ) {
            (Some(width), Some(height), Some(x), Some(y)) => Some((width, height, x, y)),
            _ => None,
        }),
{
    law_packed_offsets(right, down);
    lemma_cut_at_x(wide, high + (right + down));
    assert((right + down)[0] == right[0]);
    lemma_cut_at_sign(high, right + down);
}

/// A text is no geometry without an `x`, or without two signs after the first
/// one.
pub proof fn law_other_text_is_no_geometry(wide: Seq<char>, high: Seq<char>, right: Seq<char>)
    requires
        forall|k: int| 0 <= k < wide.len() ==> #[trigger] wide[k] != 'x',
        forall|k: int| 0 <= k < high.len() ==> #[trigger] high[k] != '+' && high[k] != '-',
        right.len() > 0,
        right[0] == '+' || right[0] == '-',
        forall|k: int| 1 <= k < right.len() ==> #[trigger] right[k] != '+' && right[k] != '-',
    ensures
        geometry_of(wide) is None,
        geometry_of(wide + seq!['x'] + high) is None,
        geometry_of(wide + seq!['x'] + (high + right)) is None,
{
    law_packed_offsets(right, seq!['+']);
    lemma_no_x(wide);
    lemma_cut_at_x(wide, high);
    lemma_cut_at_x(wide, high + right);
    lemma_cut_at_sign(high, right);
    lemma_cut_at_sign(high, Seq::empty());
    assert(high + Seq::<char>::empty() =~= high);
}

/// A text is cut at its first sign.
proof fn lemma_cut_at_sign(before: Seq<char>, after: Seq<char>)
    requires
        forall|k: int| 0 <= k < before.len() ==> #[trigger] before[k] != '+' && before[k] != '-',
        after.len() == 0 || after[0] == '+' || after[0] == '-',
    ensures
        first_at(before + after, CharClass::Sign) == before.len(),
        (before + after).take(before.len() as int) == before,
        (before + after).skip(before.len() as int) == after,
{
    let text = before + after;
    let cut = before.len() as int;
    assert forall|k: int| 0 <= k < cut implies !CharClass::Sign.has(#[trigger] text[k]) by {
        assert(text[k] == before[k]);
    }
    if after.len() > 0 {
        assert(text[cut] == after[0]);
    }
    lemma_first_at_is(text, CharClass::Sign, cut);
    assert(text.take(cut) =~= before);
    assert(text.skip(cut) =~= after);
}

/// A text without `x` is searched for it in vain.
proof fn lemma_no_x(text: Seq<char>)
    requires
        forall|k: int| 0 <= k < text.len() ==> #[trigger] text[k] != 'x',
    ensures
        first_at(text, CharClass::Cross) == text.len(),
{
    assert forall|k: int| 0 <= k < text.len() implies !CharClass::Cross.has(#[trigger] text[k]) by {
        assert(text[k] != 'x');
    }
    lemma_first_at_is(text, CharClass::Cross, text.len() as int);
}

/// A text is cut at its first `x`.
proof fn lemma_cut_at_x(before: Seq<char>, after: Seq<char>)
    requires
        forall|k: int| 0 <= k < before.len() ==> #[trigger] before[k] != 'x',
    ensures
        ({
            let text = before + seq!['x'] + after;
            let cut = before.len() as int;
            &&& first_at(text, CharClass::Cross) == cut
            &&& cut < text.len()
            &&& text.take(cut) == before
            &&& text.skip(cut + 1) == after
        }),
{
    let text = before + seq!['x'] + after;
    let cut = before.len() as int;
    assert forall|k: int| 0 <= k < cut implies !CharClass::Cross.has(#[trigger] text[k]) by {
        assert(text[k] == before[k]);
    }
    assert(text[cut] == 'x');
    lemma_first_at_is(text, CharClass::Cross, cut);
    assert(text.take(cut) =~= before);
    assert(text.skip(cut + 1) =~= after);
}

/// A mode line names its resolution in its first word: the width up to the first
/// `x`, and the digits after it as the height, whatever follows them.
#[verifier::spinoff_prover]
pub proof fn law_mode_line_names_its_resolution(
    lead: Seq<char>,
    wide: Seq<char>,
    high: Seq<char>,
    rest: Seq<char>,
)
    requires
        forall|k: int| 0 <= k < lead.len() ==> is_space(#[trigger] lead[k]),
        forall|k: int| 0 <= k < wide.len() ==> #[trigger] wide[k] != 'x' && !is_space(wide[k]),
        forall|k: int| 0 <= k < high.len() ==> '0' <= #[trigger] high[k] <= '9',
        rest.len() == 0 || !('0' <= rest[0] <= '9'),
    ensures
        mode_of(lead + wide + seq!['x'] + high + rest) == (match (u32_of(wide), u32_of(high)) {
            (Some(width), Some(height)) => Some((width, height)),
            _ => None,
        }),
{
    let end = first_at(rest, CharClass::Space);
    lemma_first_at(rest, CharClass::Space);
    let tail = rest.take(end);
    let after = rest.skip(end);
    let remainder = high + tail;
    let token = wide + seq!['x'] + remainder;
    assert forall|k: int| 0 <= k < token.len() implies !is_space(#[trigger] token[k]) by {
        if k < wide.len() {
            assert(token[k] == wide[k]);
        } else if k == wide.len() {
            assert(token[k] == 'x');
        } else if k < wide.len() + 1 + high.len() {
            assert(token[k] == high[k - wide.len() - 1]);
        } else {
            assert(token[k] == rest[k - wide.len() - 1 - high.len()]);
            assert(!CharClass::Space.has(rest[k - wide.len() - 1 - high.len()]));
        }
    }
    if after.len() > 0 {
        assert(after[0] == rest[end]);
    }
    law_words_stand_between_white_space(lead, token, after);
    let line = lead + wide + seq!['x'] + high + rest;
    assert(tail + after =~= rest);
    assert(line =~= lead + token + after);
    assert(words_of(line)[0] == token);
    lemma_cut_at_x(wide, remainder);
    let digits = high.len() as int;
    assert forall|k: int| 0 <= k < digits implies !CharClass::NonDigit.has(
        #[trigger] remainder[k],
    ) by {
        assert(remainder[k] == high[k]);
    }
    if digits < remainder.len() {
        assert(remainder[digits] == rest[0]);
    }
    lemma_first_at_is(remainder, CharClass::NonDigit, digits);
    assert(remainder.take(digits) =~= high);
}

/// A line names no resolution when its first word holds no `x`, or when it has
/// no words.
pub proof fn law_other_lines_name_no_resolution(
    lead: Seq<char>,
    word: Seq<char>,
    rest: Seq<char>,
)
    requires
        forall|k: int| 0 <= k < lead.len() ==> is_space(#[trigger] lead[k]),
        is_visible_word(word),
        forall|k: int| 0 <= k < word.len() ==> #[trigger] word[k] != 'x',
        rest.len() == 0 || is_space(rest[0]),
    ensures
        mode_of(lead) is None,
        mode_of(lead + word + rest) is None,
{
    law_white_space_holds_no_words(lead);
    law_words_stand_between_white_space(lead, word, rest);
    assert(words_of(lead + word + rest)[0] == word);
    lemma_no_x(word);
}

/// The last of the tokens that is a geometry is the one found.
proof fn lemma_last_geometry(tokens: Seq<Seq<char>>, at: int)
    requires
        0 <= at < tokens.len(),
        geometry_of(tokens[at]) is Some,
        forall|j: int| at < j < tokens.len() ==> geometry_of(#[trigger] tokens[j]) is None,
    ensures
        last_geometry(tokens) == geometry_of(tokens[at]),
    decreases tokens.len(),
{
    let rest = tokens.drop_last();
    let last = tokens.len() - 1;
    if at < last {
        assert(geometry_of(tokens[last]) is None);
        assert(rest[at] == tokens[at]);
        assert forall|j: int| at < j < rest.len() implies geometry_of(
            #[trigger] rest[j],
        ) is None by {
            assert(rest[j] == tokens[j]);
        }
        lemma_last_geometry(rest, at);
    }
}

/// No geometry is found among tokens none of which is one.
proof fn lemma_no_last_geometry(tokens: Seq<Seq<char>>)
    requires
        forall|i: int| 0 <= i < tokens.len() ==> geometry_of(#[trigger] tokens[i]) is None,
    ensures
        last_geometry(tokens) is None,
    decreases tokens.len(),
{
    if tokens.len() > 0 {
        let rest = tokens.drop_last();
        assert forall|i: int| 0 <= i < rest.len() implies geometry_of(
            #[trigger] rest[i],
        ) is None by {
            assert(rest[i] == tokens[i]);
        }
        lemma_no_last_geometry(rest);
        assert(geometry_of(tokens[tokens.len() - 1]) is None);
    }
}

/// A single line announces an output just when it does not open the report, is
/// not indented, and its second word is `connected` or `disconnected`.
pub proof fn law_headers_announce_outputs(line: Seq<char>)
    ensures
        ({
            let words = words_of(line);
            let announces = {
                &&& !"Screen "@.is_prefix_of(line)
                &&& line.len() > 0 ==> line[0] != ' ' && line[0] != '\t'
                &&& words.len() >= 2
                &&& words[1] == "connected"@ || words[1] == "disconnected"@
            };
            &&& announces ==> is_header_line(line) && read_lines(seq![line]).len() == 1
            &&& !announces ==> !is_header_line(line) && read_lines(seq![line]).len() == 0
        }),
{
    reveal_with_fuel(read_lines, 2);
    assert(seq![line].drop_last() =~= Seq::<Seq<char>>::empty());
    lemma_indented_is_no_screen_line(line);
}

/// An indented line does not open the report.
proof fn lemma_indented_is_no_screen_line(line: Seq<char>)
    ensures
        line.len() > 0 && (line[0] == ' ' || line[0] == '\t') ==> !"Screen "@.is_prefix_of(line)
            && is_mode_line(line),
{
    reveal_strlit("Screen ");
    if "Screen "@.is_prefix_of(line) {
        assert(line[0] == line.subrange(0, "Screen "@.len() as int)[0]);
    }
}

/// A header alone is read as the one output that it announces.
proof fn lemma_header_alone(line: Seq<char>)
    requires
        is_header_line(line),
    ensures
        read_lines(seq![line]) == seq![header_of(line)],
{
    reveal_with_fuel(read_lines, 2);
    assert(seq![line].drop_last() =~= Seq::<Seq<char>>::empty());
    assert(read_lines(seq![line]) =~= seq![header_of(line)]);
}

/// What a header says of its output, word by word: the name is its first word,
/// and the second says whether it is connected. Among the others, the word
/// `primary` makes it the primary output.
pub proof fn law_header_word_by_word(line: Seq<char>)
    requires
        is_header_line(line),
    ensures
        read_lines(seq![line]).len() == 1,
        ({
            let words = words_of(line);
            let output = read_lines(seq![line])[0];
            &&& output.name == words[0]
            &&& words[1] == "connected"@ ==> output.connected
            &&& words[1] == "disconnected"@ ==> !output.connected
            &&& output.primary <==> exists|i: int|
                2 <= i < words.len() && #[trigger] words[i] == "primary"@
            &&& output.preferred is None
        }),
{
    lemma_header_alone(line);
    let words = words_of(line);
    let attributes = attributes_of(line);
    reveal_strlit("connected");
    reveal_strlit("disconnected");
    assert("connected"@ != "disconnected"@) by {
        assert("connected"@.len() != "disconnected"@.len());
    }
    if header_of(line).primary {
        let i = choose|i: int| 0 <= i < attributes.len() && attributes[i] == "primary"@;
        assert(words[i + 2] == "primary"@);
    }
    if exists|i: int| 2 <= i < words.len() && #[trigger] words[i] == "primary"@ {
        let i = choose|i: int| 2 <= i < words.len() && #[trigger] words[i] == "primary"@;
        assert(attributes[i - 2] == "primary"@);
    }
}

/// A geometry among the words of a header, past the name and the status, makes
/// its output active; the last one tells the resolution and the position.
pub proof fn law_header_with_geometry(line: Seq<char>, at: int)
    requires
        is_header_line(line),
        2 <= at < words_of(line).len(),
        geometry_of(words_of(line)[at]) is Some,
        forall|j: int|
            at < j < words_of(line).len() ==> geometry_of(#[trigger] words_of(line)[j]) is None,
    ensures
        read_lines(seq![line]).len() == 1,
        ({
            let output = read_lines(seq![line])[0];
            &&& output.active
            &&& geometry_of(words_of(line)[at]) matches Some((width, height, x, y))
                && output.resolution == Some((width, height)) && output.position == Some(
                (x as i32, y as i32),
            )
        }),
{
    lemma_header_alone(line);
    let attributes = attributes_of(line);
    assert(attributes[at - 2] == words_of(line)[at]);
    assert forall|j: int| at - 2 < j < attributes.len() implies geometry_of(
        #[trigger] attributes[j],
    ) is None by {
        assert(attributes[j] == words_of(line)[j + 2]);
    }
    lemma_last_geometry(attributes, at - 2);
}

/// A header without a geometry among those words announces an output that is not
/// active and has neither resolution nor position.
pub proof fn law_header_without_geometry(line: Seq<char>)
    requires
        is_header_line(line),
        forall|j: int|
            2 <= j < words_of(line).len() ==> geometry_of(#[trigger] words_of(line)[j]) is None,
    ensures
        read_lines(seq![line]).len() == 1,
        ({
            let output = read_lines(seq![line])[0];
            !output.active && output.resolution is None && output.position is None
        }),
{
    lemma_header_alone(line);
    let attributes = attributes_of(line);
    assert forall|j: int| 0 <= j < attributes.len() implies geometry_of(
        #[trigger] attributes[j],
    ) is None by {
        assert(attributes[j] == words_of(line)[j + 2]);
    }
    lemma_no_last_geometry(attributes);
}

/// The preferred mode among mode lines is that of the first line that holds a
/// plus sign and names a resolution.
proof fn lemma_first_preferred(modes: Seq<Seq<char>>, at: int, plus: int)
    requires
        0 <= at < modes.len(),
        0 <= plus < modes[at].len(),
        modes[at][plus] == '+',
        mode_of(modes[at]) is Some,
        forall|i: int|
            0 <= i < at ==> mode_of(#[trigger] modes[i]) is None || forall|k: int|
                0 <= k < modes[i].len() ==> #[trigger] modes[i][k] != '+',
    ensures
        first_preferred(modes) == mode_of(modes[at]),
    decreases modes.len(),
{
    let rest = modes.drop_last();
    let last = modes.len() - 1;
    if at < last {
        assert(rest[at] == modes[at]);
        assert forall|i: int| 0 <= i < at implies mode_of(#[trigger] rest[i]) is None || forall|
            k: int,
        |
            0 <= k < rest[i].len() ==> #[trigger] rest[i][k] != '+' by {
            assert(rest[i] == modes[i]);
        }
        lemma_first_preferred(rest, at, plus);
    } else {
        assert forall|i: int| 0 <= i < rest.len() implies mode_of(#[trigger] rest[i]) is None
            || forall|k: int| 0 <= k < rest[i].len() ==> #[trigger] rest[i][k] != '+' by {
            assert(rest[i] == modes[i]);
        }
        lemma_none_preferred(rest);
        assert(modes.last().contains('+'));
    }
}

/// Mode lines none of which both holds a plus sign and names a resolution have
/// no preferred mode among them.
proof fn lemma_none_preferred(modes: Seq<Seq<char>>)
    requires
        forall|i: int|
            0 <= i < modes.len() ==> mode_of(#[trigger] modes[i]) is None || forall|k: int|
                0 <= k < modes[i].len() ==> #[trigger] modes[i][k] != '+',
    ensures
        first_preferred(modes) is None,
    decreases modes.len(),
{
    if modes.len() > 0 {
        let rest = modes.drop_last();
        assert forall|i: int| 0 <= i < rest.len() implies mode_of(#[trigger] rest[i]) is None
            || forall|k: int| 0 <= k < rest[i].len() ==> #[trigger] rest[i][k] != '+' by {
            assert(rest[i] == modes[i]);
        }
        lemma_none_preferred(rest);
        let last = modes[modes.len() - 1];
        assert(mode_of(last) is None || forall|k: int|
            0 <= k < last.len() ==> #[trigger] last[k] != '+');
    }
}

/// A header and the indented lines after it add one output, which is as the
/// header says but for its preferred mode; the outputs before it stay.
proof fn lemma_modes_add_preferred(
    before: Seq<Seq<char>>,
    header: Seq<char>,
    modes: Seq<Seq<char>>,
)
    requires
        is_header_line(header),
        forall|i: int|
            0 <= i < modes.len() ==> (#[trigger] modes[i]).len() > 0 && (modes[i][0] == ' '
                || modes[i][0] == '\t'),
    ensures
        ({
            let all = read_lines(before.push(header) + modes);
            &&& all.len() == read_lines(before).len() + 1
            &&& all.drop_last() == read_lines(before)
            &&& all.last().name == read_lines(seq![header])[0].name
            &&& all.last().connected == read_lines(seq![header])[0].connected
            &&& all.last().active == read_lines(seq![header])[0].active
            &&& all.last().primary == read_lines(seq![header])[0].primary
            &&& all.last().resolution == read_lines(seq![header])[0].resolution
            &&& all.last().position == read_lines(seq![header])[0].position
            &&& all.last().preferred == first_preferred(modes)
        }),
{
    assert forall|i: int| 0 <= i < modes.len() implies is_mode_line(#[trigger] modes[i]) by {
        lemma_indented_is_no_screen_line(modes[i]);
    }
    law_modes_belong_to_their_output(before, header, modes);
    lemma_header_alone(header);
    let all = read_lines(before.push(header) + modes);
    assert(all.drop_last() =~= read_lines(before));
}

/// The indented lines after a header tell the preferred mode of its output: it
/// is the resolution named by the first of them that holds a plus sign, anywhere
/// in the line, and names a resolution. All else is as the header says, and the
/// outputs before it stay.
pub proof fn law_first_marked_mode_is_preferred(
    before: Seq<Seq<char>>,
    header: Seq<char>,
    modes: Seq<Seq<char>>,
    at: int,
    plus: int,
)
    requires
        is_header_line(header),
        forall|i: int|
            0 <= i < modes.len() ==> (#[trigger] modes[i]).len() > 0 && (modes[i][0] == ' '
                || modes[i][0] == '\t'),
        0 <= at < modes.len(),
        0 <= plus < modes[at].len(),
        modes[at][plus] == '+',
        mode_of(modes[at]) is Some,
        forall|i: int|
            0 <= i < at ==> mode_of(#[trigger] modes[i]) is None || forall|k: int|
                0 <= k < modes[i].len() ==> #[trigger] modes[i][k] != '+',
    ensures
        ({
            let all = read_lines(before.push(header) + modes);
            &&& all.len() == read_lines(before).len() + 1
            &&& all.drop_last() == read_lines(before)
            &&& all.last().preferred == mode_of(modes[at])
            &&& all.last().name == read_lines(seq![header])[0].name
            &&& all.last().connected == read_lines(seq![header])[0].connected
            &&& all.last().active == read_lines(seq![header])[0].active
            &&& all.last().primary == read_lines(seq![header])[0].primary
            &&& all.last().resolution == read_lines(seq![header])[0].resolution
            &&& all.last().position == read_lines(seq![header])[0].position
        }),
{
    lemma_modes_add_preferred(before, header, modes);
    lemma_first_preferred(modes, at, plus);
}

/// Without an indented line that both holds a plus sign and names a resolution
/// an output has no preferred mode. All else is as the header says, and the
/// outputs before it stay.
pub proof fn law_unmarked_modes_are_not_preferred(
    before: Seq<Seq<char>>,
    header: Seq<char>,
    modes: Seq<Seq<char>>,
)
    requires
        is_header_line(header),
        forall|i: int|
            0 <= i < modes.len() ==> (#[trigger] modes[i]).len() > 0 && (modes[i][0] == ' '
                || modes[i][0] == '\t'),
        forall|i: int|
            0 <= i < modes.len() ==> mode_of(#[trigger] modes[i]) is None || forall|k: int|
                0 <= k < modes[i].len() ==> #[trigger] modes[i][k] != '+',
    ensures
        ({
            let all = read_lines(before.push(header) + modes);
            &&& all.len() == read_lines(before).len() + 1
            &&& all.drop_last() == read_lines(before)
            &&& all.last().preferred is None
            &&& all.last().name == read_lines(seq![header])[0].name
            &&& all.last().connected == read_lines(seq![header])[0].connected
            &&& all.last().active == read_lines(seq![header])[0].active
            &&& all.last().primary == read_lines(seq![header])[0].primary
            &&& all.last().resolution == read_lines(seq![header])[0].resolution
            &&& all.last().position == read_lines(seq![header])[0].position
        }),
{
    lemma_modes_add_preferred(before, header, modes);
    lemma_none_preferred(modes);
}

/// A mode line as `xrandr` prints it after a header gives the output its
/// preferred mode wherever behind the mode the plus sign stands, also directly
/// behind the star of the current mode.
pub proof fn law_marked_mode_line(
    header: Seq<char>,
    lead: Seq<char>,
    width: u32,
    height: u32,
    rest: Seq<char>,
    plus: int,
)
    requires
        is_header_line(header),
        lead.len() > 0,
        forall|k: int| 0 <= k < lead.len() ==> #[trigger] lead[k] == ' ' || lead[k] == '\t',
        rest.len() > 0,
        !('0' <= rest[0] <= '9'),
        0 <= plus < rest.len(),
        rest[plus] == '+',
    ensures
        ({
            let line = lead + numeral(width as nat) + seq!['x'] + numeral(height as nat) + rest;
            let all = read_lines(seq![header, line]);
            all.len() == 1 && all[0].preferred == Some((width, height))
        }),
{
    let wide = numeral(width as nat);
    let high = numeral(height as nat);
    law_numeral_reads_back(width as nat);
    law_numeral_reads_back(height as nat);
    law_u32_numeral_reads_back(width);
    law_u32_numeral_reads_back(height);
    assert forall|k: int| 0 <= k < lead.len() implies is_space(#[trigger] lead[k]) by {
        assert(lead[k] == ' ' || lead[k] == '\t');
    }
    assert forall|k: int| 0 <= k < wide.len() implies #[trigger] wide[k] != 'x' && !is_space(
        wide[k],
    ) by {
        assert(is_digit(wide[k]));
    }
    assert forall|k: int| 0 <= k < high.len() implies '0' <= #[trigger] high[k] <= '9' by {
        assert(is_digit(high[k]));
    }
    law_mode_line_names_its_resolution(lead, wide, high, rest);
    let line = lead + wide + seq!['x'] + high + rest;
    let modes = seq![line];
    assert(line[0] == lead[0]);
    assert(lead[0] == ' ' || lead[0] == '\t');
    let index = lead.len() + wide.len() + 1 + high.len() + plus;
    assert(line[index] == rest[plus]);
    let before = Seq::<Seq<char>>::empty();
    law_first_marked_mode_is_preferred(before, header, modes, 0, index);
    assert(before.push(header) + modes =~= seq![header, line]);
}

/// Lines none of which is a header announce no outputs.
pub proof fn law_no_outputs_without_headers(lines: Seq<Seq<char>>)
    requires
        forall|i: int| 0 <= i < lines.len() ==> !is_header_line(#[trigger] lines[i]),
    ensures
        read_lines(lines).len() == 0,
    decreases lines.len(),
{
    if lines.len() > 0 {
        let rest = lines.drop_last();
        assert forall|i: int| 0 <= i < rest.len() implies !is_header_line(#[trigger] rest[i]) by {
            assert(rest[i] == lines[i]);
        }
        law_no_outputs_without_headers(rest);
        assert(!is_header_line(lines[lines.len() - 1]));
    }
}

/// Every header announces one output, and no other line does: there are as many
/// outputs as headers, in the same order, under the names that the headers give
/// and connected as they say.
#[verifier::spinoff_prover]
pub proof fn law_one_output_per_header(lines: Seq<Seq<char>>)
    ensures
        ({
            let headers = lines.filter(|line: Seq<char>| is_header_line(line));
            let outputs = read_lines(lines);
            &&& outputs.len() == headers.len()
            &&& forall|i: int|
                0 <= i < outputs.len() ==> {
                    let said = #[trigger] read_lines(seq![headers[i]]);
                    &&& said.len() == 1
                    &&& outputs[i].name == said[0].name
                    &&& outputs[i].connected == said[0].connected
                    &&& outputs[i].active == said[0].active
                    &&& outputs[i].primary == said[0].primary
                    &&& outputs[i].resolution == said[0].resolution
                    &&& outputs[i].position == said[0].position
                }
        }),
    decreases lines.len(),
{
    let is_header = |line: Seq<char>| is_header_line(line);
    reveal(Seq::filter);
    if lines.len() > 0 {
        let rest = lines.drop_last();
        let last = lines.last();
        law_one_output_per_header(rest);
        let headers = lines.filter(is_header);
        let earlier = rest.filter(is_header);
        let outputs = read_lines(lines);
        let before = read_lines(rest);
        assert forall|i: int| 0 <= i < outputs.len() implies {
            let said = #[trigger] read_lines(seq![headers[i]]);
            &&& said.len() == 1
            &&& outputs[i].name == said[0].name
            &&& outputs[i].connected == said[0].connected
            &&& outputs[i].active == said[0].active
            &&& outputs[i].primary == said[0].primary
            &&& outputs[i].resolution == said[0].resolution
            &&& outputs[i].position == said[0].position
        } by {
            if i < before.len() {
                assert(headers[i] == earlier[i]);
                assert(read_lines(seq![earlier[i]]).len() == 1);
                assert(outputs[i].name == before[i].name);
            } else {
                assert(headers[i] == last);
                lemma_header_alone(last);
            }
        }
    }
}

/// A line that is not indented, and opens the report or has no status as its
/// second word, says nothing: the outputs are the same without it.
pub proof fn law_lines_without_status_say_nothing(
    before: Seq<Seq<char>>,
    line: Seq<char>,
    after: Seq<Seq<char>>,
)
    requires
        line.len() > 0 ==> line[0] != ' ' && line[0] != '\t',
        ({
            ||| "Screen "@.is_prefix_of(line)
            ||| words_of(line).len() < 2
            ||| words_of(line)[1] != "connected"@ && words_of(line)[1] != "disconnected"@
        }),
    ensures
        read_lines(before + seq![line] + after) == read_lines(before + after),
{
    law_headers_announce_outputs(line);
    law_other_lines_say_nothing(before, line, after);
}

/// The one offset that does not fit is a minus sign before the smallest number.
pub proof fn law_offset_that_does_not_fit(text: Seq<char>)
    ensures
        offset_fits(text) <==> !(text.len() > 0 && text[0] == '-' && i32_of(text.drop_first())
            == Some(i32::MIN)),
{
}

/// Two packed offsets do not fit only for the second one, and only if the first
/// is an offset too: the first holds no second sign.
pub proof fn law_packed_offsets_that_do_not_fit(first: Seq<char>, second: Seq<char>)
    requires
        first.len() > 0,
        forall|k: int| 1 <= k < first.len() ==> #[trigger] first[k] != '+' && first[k] != '-',
        second.len() > 0,
        second[0] == '+' || second[0] == '-',
    ensures
        offsets_fit(first),
        offsets_fit(first + second) <==> !(offset_of(first) is Some && second[0] == '-' && i32_of(
            second.drop_first(),
        ) == Some(i32::MIN)),
{
    law_packed_offsets(first, second);
    law_offset_that_does_not_fit(first);
    law_offset_that_does_not_fit(second);
    if first[0] == '-' && first.len() > 1 {
        let digits = first.drop_first();
        assert(first[1] != '+' && first[1] != '-');
        assert(digits[0] == first[1]);
        law_numbers_are_digits(digits);
    }
}

/// A geometry does not fit just when its last offset does not.
pub proof fn law_geometries_that_do_not_fit(
    wide: Seq<char>,
    high: Seq<char>,
    right: Seq<char>,
    down: Seq<char>,
)
    requires
        forall|k: int| 0 <= k < wide.len() ==> #[trigger] wide[k] != 'x',
        forall|k: int| 0 <= k < high.len() ==> #[trigger] high[k] != '+' && high[k] != '-',
        right.len() > 0,
        right[0] == '+' || right[0] == '-',
        forall|k: int| 1 <= k < right.len() ==> #[trigger] right[k] != '+' && right[k] != '-',
        down.len() > 0,
        down[0] == '+' || down[0] == '-',
    ensures
        geometry_fits(wide + seq!['x'] + (high + (right + down))) <==> !(u32_of(wide) is Some
            && u32_of(high) is Some && offset_of(right) is Some && down[0] == '-' && i32_of(
            down.drop_first(),
        ) == Some(i32::MIN)),
{
    law_geometry_part_by_part(wide, high, right, down);
    law_packed_offsets(right, down);
    law_packed_offsets_that_do_not_fit(right, down);
}

/// Text that is no geometry fits.
pub proof fn law_other_text_fits(token: Seq<char>)
    ensures
        geometry_of(token) is None ==> geometry_fits(token),
{
}

/// A report fits just when the words of its headers do, past the name and the
/// status.
pub proof fn law_report_fits_word_by_word(text: Seq<char>)
    ensures
        report_fits(text) <==> forall|i: int, j: int|
            0 <= i < lines_of(text).len() && is_header_line(lines_of(text)[i]) && 2 <= j < words_of(
                lines_of(text)[i],
            ).len() ==> geometry_fits(#[trigger] words_of(lines_of(text)[i])[j]),
{
    let lines = lines_of(text);
    if report_fits(text) {
        assert forall|i: int, j: int|
            0 <= i < lines.len() && is_header_line(lines[i]) && 2 <= j < words_of(
                lines[i],
            ).len() implies geometry_fits(#[trigger] words_of(lines[i])[j]) by {
            assert(line_fits(lines[i]));
            assert(attributes_of(lines[i])[j - 2] == words_of(lines[i])[j]);
        }
    } else {
        let i = choose|i: int| 0 <= i < lines.len() && !line_fits(#[trigger] lines[i]);
        let a = choose|a: int|
            0 <= a < attributes_of(lines[i]).len() && !geometry_fits(
                #[trigger] attributes_of(lines[i])[a],
            );
        assert(words_of(lines[i])[a + 2] == attributes_of(lines[i])[a]);
    }
}

} // verus!
