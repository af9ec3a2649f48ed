//! The `xrandr` command line: reading what `xrandr --query` prints.

use crate::decimal::{
    i32_of, law_i32_numeral_reads_back, law_numeral_reads_back, law_u32_numeral_reads_back,
    lemma_value_not_negative, numeral, parse_i32, parse_u32, signed_of, u32_of,
};
use crate::names::NameSet;
use crate::output::{outputs_view, OutputInfoView};
use crate::text::{
    find, first_at, is_digit, is_visible_word, law_lines_join, law_words_are_visible,
    lemma_first_at, lemma_first_at_is, lines, lines_of, lossy_text, prefix, same_text,
    starts_with, suffix, text_from_bytes, views, words, words_of, CharClass,
};
use vstd::prelude::*;
use vstd::utf8::{decode_utf8, valid_utf8};

pub use crate::output::OutputInfo;

verus! {

/// The value of a signed offset such as `+0`, `-100` or `+-5`. The sign in front
/// is applied to a number that may carry a sign of its own.
pub open spec fn offset_of(text: Seq<char>) -> Option<int> {
    if text.len() == 0 {
        None
    } else if text[0] == '+' || text[0] == '-' {
        match i32_of(text.drop_first()) {
            Some(v) => Some(
                if text[0] == '-' {
                    -(v as int)
                } else {
                    v as int
                },
            ),
            None => None,
        }
    } else {
        match i32_of(text) {
            Some(v) => Some(v as int),
            None => None,
        }
    }
}

/// The values of two offsets written one after the other: the second begins at
/// the first sign past the first character.
pub open spec fn offsets_of(text: Seq<char>) -> Option<(int, int)> {
    if text.len() == 0 {
        None
    } else {
        let second = 1 + first_at(text.drop_first(), CharClass::Sign);
        if second == text.len() {
            None
        } else {
            match (offset_of(text.take(second)), offset_of(text.skip(second))) {
                (Some(x), Some(y)) => Some((x, y)),
                _ => None,
            }
        }
    }
}

/// Width, height and offsets of a geometry such as `1920x1080+0+0`. The width
/// ends at the first `x`, the height at the first sign after it.
pub open spec fn geometry_of(token: Seq<char>) -> Option<(u32, u32, int, int)> {
    let cross = first_at(token, CharClass::Cross);
    if cross == token.len() {
        None
    } else {
        let remainder = token.skip(cross + 1);
        let sign = first_at(remainder, CharClass::Sign);
        if sign == remainder.len() {
            None
        } else {
            match (
                u32_of(token.take(cross)),
                u32_of(remainder.take(sign)),
                offsets_of(remainder.skip(sign)),
            ) {
                (Some(width), Some(height), Some((x, y))) => Some((width, height, x, y)),
                _ => None,
            }
        }
    }
}

/// Whether the offset that a text stands for, if any, is a 32-bit number. Only
/// a minus sign before the smallest one leads outside.
pub open spec fn offset_fits(text: Seq<char>) -> bool {
    offset_of(text) matches Some(v) ==> v <= i32::MAX
}

/// Whether the two offsets that a text stands for, if any, are 32-bit numbers.
pub open spec fn offsets_fit(text: Seq<char>) -> bool {
    offsets_of(text) matches Some((x, y)) ==> x <= i32::MAX && y <= i32::MAX
}

/// Whether the offsets of a geometry token, if it is one, are 32-bit numbers.
pub open spec fn geometry_fits(token: Seq<char>) -> bool {
    geometry_of(token) matches Some((_, _, x, y)) ==> x <= i32::MAX && y <= i32::MAX
}

/// A run of characters without a second sign is an offset that fits.
proof fn lemma_first_offset_fits(text: Seq<char>)
    requires
        forall|i: int| 1 <= i < text.len() ==> !CharClass::Sign.has(#[trigger] text[i]),
    ensures
        offset_fits(text),
{
    if text.len() > 0 && text[0] == '-' {
        let digits = text.drop_first();
        if let Some(v) = signed_of(digits) {
            assert(!CharClass::Sign.has(text[1]));
            assert(digits[0] == text[1]);
            lemma_value_not_negative(digits);
        }
    }
}

/// Reads one signed offset.
pub fn parse_signed(text: &str) -> (offset: Option<i32>)
    requires
        offset_fits(text@),
    ensures
        offset == (match offset_of(text@) {
            Some(v) => Some(v as i32),
            None => None,
        }),
{
    if text.is_empty() {
        return None;
    }
    let first = text.get_char(0);
    if first == '+' || first == '-' {
        let digits = suffix(text, 1);
        assert(digits@ =~= text@.drop_first());
        match parse_i32(digits) {
            Some(v) => if first == '-' {
                Some(0 - v)
            } else {
                Some(v)
            },
            None => None,
        }
    } else {
        parse_i32(text)
    }
}

/// Tests whether an offset can be read by [`parse_signed`].
fn check_signed(text: &str) -> (fits: bool)
    ensures
        fits == offset_fits(text@),
{
    if text.is_empty() || text.get_char(0) != '-' {
        return true;
    }
    let digits = suffix(text, 1);
    assert(digits@ =~= text@.drop_first());
    match parse_i32(digits) {
        Some(v) => v != i32::MIN,
        None => true,
    }
}

/// Cuts two packed offsets apart.
fn split_offsets(text: &str) -> (parts: Option<(&str, &str)>)
    ensures
        match parts {
            Some((first, second)) => {
                &&& text@.len() > 0
                &&& first@ == text@.take(1 + first_at(text@.drop_first(), CharClass::Sign))
                &&& second@ == text@.skip(1 + first_at(text@.drop_first(), CharClass::Sign))
                &&& 1 + first_at(text@.drop_first(), CharClass::Sign) < text@.len()
                &&& offset_fits(first@)
            },
            None => offsets_of(text@) is None,
        },
{
    if text.is_empty() {
        return None;
    }
    let rest = suffix(text, 1);
    assert(rest@ =~= text@.drop_first());
    let found: usize = find(rest, CharClass::Sign);
    if found == rest.unicode_len() {
        return None;
    }
    let first = prefix(text, 1 + found);
    let second = suffix(text, 1 + found);
    proof {
        lemma_first_at(rest@, CharClass::Sign);
        assert forall|i: int| 1 <= i < first@.len() implies !CharClass::Sign.has(
            #[trigger] first@[i],
        ) by {
            assert(first@[i] == rest@[i - 1]);
        }
        lemma_first_offset_fits(first@);
    }
    Some((first, second))
}

/// Reads two signed offsets packed like `+0+0`, `-100+0`, `+1920+-0`.
pub fn parse_two_offsets(text: &str) -> (offsets: Option<(i32, i32)>)
    requires
        offsets_fit(text@),
    ensures
        offsets == (match offsets_of(text@) {
            Some((x, y)) => Some((x as i32, y as i32)),
            None => None,
        }),
{
    match split_offsets(text) {
        Some((first, second)) => match parse_signed(first) {
            Some(x) => match parse_signed(second) {
                Some(y) => Some((x, y)),
                None => None,
            },
            None => None,
        },
        None => None,
    }
}

/// Tests whether two packed offsets can be read by [`parse_two_offsets`].
fn check_two_offsets(text: &str) -> (fits: bool)
    ensures
        fits == offsets_fit(text@),
{
    match split_offsets(text) {
        Some((first, second)) => match parse_signed(first) {
            Some(_) => check_signed(second),
            None => true,
        },
        None => true,
    }
}

/// Reads the size of a geometry token, and cuts off the offsets behind it.
fn split_geometry(token: &str) -> (parts: Option<(u32, u32, &str)>)
    ensures
        match parts {
            Some((width, height, offsets)) => {
                let cross = first_at(token@, CharClass::Cross);
                let remainder = token@.skip(cross + 1);
                let sign = first_at(remainder, CharClass::Sign);
                &&& 0 <= cross < token@.len()
                &&& 0 <= sign < remainder.len()
                &&& u32_of(token@.take(cross)) == Some(width)
                &&& u32_of(remainder.take(sign)) == Some(height)
                &&& offsets@ == remainder.skip(sign)
            },
            None => geometry_of(token@) is None,
        },
{
    let cross: usize = find(token, CharClass::Cross);
    if cross == token.unicode_len() {
        return None;
    }
    let width: u32 = match parse_u32(prefix(token, cross)) {
        Some(width) => width,
        None => return None,
    };
    let remainder = suffix(token, cross + 1);
    let sign: usize = find(remainder, CharClass::Sign);
    if sign == remainder.unicode_len() {
        return None;
    }
    match parse_u32(prefix(remainder, sign)) {
        Some(height) => Some((width, height, suffix(remainder, sign))),
        None => None,
    }
}

/// Reads a geometry token like `1920x1080+0+0` or `1280x720-100+0`.
pub fn parse_geometry(token: &str) -> (geometry: Option<(u32, u32, i32, i32)>)
    requires
        geometry_fits(token@),
    ensures
        geometry == (match geometry_of(token@) {
            Some((width, height, x, y)) => Some((width, height, x as i32, y as i32)),
            None => None,
        }),
{
    match split_geometry(token) {
        Some((width, height, offsets)) => match parse_two_offsets(offsets) {
            Some((x, y)) => Some((width, height, x, y)),
            None => None,
        },
        None => None,
    }
}

/// Tests whether a token can be read by [`parse_geometry`].
pub fn check_geometry(token: &str) -> (fits: bool)
    ensures
        fits == geometry_fits(token@),
{
    match split_geometry(token) {
        Some((_, _, offsets)) => check_two_offsets(offsets),
        None => true,
    }
}

/// The resolution that a mode line such as `   1920x1080i  60.00 +` names: its
/// first word, up to whatever follows the digits of the height.
pub open spec fn mode_of(line: Seq<char>) -> Option<(u32, u32)> {
    let tokens = words_of(line);
    if tokens.len() == 0 {
        None
    } else {
        let token = tokens[0];
        let cross = first_at(token, CharClass::Cross);
        if cross == token.len() {
            None
        } else {
            let remainder = token.skip(cross + 1);
            let digits = remainder.take(first_at(remainder, CharClass::NonDigit));
            match (u32_of(token.take(cross)), u32_of(digits)) {
                (Some(width), Some(height)) => Some((width, height)),
                _ => None,
            }
        }
    }
}

/// Reads the resolution that a mode line names.
pub fn parse_mode_resolution(line: &str) -> (mode: Option<(u32, u32)>)
    ensures
        mode == mode_of(line@),
{
    let tokens = words(line);
    assert(views(tokens@).len() == tokens@.len());
    if tokens.len() == 0 {
        return None;
    }
    let token = tokens[0];
    assert(views(tokens@)[0] == token@);
    let cross: usize = find(token, CharClass::Cross);
    if cross == token.unicode_len() {
        return None;
    }
    let width: u32 = match parse_u32(prefix(token, cross)) {
        Some(width) => width,
        None => return None,
    };
    let remainder = suffix(token, cross + 1);
    match parse_u32(prefix(remainder, find(remainder, CharClass::NonDigit))) {
        Some(height) => Some((width, height)),
        None => None,
    }
}

/// The line that opens the report.
pub open spec fn is_screen_line(line: Seq<char>) -> bool {
    "Screen "@.is_prefix_of(line)
}

/// Mode lines are indented; they belong to the most recent output.
pub open spec fn is_mode_line(line: Seq<char>) -> bool {
    !is_screen_line(line) && line.len() > 0 && (line[0] == ' ' || line[0] == '\t')
}

/// An output's header is `NAME connected|disconnected [primary] [WxH+X+Y] ...`.
pub open spec fn is_header_line(line: Seq<char>) -> bool {
    let tokens = words_of(line);
    &&& !is_screen_line(line)
    &&& !is_mode_line(line)
    &&& tokens.len() >= 2
    &&& tokens[1] == "connected"@ || tokens[1] == "disconnected"@
}

/// What follows the name and the status in a header.
pub open spec fn attributes_of(line: Seq<char>) -> Seq<Seq<char>> {
    words_of(line).skip(2)
}

/// The last of the tokens that is a geometry.
pub open spec fn last_geometry(tokens: Seq<Seq<char>>) -> Option<(u32, u32, int, int)>
    decreases tokens.len(),
{
    if tokens.len() == 0 {
        None
    } else {
        match geometry_of(tokens.last()) {
            Some(geometry) => Some(geometry),
            None => last_geometry(tokens.drop_last()),
        }
    }
}

/// The output that a header announces, before any mode line.
pub open spec fn header_of(line: Seq<char>) -> OutputInfoView {
    let geometry = last_geometry(attributes_of(line));
    OutputInfoView {
        name: words_of(line)[0],
        connected: words_of(line)[1] == "connected"@,
        active: geometry is Some,
        primary: attributes_of(line).contains("primary"@),
        resolution: match geometry {
            Some((width, height, _, _)) => Some((width, height)),
            None => None,
        },
        position: match geometry {
            Some((_, _, x, y)) => Some((x as i32, y as i32)),
            None => None,
        },
        preferred: None,
    }
}

/// What one more line adds to the outputs read so far. A header appends its
/// output. A mode line with a `+` gives the last output its preferred mode
/// unless it has one. Any other line says nothing.
pub open spec fn read_line(outputs: Seq<OutputInfoView>, line: Seq<char>) -> Seq<OutputInfoView> {
    if is_header_line(line) {
        outputs.push(header_of(line))
    } else if is_mode_line(line) && line.contains('+') && outputs.len() > 0
        && outputs.last().preferred is None {
        outputs.drop_last().push(
            OutputInfoView { preferred: mode_of(line), ..outputs.last() },
        )
    } else {
        outputs
    }
}

/// The outputs that a list of lines reports.
pub open spec fn read_lines(lines: Seq<Seq<char>>) -> Seq<OutputInfoView>
    decreases lines.len(),
{
    if lines.len() == 0 {
        Seq::empty()
    } else {
        read_line(read_lines(lines.drop_last()), lines.last())
    }
}

/// An output is read as active exactly when its header told a geometry: it then
/// has a resolution and a position, and otherwise neither.
pub proof fn law_active_outputs_have_geometry(lines: Seq<Seq<char>>)
    ensures
        forall|i: int|
            0 <= i < read_lines(lines).len() ==> {
                let output = #[trigger] read_lines(lines)[i];
                &&& output.active <==> output.resolution is Some
                &&& output.active <==> output.position is Some
            },
    decreases lines.len(),
{
    if lines.len() > 0 {
        law_active_outputs_have_geometry(lines.drop_last());
        let earlier = read_lines(lines.drop_last());
        let now = read_lines(lines);
        assert forall|i: int| 0 <= i < now.len() implies {
            let output = #[trigger] now[i];
            &&& output.active <==> output.resolution is Some
            &&& output.active <==> output.position is Some
        } by {
            if i < earlier.len() - 1 {
                assert(now[i] == earlier[i]);
            } else if i == earlier.len() - 1 {
                assert(earlier[i].active == now[i].active);
                assert(earlier[i].resolution == now[i].resolution);
                assert(earlier[i].position == now[i].position);
            }
        }
    }
}

/// Every output has a name, and no name holds white space.
pub proof fn law_outputs_are_named(lines: Seq<Seq<char>>)
    ensures
        forall|i: int|
            0 <= i < read_lines(lines).len() ==> is_visible_word(
                (#[trigger] read_lines(lines)[i]).name,
            ),
    decreases lines.len(),
{
    if lines.len() > 0 {
        law_outputs_are_named(lines.drop_last());
        law_words_are_visible(lines.last());
        let earlier = read_lines(lines.drop_last());
        let now = read_lines(lines);
        assert forall|i: int| 0 <= i < now.len() implies is_visible_word(
            (#[trigger] now[i]).name,
        ) by {
            if i < earlier.len() {
                assert(now[i].name == earlier[i].name);
            } else {
                assert(is_visible_word(words_of(lines.last())[0]));
            }
        }
    }
}

/// The preferred mode among mode lines: that of the first line with a `+` that
/// names a resolution.
pub open spec fn first_preferred(modes: Seq<Seq<char>>) -> Option<(u32, u32)>
    decreases modes.len(),
{
    if modes.len() == 0 {
        None
    } else {
        match first_preferred(modes.drop_last()) {
            Some(mode) => Some(mode),
            None => if modes.last().contains('+') {
                mode_of(modes.last())
            } else {
                None
            },
        }
    }
}

/// The mode lines after a header belong to its output: it gets its preferred
/// mode from them, and the outputs before it are left as they were.
pub proof fn law_modes_belong_to_their_output(
    before: Seq<Seq<char>>,
    header: Seq<char>,
    modes: Seq<Seq<char>>,
)
    requires
        is_header_line(header),
        forall|i: int| 0 <= i < modes.len() ==> is_mode_line(#[trigger] modes[i]),
    ensures
        read_lines(before.push(header) + modes) == read_lines(before).push(
            OutputInfoView { preferred: first_preferred(modes), ..header_of(header) },
        ),
    decreases modes.len(),
{
    let all = before.push(header) + modes;
    if modes.len() == 0 {
        assert(all =~= before.push(header));
        assert(all.drop_last() =~= before);
    } else {
        let rest = modes.drop_last();
        assert forall|i: int| 0 <= i < rest.len() implies is_mode_line(#[trigger] rest[i]) by {
            assert(rest[i] == modes[i]);
        }
        law_modes_belong_to_their_output(before, header, rest);
        assert(all.drop_last() =~= before.push(header) + rest);
        assert(is_mode_line(modes[modes.len() - 1]));
        let earlier = read_lines(all.drop_last());
        assert(earlier.drop_last() =~= read_lines(before));
    }
}

/// An offset as `xrandr` prints it: always with a sign.
pub open spec fn offset_text(v: int) -> Seq<char> {
    if v < 0 {
        seq!['-'] + numeral((-v) as nat)
    } else {
        seq!['+'] + numeral(v as nat)
    }
}

/// A geometry as `xrandr` prints it.
pub open spec fn geometry_text(width: u32, height: u32, x: int, y: int) -> Seq<char> {
    numeral(width as nat) + seq!['x'] + numeral(height as nat) + offset_text(x) + offset_text(y)
}

/// A printed offset is read as the number it was printed from.
proof fn lemma_offset_reads_back(v: i32)
    requires
        v > i32::MIN,
    ensures
        offset_of(offset_text(v as int)) == Some(v as int),
        forall|i: int|
            1 <= i < offset_text(v as int).len() ==> is_digit(#[trigger] offset_text(v as int)[i]),
{
    let size: i32 = if v < 0 {
        (-v) as i32
    } else {
        v
    };
    law_i32_numeral_reads_back(size);
    law_numeral_reads_back(size as nat);
    let text = offset_text(v as int);
    assert(text.drop_first() =~= numeral(size as nat));
    assert forall|i: int| 1 <= i < text.len() implies is_digit(#[trigger] text[i]) by {
        assert(text[i] == numeral(size as nat)[i - 1]);
    }
}

/// A printed geometry is read as the numbers it was printed from.
pub proof fn law_geometry_reads_back(width: u32, height: u32, x: i32, y: i32)
    requires
        x > i32::MIN,
        y > i32::MIN,
    ensures
        geometry_of(geometry_text(width, height, x as int, y as int)) == Some(
            (width, height, x as int, y as int),
        ),
{
    let wide = numeral(width as nat);
    let high = numeral(height as nat);
    let right = offset_text(x as int);
    let down = offset_text(y as int);
    law_numeral_reads_back(width as nat);
    law_numeral_reads_back(height as nat);
    law_u32_numeral_reads_back(width);
    law_u32_numeral_reads_back(height);
    lemma_offset_reads_back(x);
    lemma_offset_reads_back(y);

    let token = geometry_text(width, height, x as int, y as int);
    let cross = wide.len() as int;
    assert forall|k: int| 0 <= k < cross implies !CharClass::Cross.has(#[trigger] token[k]) by {
        assert(token[k] == wide[k]);
    }
    lemma_first_at_is(token, CharClass::Cross, cross);
    assert(token.take(cross) =~= wide);

    let remainder = token.skip(cross + 1);
    let sign = high.len() as int;
    assert(remainder =~= high + right + down);
    assert forall|k: int| 0 <= k < sign implies !CharClass::Sign.has(
        #[trigger] remainder[k],
    ) by {
        assert(remainder[k] == high[k]);
    }
    assert(remainder[sign] == right[0]);
    lemma_first_at_is(remainder, CharClass::Sign, sign);
    assert(remainder.take(sign) =~= high);

    let offsets = remainder.skip(sign);
    assert(offsets =~= right + down);
    let tail = offsets.drop_first();
    let cut = right.len() - 1;
    assert forall|k: int| 0 <= k < cut implies !CharClass::Sign.has(#[trigger] tail[k]) by {
        assert(tail[k] == right[k + 1]);
    }
    assert(tail[cut] == down[0]);
    lemma_first_at_is(tail, CharClass::Sign, cut);
    assert(offsets.take(1 + cut) =~= right);
    assert(offsets.skip(1 + cut) =~= down);
}

/// Whether all offsets in a header line are 32-bit numbers.
pub open spec fn line_fits(line: Seq<char>) -> bool {
    is_header_line(line) ==> forall|i: int|
        0 <= i < attributes_of(line).len() ==> geometry_fits(#[trigger] attributes_of(line)[i])
}

/// Whether all offsets in a report are 32-bit numbers. No report of a real
/// display holds others.
pub open spec fn report_fits(text: Seq<char>) -> bool {
    forall|i: int| 0 <= i < lines_of(text).len() ==> line_fits(#[trigger] lines_of(text)[i])
}

/// The lines of two reports, one after the other, are read as the outputs of
/// both, if the second begins with a header.
pub proof fn law_lines_are_read_in_parts(a: Seq<Seq<char>>, b: Seq<Seq<char>>)
    requires
        b.len() > 0,
        is_header_line(b[0]),
    ensures
        read_lines(b).len() > 0,
        read_lines(a + b) == read_lines(a) + read_lines(b),
    decreases b.len(),
{
    let all = a + b;
    let rest = b.drop_last();
    assert(all.drop_last() =~= a + rest);
    assert(all.last() == b.last());
    if b.len() == 1 {
        assert(a + rest =~= a);
        assert(rest =~= Seq::<Seq<char>>::empty());
        assert(read_lines(rest) =~= Seq::<OutputInfoView>::empty());
        assert(read_lines(b) =~= seq![header_of(b[0])]);
    } else {
        assert(rest[0] == b[0]);
        law_lines_are_read_in_parts(a, rest);
        let earlier = read_lines(a + rest);
        let own = read_lines(rest);
        assert(earlier.last() == own.last());
        assert(earlier.drop_last() =~= read_lines(a) + own.drop_last());
    }
    assert(read_lines(all) =~= read_lines(a) + read_lines(b));
}

/// Two reports, one after the other, are read as the outputs of both, if the
/// first ends at the end of a line and the second begins with a header. The
/// whole can be read when both can.
pub proof fn law_reports_are_read_in_parts(a: Seq<char>, b: Seq<char>)
    requires
        a.len() == 0 || a.last() == '\n',
        lines_of(b).len() > 0,
        is_header_line(lines_of(b)[0]),
    ensures
        report_fits(a + b) <==> report_fits(a) && report_fits(b),
        read_lines(lines_of(a + b)) == read_lines(lines_of(a)) + read_lines(lines_of(b)),
{
    law_lines_join(a, b);
    law_lines_are_read_in_parts(lines_of(a), lines_of(b));
    lemma_joined_lines_fit(a + b, lines_of(a), lines_of(b));
}

/// A report whose lines are those of two parts can be read when both parts can.
proof fn lemma_joined_lines_fit(text: Seq<char>, a: Seq<Seq<char>>, b: Seq<Seq<char>>)
    requires
        lines_of(text) == a + b,
    ensures
        report_fits(text) <==> {
            &&& forall|i: int| 0 <= i < a.len() ==> line_fits(#[trigger] a[i])
            &&& forall|i: int| 0 <= i < b.len() ==> line_fits(#[trigger] b[i])
        },
{
    let all = lines_of(text);
    if report_fits(text) {
        assert forall|i: int| 0 <= i < a.len() implies line_fits(#[trigger] a[i]) by {
            assert(all[i] == a[i]);
        }
        assert forall|i: int| 0 <= i < b.len() implies line_fits(#[trigger] b[i]) by {
            assert(all[a.len() + i] == b[i]);
        }
    } else {
        let i = choose|i: int| 0 <= i < all.len() && !line_fits(#[trigger] all[i]);
        if i < a.len() {
            assert(a[i] == all[i]);
        } else {
            assert(b[i - a.len()] == all[i]);
        }
    }
}

/// A line that is neither a mode line nor a header says nothing: the outputs are
/// the same without it. Such are the line that opens the report, and lines that
/// are not indented and have no status as their second word.
pub proof fn law_other_lines_say_nothing(
    before: Seq<Seq<char>>,
    line: Seq<char>,
    after: Seq<Seq<char>>,
)
    requires
        is_screen_line(line) || !(is_mode_line(line) || is_header_line(line)),
    ensures
        read_lines(before + seq![line] + after) == read_lines(before + after),
    decreases after.len(),
{
    let with = before + seq![line] + after;
    let without = before + after;
    if after.len() == 0 {
        assert(with.drop_last() =~= before);
        assert(without =~= before);
    } else {
        law_other_lines_say_nothing(before, line, after.drop_last());
        assert(with.drop_last() =~= before + seq![line] + after.drop_last());
        assert(without.drop_last() =~= before + after.drop_last());
    }
}

/// A report is read the same without a line that is neither a mode line nor a
/// header, and can be read just when it can without. Here `piece` is the text of
/// that line, with its line end unless it is the last.
pub proof fn law_report_is_read_without_other_lines(
    a: Seq<char>,
    piece: Seq<char>,
    line: Seq<char>,
    b: Seq<char>,
)
    requires
        a.len() == 0 || a.last() == '\n',
        lines_of(piece) == seq![line],
        piece.last() == '\n' || b.len() == 0,
        is_screen_line(line) || !(is_mode_line(line) || is_header_line(line)),
    ensures
        report_fits(a + piece + b) <==> report_fits(a + b),
        read_lines(lines_of(a + piece + b)) == read_lines(lines_of(a + b)),
{
    let first = lines_of(a);
    let last = lines_of(b);
    law_lines_join(a, b);
    law_lines_join(a, piece);
    assert(piece.len() > 0);
    if b.len() == 0 {
        assert(a + piece + b =~= a + piece);
        assert(first + seq![line] + last =~= first + seq![line]);
    } else {
        assert((a + piece).last() == piece.last());
        law_lines_join(a + piece, b);
    }
    assert(lines_of(a + piece + b) == first + seq![line] + last);
    law_other_lines_say_nothing(first, line, last);
    assert(line_fits(line));
    lemma_joined_lines_fit(a + b, first, last);
    let tail = seq![line] + last;
    assert(first + seq![line] + last =~= first + tail);
    lemma_joined_lines_fit(a + piece + b, first, tail);
    if report_fits(a + piece + b) {
        assert forall|i: int| 0 <= i < last.len() implies line_fits(#[trigger] last[i]) by {
            assert(tail[i + 1] == last[i]);
        }
    }
    if report_fits(a + b) {
        assert forall|i: int| 0 <= i < tail.len() implies line_fits(#[trigger] tail[i]) by {
            if i > 0 {
                assert(tail[i] == last[i - 1]);
            }
        }
    }
}

/// Reads a header line; gives nothing for a line that is none.
fn parse_header(line: &str) -> (output: Option<OutputInfo>)
    requires
        line_fits(line@),
        !is_screen_line(line@),
        !is_mode_line(line@),
    ensures
        match output {
            Some(o) => is_header_line(line@) && o@ == header_of(line@),
            None => !is_header_line(line@),
        },
{
    let tokens = words(line);
    let ghost all = views(tokens@);
    if tokens.len() < 2 {
        return None;
    }
    assert(all[0] == tokens[0]@ && all[1] == tokens[1]@);
    let status = tokens[1];
    let connected = same_text(status, "connected");
    if !connected && !same_text(status, "disconnected") {
        return None;
    }
    let mut output = OutputInfo {
        name: tokens[0].to_owned(),
        connected,
        active: false,
        primary: false,
        resolution: None,
        position: None,
        preferred: None,
    };
    let ghost attributes = attributes_of(line@);
    assert(attributes.take(0) =~= Seq::<Seq<char>>::empty());
    let mut i: usize = 2;
    while i < tokens.len()
        invariant
            2 <= i <= tokens.len(),
            is_header_line(line@),
            line_fits(line@),
            all == views(tokens@),
            all == words_of(line@),
            attributes == attributes_of(line@),
            output.name@ == all[0],
            output.connected == (all[1] == "connected"@),
            output.preferred is None,
            output.primary == attributes.take(i - 2).contains("primary"@),
            ({
                let geometry = last_geometry(attributes.take(i - 2));
                &&& output.active == geometry is Some
                &&& output.resolution == (match geometry {
                    Some((width, height, _, _)) => Some((width, height)),
                    None => None,
                })
                &&& output.position == (match geometry {
                    Some((_, _, x, y)) => Some((x as i32, y as i32)),
                    None => None,
                })
            }),
        decreases tokens.len() - i,
    {
        let token = tokens[i];
        proof {
            let seen = attributes.take(i - 2);
            let now = attributes.take(i - 1);
            assert(all[i as int] == token@);
            assert(attributes[i - 2] == token@);
            assert(geometry_fits(attributes[i - 2]));
            assert(now =~= seen.push(token@));
            assert(now.drop_last() =~= seen);
            assert(now.contains("primary"@) <==> (seen.contains("primary"@) || token@
                == "primary"@)) by {
                assert(now[i - 2] == token@);
                if seen.contains("primary"@) {
                    let k = choose|k: int| 0 <= k < seen.len() && seen[k] == "primary"@;
                    assert(now[k] == "primary"@);
                }
                if now.contains("primary"@) {
                    let k = choose|k: int| 0 <= k < now.len() && now[k] == "primary"@;
                    assert(k < i - 2 ==> seen[k] == "primary"@);
                }
            }
        }
        if same_text(token, "primary") {
            output.primary = true;
            proof {
                lemma_primary_is_no_geometry();
            }
        } else if let Some((width, height, x, y)) = parse_geometry(token) {
            output.resolution = Some((width, height));
            output.position = Some((x, y));
            output.active = true;
        }
        i += 1;
    }
    assert(attributes.take(i - 2) =~= attributes);
    assert(output@ =~= header_of(line@));
    Some(output)
}

/// The word `primary` is not a geometry: it holds no `x`.
proof fn lemma_primary_is_no_geometry()
    ensures
        geometry_of("primary"@) is None,
{
    reveal_strlit("primary");
    lemma_first_at("primary"@, CharClass::Cross);
}

/// Reads the textual output of `xrandr --query`.
pub fn parse(text: &str) -> (outputs: Vec<OutputInfo>)
    requires
        report_fits(text@),
    ensures
        outputs_view(outputs@) == read_lines(lines_of(text@)),
        forall|i: int|
            0 <= i < outputs@.len() ==> {
                &&& (#[trigger] outputs@[i]).active <==> outputs@[i].resolution is Some
                &&& outputs@[i].active <==> outputs@[i].position is Some
            },
{
    let mut outputs: Vec<OutputInfo> = Vec::new();
    let list = lines(text);
    let ghost all = views(list@);
    assert(all.take(0) =~= Seq::<Seq<char>>::empty());
    assert(outputs_view(outputs@) =~= Seq::<OutputInfoView>::empty());
    let mut i: usize = 0;
    while i < list.len()
        invariant
            i <= list.len(),
            all == views(list@),
            all == lines_of(text@),
            report_fits(text@),
            outputs_view(outputs@) == read_lines(all.take(i as int)),
        decreases list.len() - i,
    {
        let line = list[i];
        let ghost before = outputs_view(outputs@);
        proof {
            assert(all[i as int] == line@);
            assert(line_fits(all[i as int]));
            assert(all.take(i + 1).drop_last() =~= all.take(i as int));
            assert(all.take(i + 1).last() == line@);
        }
        i += 1;
        if starts_with(line, "Screen ") {
            continue;
        }
        if !line.is_empty() && (line.get_char(0) == ' ' || line.get_char(0) == '\t') {
            let plus: usize = find(line, CharClass::Plus);
            proof {
                lemma_first_at(line@, CharClass::Plus);
            }
            let count: usize = outputs.len();
            if plus < line.unicode_len() && count > 0 && outputs[count - 1].preferred.is_none() {
                assert(line@[plus as int] == '+');
                outputs[count - 1].preferred = parse_mode_resolution(line);
                assert(outputs_view(outputs@) =~= read_line(before, line@));
            }
            continue;
        }
        if let Some(output) = parse_header(line) {
            outputs.push(output);
            assert(outputs_view(outputs@) =~= before.push(header_of(line@)));
        }
    }
    assert(all.take(i as int) =~= all);
    proof {
        law_active_outputs_have_geometry(lines_of(text@));
        assert forall|k: int| 0 <= k < outputs@.len() implies {
            &&& (#[trigger] outputs@[k]).active <==> outputs@[k].resolution is Some
            &&& outputs@[k].active <==> outputs@[k].position is Some
        } by {
            assert(read_lines(lines_of(text@))[k] == outputs@[k]@);
        }
    }
    outputs
}

/// Tests whether a line can be read by [`parse`].
fn check_line(line: &str) -> (fits: bool)
    ensures
        fits == line_fits(line@),
{
    if starts_with(line, "Screen ") {
        return true;
    }
    if !line.is_empty() && (line.get_char(0) == ' ' || line.get_char(0) == '\t') {
        return true;
    }
    let tokens = words(line);
    let ghost all = views(tokens@);
    if tokens.len() < 2 {
        return true;
    }
    assert(all[1] == tokens[1]@);
    let status = tokens[1];
    if !same_text(status, "connected") && !same_text(status, "disconnected") {
        return true;
    }
    let mut i: usize = 2;
    while i < tokens.len()
        invariant
            2 <= i <= tokens.len(),
            is_header_line(line@),
            all == views(tokens@),
            all == words_of(line@),
            forall|k: int| 0 <= k < i - 2 ==> geometry_fits(#[trigger] attributes_of(line@)[k]),
        decreases tokens.len() - i,
    {
        assert(all[i as int] == tokens[i as int]@);
        assert(attributes_of(line@)[i - 2] == tokens[i as int]@);
        if !check_geometry(tokens[i]) {
            return false;
        }
        i += 1;
    }
    true
}

/// Tests whether a report can be read by [`parse`].
pub fn check_report(text: &str) -> (fits: bool)
    ensures
        fits == report_fits(text@),
{
    let list = lines(text);
    let ghost all = views(list@);
    let mut i: usize = 0;
    while i < list.len()
        invariant
            i <= list.len(),
            all == views(list@),
            all == lines_of(text@),
            forall|k: int| 0 <= k < i ==> line_fits(#[trigger] lines_of(text@)[k]),
        decreases list.len() - i,
    {
        assert(all[i as int] == list[i as int]@);
        if !check_line(list[i]) {
            return false;
        }
        i += 1;
    }
    true
}

/// Reads what a run of `xrandr --query` printed. A run that failed reports no
/// outputs. There is no result for a report that [`parse`] cannot read.
pub fn query(stdout: Option<&[u8]>) -> (outputs: Option<Vec<OutputInfo>>)
    ensures
        match stdout {
            Some(bytes) => match outputs {
                Some(list) => {
                    &&& valid_utf8(bytes@) ==> lossy_text(bytes@) == decode_utf8(bytes@)
                    &&& report_fits(lossy_text(bytes@))
                    &&& outputs_view(list@) == read_lines(lines_of(lossy_text(bytes@)))
                },
                None => {
                    &&& valid_utf8(bytes@) ==> lossy_text(bytes@) == decode_utf8(bytes@)
                    &&& !report_fits(lossy_text(bytes@))
                },
            },
            None => outputs matches Some(list) && list@.len() == 0,
        },
{
    let bytes = match stdout {
        Some(bytes) => bytes,
        None => return Some(Vec::new()),
    };
    let text = text_from_bytes(bytes);
    if check_report(text.as_str()) {
        Some(parse(text.as_str()))
    } else {
        None
    }
}

/// The names of the outputs that a monitor is plugged into.
pub open spec fn connected_set(outputs: Seq<OutputInfoView>) -> Set<Seq<char>> {
    Set::new(
        |name: Seq<char>|
            exists|i: int|
                0 <= i < outputs.len() && (#[trigger] outputs[i]).connected && outputs[i].name
                    == name,
    )
}

/// Collects the names of the outputs that a monitor is plugged into.
pub fn connected_names(outputs: &[OutputInfo]) -> (names: NameSet)
    ensures
        names.wf(),
        names@ == connected_set(outputs_view(outputs@)),
        forall|i: int|
            0 <= i < outputs@.len() && (#[trigger] outputs@[i]).connected ==> names@.contains(
                outputs@[i].name@,
            ),
        forall|name: Seq<char>| #[trigger]
            names@.contains(name) ==> exists|i: int|
                0 <= i < outputs@.len() && (#[trigger] outputs@[i]).connected
                    && outputs@[i].name@ == name,
{
    let mut names = NameSet::new();
    let ghost whole = outputs_view(outputs@);
    assert(names@ =~= connected_set(whole.take(0)));
    let mut i: usize = 0;
    while i < outputs.len()
        invariant
            i <= outputs@.len(),
            whole == outputs_view(outputs@),
            names.wf(),
            names@ == connected_set(whole.take(i as int)),
        decreases outputs.len() - i,
    {
        let ghost before = connected_set(whole.take(i as int));
        let ghost output = whole[i as int];
        proof {
            let after = connected_set(whole.take(i + 1));
            assert(output == outputs@[i as int]@);
            assert(whole.take(i + 1)[i as int] == output);
            assert forall|k: Seq<char>| #[trigger]
                after.contains(k) == (before.contains(k) || (output.connected && k
                    == output.name)) by {
                if before.contains(k) {
                    let j = choose|j: int|
                        0 <= j < i && (#[trigger] whole.take(i as int)[j]).connected
                            && whole.take(i as int)[j].name == k;
                    assert(whole.take(i + 1)[j] == whole.take(i as int)[j]);
                }
                if after.contains(k) {
                    let j = choose|j: int|
                        0 <= j < i + 1 && (#[trigger] whole.take(i + 1)[j]).connected
                            && whole.take(i + 1)[j].name == k;
                    if j < i {
                        assert(whole.take(i as int)[j] == whole.take(i + 1)[j]);
                    }
                }
            }
        }
        if outputs[i].connected {
            names.insert(outputs[i].name.as_str());
        }
        i += 1;
        assert(names@ =~= connected_set(whole.take(i as int)));
    }
    assert(whole.take(i as int) =~= whole);
    proof {
        assert forall|k: int|
            0 <= k < outputs@.len() && (#[trigger] outputs@[k]).connected implies names@.contains(
            outputs@[k].name@,
        ) by {
            assert(whole[k].connected);
        }
        assert forall|name: Seq<char>| #[trigger] names@.contains(name) implies exists|k: int|
            0 <= k < outputs@.len() && (#[trigger] outputs@[k]).connected && outputs@[k].name@
                == name by {
            let k = choose|k: int|
                0 <= k < whole.len() && (#[trigger] whole[k]).connected && whole[k].name == name;
            assert(outputs@[k].connected);
        }
    }
    names
}

/// A monitor counts as plugged in when an entry of its name says `connected`,
/// and not otherwise, whatever mode and geometry are shown.
pub proof fn law_connected_outputs_say_so(outputs: Seq<OutputInfoView>)
    ensures
        forall|i: int|
            0 <= i < outputs.len() && (#[trigger] outputs[i]).connected ==> connected_set(
                outputs,
            ).contains(outputs[i].name),
        forall|name: Seq<char>|
            (forall|i: int|
                0 <= i < outputs.len() && (#[trigger] outputs[i]).name == name
                    ==> !outputs[i].connected) ==> !#[trigger] connected_set(outputs).contains(
                name,
            ),
{
    assert forall|name: Seq<char>|
        (forall|i: int|
            0 <= i < outputs.len() && (#[trigger] outputs[i]).name == name
                ==> !outputs[i].connected) implies !#[trigger] connected_set(outputs).contains(
        name,
    ) by {
        if connected_set(outputs).contains(name) {
            let i = choose|i: int|
                0 <= i < outputs.len() && (#[trigger] outputs[i]).connected && outputs[i].name
                    == name;
            assert(outputs[i].name == name);
        }
    }
}

} // verus!
