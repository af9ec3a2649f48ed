//! Searching and splitting text by character class.

use vstd::prelude::*;
use vstd::utf8::{decode_utf8, valid_utf8};

verus! {

/// The kinds of character that the report of the displays is cut at.
#[derive(Clone, Copy, Debug, PartialEq, Eq, Structural)]
pub enum CharClass {
    /// The line feed that ends a line.
    Newline,
    /// White space, as Unicode defines it.
    Space,
    /// Anything but white space.
    Visible,
    /// The `x` between a width and a height.
    Cross,
    /// A plus sign.
    Plus,
    /// The plus or minus sign that begins an offset.
    Sign,
    /// Anything but an ASCII digit.
    NonDigit,
}

/// Characters with the Unicode property `White_Space`.
pub open spec fn is_space(c: char) -> bool {
    ||| '\u{9}' <= c <= '\u{d}'
    ||| c == ' '
    ||| c == '\u{85}'
    ||| c == '\u{a0}'
    ||| c == '\u{1680}'
    ||| '\u{2000}' <= c <= '\u{200a}'
    ||| c == '\u{2028}'
    ||| c == '\u{2029}'
    ||| c == '\u{202f}'
    ||| c == '\u{205f}'
    ||| c == '\u{3000}'
}

/// The ASCII digits.
pub open spec fn is_digit(c: char) -> bool {
    '0' <= c <= '9'
}

impl CharClass {
    /// Whether `c` belongs to the class.
    pub open spec fn has(self, c: char) -> bool {
        match self {
            CharClass::Newline => c == '\n',
            CharClass::Space => is_space(c),
            CharClass::Visible => !is_space(c),
            CharClass::Cross => c == 'x',
            CharClass::Plus => c == '+',
            CharClass::Sign => c == '+' || c == '-',
            CharClass::NonDigit => !is_digit(c),
        }
    }

    /// Tests whether `c` belongs to the class.
    pub fn matches(self, c: char) -> (b: bool)
        ensures
            b == self.has(c),
    {
        match self {
            CharClass::Newline => c == '\n',
            CharClass::Space => is_whitespace(c),
            CharClass::Visible => !is_whitespace(c),
            CharClass::Cross => c == 'x',
            CharClass::Plus => c == '+',
            CharClass::Sign => c == '+' || c == '-',
            CharClass::NonDigit => !('0' <= c && c <= '9'),
        }
    }
}

/// Tests for Unicode white space.
pub fn is_whitespace(c: char) -> (b: bool)
    ensures
        b == is_space(c),
{
    ('\u{9}' <= c && c <= '\u{d}') || c == ' ' || c == '\u{85}' || c == '\u{a0}' || c
        == '\u{1680}' || ('\u{2000}' <= c && c <= '\u{200a}') || c == '\u{2028}' || c == '\u{2029}'
        || c == '\u{202f}' || c == '\u{205f}' || c == '\u{3000}'
}

/// Position of the first character of `class` in `s`, or the length of `s` when
/// there is none.
pub open spec fn first_at(s: Seq<char>, class: CharClass) -> int
    decreases s.len(),
{
    if s.len() == 0 {
        0
    } else if class.has(s[0]) {
        0
    } else {
        1 + first_at(s.drop_first(), class)
    }
}

/// `first_at` is the position that the name promises, and the only such one.
pub proof fn lemma_first_at(s: Seq<char>, class: CharClass)
    ensures
        0 <= first_at(s, class) <= s.len(),
        forall|i: int| 0 <= i < first_at(s, class) ==> !class.has(#[trigger] s[i]),
        first_at(s, class) < s.len() ==> class.has(s[first_at(s, class)]),
    decreases s.len(),
{
    if s.len() > 0 && !class.has(s[0]) {
        let rest = s.drop_first();
        lemma_first_at(rest, class);
        assert forall|i: int| 0 <= i < first_at(s, class) implies !class.has(#[trigger] s[i]) by {
            if i > 0 {
                assert(s[i] == rest[i - 1]);
            }
        }
    }
}

/// A position with nothing of the class before it, and at the end or at a
/// member of the class, is `first_at`.
pub proof fn lemma_first_at_is(s: Seq<char>, class: CharClass, i: int)
    requires
        0 <= i <= s.len(),
        forall|k: int| 0 <= k < i ==> !class.has(#[trigger] s[k]),
        i < s.len() ==> class.has(s[i]),
    ensures
        first_at(s, class) == i,
{
    lemma_first_at(s, class);
    let j = first_at(s, class);
    if j < i {
        assert(!class.has(s[j]));
    }
}

/// Finds the first character of `class`; gives the number of characters when
/// there is none.
pub fn find(s: &str, class: CharClass) -> (i: usize)
    ensures
        i == first_at(s@, class),
        i <= s@.len(),
{
    let n: usize = s.unicode_len();
    let mut i: usize = 0;
    for c in it: s.chars()
        invariant
            it.seq() == s@,
            i == it.index(),
            n == s@.len(),
            forall|k: int| 0 <= k < i ==> !class.has(#[trigger] s@[k]),
    {
        if class.matches(c) {
            proof {
                lemma_first_at_is(s@, class, i as int);
            }
            return i;
        }
        i += 1;
    }
    proof {
        lemma_first_at_is(s@, class, i as int);
    }
    i
}

/// The text that bytes are read as when sequences that are not UTF-8 are
/// replaced.
pub uninterp spec fn lossy_text(bytes: Seq<u8>) -> Seq<char>;

/// Reads bytes as text with `String::from_utf8_lossy`.
///
/// Taken on trust: the text is a function of the bytes alone, and bytes that are
/// valid UTF-8 are read as the characters they encode. How many replacement
/// characters stand for an invalid sequence is left unsaid.
#[verifier::external_body]
pub(crate) fn text_from_bytes(bytes: &[u8]) -> (text: String)
    ensures
        text@ == lossy_text(bytes@),
        valid_utf8(bytes@) ==> text@ == decode_utf8(bytes@),
{
    String::from_utf8_lossy(bytes).into_owned()
}

/// Tests whether two texts hold the same characters.
pub fn same_text(a: &str, b: &str) -> (equal: bool)
    ensures
        equal == (a@ == b@),
{
    a.to_owned() == b.to_owned()
}

/// Tests whether `s` begins with `prefix`.
pub fn starts_with(s: &str, prefix: &str) -> (b: bool)
    ensures
        b == prefix@.is_prefix_of(s@),
{
    let n: usize = prefix.unicode_len();
    if s.unicode_len() < n {
        return false;
    }
    let head = s.substring_char(0, n);
    same_text(head, prefix)
}

/// The characters of `s` from position `from` on.
pub fn suffix(s: &str, from: usize) -> (rest: &str)
    requires
        from <= s@.len(),
    ensures
        rest@ == s@.skip(from as int),
{
    let n: usize = s.unicode_len();
    s.substring_char(from, n)
}

/// The first `to` characters of `s`.
pub fn prefix(s: &str, to: usize) -> (head: &str)
    requires
        to <= s@.len(),
    ensures
        head@ == s@.take(to as int),
{
    s.substring_char(0, to)
}

/// A line without the carriage return that stood before its line feed.
pub open spec fn without_return(line: Seq<char>) -> Seq<char> {
    if line.len() > 0 && line.last() == '\r' {
        line.drop_last()
    } else {
        line
    }
}

/// The lines of a text. A line ends at a line feed, which may follow a carriage
/// return; the last line needs no ending, and no line follows a final ending.
pub open spec fn lines_of(s: Seq<char>) -> Seq<Seq<char>>
    decreases s.len(),
    via lines_of_decreases
{
    if s.len() == 0 {
        Seq::empty()
    } else {
        let end = first_at(s, CharClass::Newline);
        if end == s.len() {
            seq![s]
        } else {
            seq![without_return(s.take(end))] + lines_of(s.skip(end + 1))
        }
    }
}

#[via_fn]
proof fn lines_of_decreases(s: Seq<char>) {
    lemma_first_at(s, CharClass::Newline);
}

/// The words of a text: the longest runs of characters that are not white space.
pub open spec fn words_of(s: Seq<char>) -> Seq<Seq<char>>
    decreases s.len(),
    via words_of_decreases
{
    let start = first_at(s, CharClass::Visible);
    let trimmed = s.skip(start);
    if trimmed.len() == 0 {
        Seq::empty()
    } else {
        let end = first_at(trimmed, CharClass::Space);
        seq![trimmed.take(end)] + words_of(trimmed.skip(end))
    }
}

#[via_fn]
proof fn words_of_decreases(s: Seq<char>) {
    lemma_word_bounds(s);
}

/// The white space before the first word and the word itself lie inside the
/// text, and the word is not empty.
proof fn lemma_word_bounds(s: Seq<char>)
    ensures
        ({
            let start = first_at(s, CharClass::Visible);
            let trimmed = s.skip(start);
            &&& 0 <= start <= s.len()
            &&& trimmed.len() > 0 ==> 0 < first_at(trimmed, CharClass::Space) <= trimmed.len()
        }),
{
    let start = first_at(s, CharClass::Visible);
    lemma_first_at(s, CharClass::Visible);
    let trimmed = s.skip(start);
    lemma_first_at(trimmed, CharClass::Space);
    if trimmed.len() > 0 {
        assert(trimmed[0] == s[start]);
    }
}

/// The views of a list of texts.
pub open spec fn views(list: Seq<&str>) -> Seq<Seq<char>> {
    list.map_values(|s: &str| s@)
}

/// The texts of a list of strings.
pub open spec fn strings_view(list: Seq<String>) -> Seq<Seq<char>> {
    list.map_values(|s: String| s@)
}

/// Splits a text into its lines.
pub fn lines(s: &str) -> (list: Vec<&str>)
    ensures
        views(list@) == lines_of(s@),
{
    let mut list: Vec<&str> = Vec::new();
    let mut rest: &str = s;
    assert(views(list@) + lines_of(rest@) =~= lines_of(s@));
    while !rest.is_empty()
        invariant
            views(list@) + lines_of(rest@) == lines_of(s@),
        decreases rest@.len(),
    {
        let ghost before = views(list@);
        let end: usize = find(rest, CharClass::Newline);
        if end == rest.unicode_len() {
            list.push(rest);
            assert(views(list@) =~= before.push(rest@));
            assert(views(list@) =~= before + lines_of(rest@));
            return list;
        }
        let mut line = prefix(rest, end);
        if end > 0 && line.get_char(end - 1) == '\r' {
            line = prefix(line, end - 1);
        }
        assert(line@ =~= without_return(rest@.take(end as int)));
        list.push(line);
        let next = suffix(rest, end + 1);
        assert(views(list@) =~= before.push(line@));
        assert(views(list@) + lines_of(next@) =~= before + lines_of(rest@));
        rest = next;
    }
    assert(views(list@) =~= views(list@) + lines_of(rest@));
    list
}

/// Splits a text into its words.
pub fn words(s: &str) -> (list: Vec<&str>)
    ensures
        views(list@) == words_of(s@),
{
    let mut list: Vec<&str> = Vec::new();
    let mut rest: &str = s;
    assert(views(list@) + words_of(rest@) =~= words_of(s@));
    loop
        invariant
            views(list@) + words_of(rest@) == words_of(s@),
        decreases rest@.len(),
    {
        let ghost before = views(list@);
        let start: usize = find(rest, CharClass::Visible);
        let trimmed = suffix(rest, start);
        if trimmed.is_empty() {
            assert(views(list@) =~= views(list@) + words_of(rest@));
            return list;
        }
        let end: usize = find(trimmed, CharClass::Space);
        let word = prefix(trimmed, end);
        list.push(word);
        let next = suffix(trimmed, end);
        proof {
            lemma_word_bounds(rest@);
            assert(views(list@) =~= before.push(word@));
            assert(views(list@) + words_of(next@) =~= before + words_of(rest@));
        }
        rest = next;
    }
}

/// The lines of two texts, one after the other, are the lines of both, if the
/// first is empty or ends at the end of a line.
pub proof fn law_lines_join(a: Seq<char>, b: Seq<char>)
    requires
        a.len() == 0 || a.last() == '\n',
    ensures
        lines_of(a + b) == lines_of(a) + lines_of(b),
    decreases a.len(),
{
    if a.len() == 0 {
        assert(a + b =~= b);
        assert(lines_of(a) + lines_of(b) =~= lines_of(b));
    } else {
        let both = a + b;
        let end = first_at(a, CharClass::Newline);
        lemma_first_at(a, CharClass::Newline);
        assert(CharClass::Newline.has(a[a.len() - 1]));
        assert forall|k: int| 0 <= k < end implies !CharClass::Newline.has(
            #[trigger] both[k],
        ) by {
            assert(both[k] == a[k]);
        }
        assert(both[end] == a[end]);
        lemma_first_at_is(both, CharClass::Newline, end);
        let rest = a.skip(end + 1);
        if rest.len() > 0 {
            assert(rest.last() == a.last());
        }
        law_lines_join(rest, b);
        assert(both.take(end) =~= a.take(end));
        assert(both.skip(end + 1) =~= rest + b);
        assert(lines_of(both) =~= lines_of(a) + lines_of(b));
    }
}

/// Text without a line feed is one line: with a line feed after it, and also
/// without, unless it is empty.
pub proof fn law_text_without_line_feed_is_one_line(line: Seq<char>)
    requires
        forall|k: int| 0 <= k < line.len() ==> #[trigger] line[k] != '\n',
    ensures
        lines_of(line.push('\n')) == seq![without_return(line)],
        line.len() > 0 ==> lines_of(line) == seq![line],
{
    let n = line.len() as int;
    let ended = line.push('\n');
    lemma_first_at_is(line, CharClass::Newline, n);
    assert forall|k: int| 0 <= k < n implies !CharClass::Newline.has(#[trigger] ended[k]) by {
        assert(ended[k] == line[k]);
    }
    lemma_first_at_is(ended, CharClass::Newline, n);
    assert(ended.take(n) =~= line);
    assert(ended.skip(n + 1) =~= Seq::<char>::empty());
    reveal_with_fuel(lines_of, 2);
    assert(lines_of(ended) =~= seq![without_return(line)]);
}

/// Words are never empty and hold no white space.
pub proof fn law_words_are_visible(s: Seq<char>)
    ensures
        forall|i: int|
            0 <= i < words_of(s).len() ==> is_visible_word(#[trigger] words_of(s)[i]),
    decreases s.len(),
{
    let start = first_at(s, CharClass::Visible);
    let trimmed = s.skip(start);
    lemma_word_bounds(s);
    if trimmed.len() > 0 {
        let end = first_at(trimmed, CharClass::Space);
        let rest = words_of(trimmed.skip(end));
        lemma_first_at(trimmed, CharClass::Space);
        law_words_are_visible(trimmed.skip(end));
        let all = words_of(s);
        assert(all == seq![trimmed.take(end)] + rest);
        assert forall|i: int| 0 <= i < all.len() implies is_visible_word(#[trigger] all[i]) by {
            if i == 0 {
                assert forall|k: int| 0 <= k < all[0].len() implies !is_space(
                    #[trigger] all[0][k],
                ) by {
                    assert(all[0][k] == trimmed[k]);
                    assert(!CharClass::Space.has(trimmed[k]));
                }
            } else {
                assert(all[i] == rest[i - 1]);
            }
        }
    }
}

/// Whether a text is a word: not empty, and without white space.
pub open spec fn is_visible_word(word: Seq<char>) -> bool {
    &&& word.len() > 0
    &&& forall|k: int| 0 <= k < word.len() ==> !is_space(#[trigger] word[k])
}

/// A text without white space is the only word in it.
pub proof fn law_visible_text_is_one_word(s: Seq<char>)
    requires
        is_visible_word(s),
    ensures
        words_of(s) == seq![s],
{
    assert(!is_space(s[0]));
    lemma_first_at_is(s, CharClass::Visible, 0);
    assert(s.skip(0) =~= s);
    lemma_first_at_is(s, CharClass::Space, s.len() as int);
    assert(s.take(s.len() as int) =~= s);
    let rest = s.skip(s.len() as int);
    assert(rest =~= Seq::<char>::empty());
    assert(rest.skip(0) =~= rest);
    assert(words_of(rest) =~= Seq::<Seq<char>>::empty());
    assert(words_of(s) =~= seq![s]);
}

/// The first character of a class, told by the characters themselves: where
/// there is one, it stands at the position found, and none stands before it;
/// where there is none, the position is the end.
pub proof fn law_first_of_class(s: Seq<char>)
    ensures
        ({
            let i = first_at(s, CharClass::Newline);
            &&& 0 <= i <= s.len() && (i < s.len() ==> s[i] == '\n')
            &&& forall|k: int| 0 <= k < i ==> #[trigger] s[k] != '\n'
        }),
        ({
            let i = first_at(s, CharClass::Space);
            &&& 0 <= i <= s.len() && (i < s.len() ==> is_space(s[i]))
            &&& forall|k: int| 0 <= k < i ==> !is_space(#[trigger] s[k])
        }),
        ({
            let i = first_at(s, CharClass::Visible);
            &&& 0 <= i <= s.len() && (i < s.len() ==> !is_space(s[i]))
            &&& forall|k: int| 0 <= k < i ==> is_space(#[trigger] s[k])
        }),
        ({
            let i = first_at(s, CharClass::Cross);
            &&& 0 <= i <= s.len() && (i < s.len() ==> s[i] == 'x')
            &&& forall|k: int| 0 <= k < i ==> #[trigger] s[k] != 'x'
        }),
        ({
            let i = first_at(s, CharClass::Plus);
            &&& 0 <= i <= s.len() && (i < s.len() ==> s[i] == '+')
            &&& forall|k: int| 0 <= k < i ==> #[trigger] s[k] != '+'
        }),
        ({
            let i = first_at(s, CharClass::Sign);
            &&& 0 <= i <= s.len() && (i < s.len() ==> s[i] == '+' || s[i] == '-')
            &&& forall|k: int| 0 <= k < i ==> #[trigger] s[k] != '+' && s[k] != '-'
        }),
        ({
            let i = first_at(s, CharClass::NonDigit);
            &&& 0 <= i <= s.len() && (i < s.len() ==> !('0' <= s[i] <= '9'))
            &&& forall|k: int| 0 <= k < i ==> '0' <= #[trigger] s[k] <= '9'
        }),
{
    lemma_first_at(s, CharClass::Newline);
    lemma_first_at(s, CharClass::Space);
    lemma_first_at(s, CharClass::Visible);
    lemma_first_at(s, CharClass::Cross);
    lemma_first_at(s, CharClass::Plus);
    lemma_first_at(s, CharClass::Sign);
    lemma_first_at(s, CharClass::NonDigit);
    assert forall|k: int| 0 <= k < first_at(s, CharClass::Newline) implies #[trigger] s[k]
        != '\n' by {
        assert(!CharClass::Newline.has(s[k]));
    }
    assert forall|k: int| 0 <= k < first_at(s, CharClass::Space) implies !is_space(
        #[trigger] s[k],
    ) by {
        assert(!CharClass::Space.has(s[k]));
    }
    assert forall|k: int| 0 <= k < first_at(s, CharClass::Visible) implies is_space(
        #[trigger] s[k],
    ) by {
        assert(!CharClass::Visible.has(s[k]));
    }
    assert forall|k: int| 0 <= k < first_at(s, CharClass::Cross) implies #[trigger] s[k]
        != 'x' by {
        assert(!CharClass::Cross.has(s[k]));
    }
    assert forall|k: int| 0 <= k < first_at(s, CharClass::Plus) implies #[trigger] s[k]
        != '+' by {
        assert(!CharClass::Plus.has(s[k]));
    }
    assert forall|k: int| 0 <= k < first_at(s, CharClass::Sign) implies #[trigger] s[k] != '+'
        && s[k] != '-' by {
        assert(!CharClass::Sign.has(s[k]));
    }
    assert forall|k: int| 0 <= k < first_at(s, CharClass::NonDigit) implies '0'
        <= #[trigger] s[k] <= '9' by {
        assert(!CharClass::NonDigit.has(s[k]));
    }
}

/// A line ends before its line feed, and before one carriage return that stands
/// right there; any other carriage return belongs to the line.
pub proof fn law_line_ends(line: Seq<char>)
    requires
        forall|k: int| 0 <= k < line.len() ==> #[trigger] line[k] != '\n',
    ensures
        lines_of(line.push('\r').push('\n')) == seq![line],
        (line.len() == 0 || line.last() != '\r') ==> lines_of(line.push('\n')) == seq![line],
        line.len() > 0 ==> lines_of(line) == seq![line],
{
    law_text_without_line_feed_is_one_line(line);
    let returned = line.push('\r');
    assert forall|k: int| 0 <= k < returned.len() implies #[trigger] returned[k] != '\n' by {
        if k < line.len() {
            assert(returned[k] == line[k]);
        }
    }
    law_text_without_line_feed_is_one_line(returned);
    assert(returned.drop_last() =~= line);
}

/// White space alone holds no words.
pub proof fn law_white_space_holds_no_words(s: Seq<char>)
    requires
        forall|k: int| 0 <= k < s.len() ==> is_space(#[trigger] s[k]),
    ensures
        words_of(s) == Seq::<Seq<char>>::empty(),
{
    assert forall|k: int| 0 <= k < s.len() implies !CharClass::Visible.has(#[trigger] s[k]) by {
        assert(is_space(s[k]));
    }
    lemma_first_at_is(s, CharClass::Visible, s.len() as int);
    assert(s.skip(s.len() as int).len() == 0);
}

/// The first word of a text follows the white space in front, and ends at the
/// next white space or at the end; the other words are those of what follows.
pub proof fn law_words_stand_between_white_space(lead: Seq<char>, word: Seq<char>, rest: Seq<char>)
    requires
        forall|k: int| 0 <= k < lead.len() ==> is_space(#[trigger] lead[k]),
        is_visible_word(word),
        rest.len() == 0 || is_space(rest[0]),
    ensures
        words_of(lead + word + rest) == seq![word] + words_of(rest),
{
    let s = lead + word + rest;
    let start = lead.len() as int;
    assert forall|k: int| 0 <= k < start implies !CharClass::Visible.has(#[trigger] s[k]) by {
        assert(s[k] == lead[k]);
    }
    assert(s[start] == word[0]);
    assert(!is_space(word[0]));
    lemma_first_at_is(s, CharClass::Visible, start);
    let trimmed = s.skip(start);
    assert(trimmed =~= word + rest);
    let end = word.len() as int;
    assert forall|k: int| 0 <= k < end implies !CharClass::Space.has(#[trigger] trimmed[k]) by {
        assert(trimmed[k] == word[k]);
        assert(!is_space(word[k]));
    }
    if rest.len() > 0 {
        assert(trimmed[end] == rest[0]);
    }
    lemma_first_at_is(trimmed, CharClass::Space, end);
    assert(trimmed.take(end) =~= word);
    assert(trimmed.skip(end) =~= rest);
}

/// A list of texts is viewed text by text.
pub proof fn law_texts_are_viewed_one_by_one(slices: Seq<&str>, strings: Seq<String>)
    ensures
        views(slices).len() == slices.len(),
        forall|i: int| 0 <= i < slices.len() ==> #[trigger] views(slices)[i] == slices[i]@,
        strings_view(strings).len() == strings.len(),
        forall|i: int|
            0 <= i < strings.len() ==> #[trigger] strings_view(strings)[i] == strings[i]@,
{
}

} // verus!
