//! Character classes of the lexer.
//!
//! Every class is a predicate on a single `char`, given once as a spec
//! function and once as an executable test that is proved to agree with it.

use vstd::prelude::*;

verus! {

/// Characters with the Unicode `White_Space` property: the ASCII blank and
/// the controls from tab to carriage return, the next-line control, the
/// no-break space, the spaces of the general punctuation block and their
/// kin, and the line and paragraph separators.
pub open spec fn is_whitespace(c: char) -> bool {
    ||| '\u{9}' <= c <= '\u{D}'
    ||| c == ' '
    ||| c == '\u{85}'
    ||| c == '\u{A0}'
    ||| c == '\u{1680}'
    ||| '\u{2000}' <= c <= '\u{200A}'
    ||| c == '\u{2028}'
    ||| c == '\u{2029}'
    ||| c == '\u{202F}'
    ||| c == '\u{205F}'
    ||| c == '\u{3000}'
}

/// Characters of the Unicode general category `Cc`: the control codes
/// below the blank, the delete character and the controls after it.
pub open spec fn is_control(c: char) -> bool {
    c <= '\u{1F}' || '\u{7F}' <= c <= '\u{9F}'
}

/// Characters that carry no meaning between two tokens.
pub open spec fn is_layout(c: char) -> bool {
    is_whitespace(c) || is_control(c)
}

/// The ASCII decimal digits.
pub open spec fn is_digit(c: char) -> bool {
    '0' <= c <= '9'
}

/// Characters that the lexer gathers into a number lexeme before it checks
/// the lexeme against the number grammar.
pub open spec fn is_number_char(c: char) -> bool {
    is_digit(c) || c == '.' || c == 'e' || c == 'E' || c == '+' || c == '-'
}

/// Characters that may stand inside a string literal: everything but the
/// closing quote and the two line breaks.
pub open spec fn is_string_char(c: char) -> bool {
    c != '"' && c != '\n' && c != '\r'
}

/// Tests whether `c` is whitespace.
pub fn char_is_whitespace(c: char) -> (r: bool)
    ensures
        r == is_whitespace(c),
{
    let ascii = ('\u{9}' <= c && c <= '\u{D}') || c == ' ';
    let latin = c == '\u{85}' || c == '\u{A0}';
    let spaces = c == '\u{1680}' || ('\u{2000}' <= c && c <= '\u{200A}') || c == '\u{202F}' || c
        == '\u{205F}' || c == '\u{3000}';
    let separators = c == '\u{2028}' || c == '\u{2029}';
    ascii || latin || spaces || separators
}

/// Tests whether `c` is a control code.
pub fn char_is_control(c: char) -> (r: bool)
    ensures
        r == is_control(c),
{
    c <= '\u{1F}' || ('\u{7F}' <= c && c <= '\u{9F}')
}

/// Tests whether `c` is layout.
pub fn char_is_layout(c: char) -> (r: bool)
    ensures
        r == is_layout(c),
{
    char_is_whitespace(c) || char_is_control(c)
}

/// Tests whether `c` is a decimal digit.
pub fn char_is_digit(c: char) -> (r: bool)
    ensures
        r == is_digit(c),
{
    '0' <= c && c <= '9'
}

/// Tests whether `c` may stand in a number lexeme.
pub fn char_is_number_char(c: char) -> (r: bool)
    ensures
        r == is_number_char(c),
{
    char_is_digit(c) || c == '.' || c == 'e' || c == 'E' || c == '+' || c == '-'
}

/// Tests whether `c` may stand inside a string literal.
pub fn char_is_string_char(c: char) -> (r: bool)
    ensures
        r == is_string_char(c),
{
    c != '"' && c != '\n' && c != '\r'
}

/// The classes of characters that the lexer reads in runs.
#[derive(Clone, Copy, Debug)]
pub enum CharClass {
    /// Whitespace and control characters between tokens.
    Layout,
    /// The characters inside a string literal.
    StringBody,
    /// The characters gathered into a number lexeme.
    NumberBody,
    /// Decimal digits.
    Digit,
}

impl CharClass {
    /// Whether `c` belongs to this class.
    pub open spec fn contains(self, c: char) -> bool {
        match self {
            CharClass::Layout => is_layout(c),
            CharClass::StringBody => is_string_char(c),
            CharClass::NumberBody => is_number_char(c),
            CharClass::Digit => is_digit(c),
        }
    }

    /// Executable membership test.
    pub fn has(self, c: char) -> (r: bool)
        ensures
            r == self.contains(c),
    {
        match self {
            CharClass::Layout => char_is_layout(c),
            CharClass::StringBody => char_is_string_char(c),
            CharClass::NumberBody => char_is_number_char(c),
            CharClass::Digit => char_is_digit(c),
        }
    }
}

/// The index at which the longest run of characters of `class` that starts
/// at `from` ends: the first index at or after `from` that holds a character
/// outside the class, or the end of the text.
pub open spec fn run_end(text: Seq<char>, from: int, class: CharClass) -> int
    decreases text.len() - from,
{
    if 0 <= from < text.len() && class.contains(text[from]) {
        run_end(text, from + 1, class)
    } else {
        from
    }
}

/// `run_end` stops at the first character outside the class and nowhere
/// before it.
pub proof fn lemma_run_end(text: Seq<char>, from: int, class: CharClass)
    requires
        0 <= from <= text.len(),
    ensures
        from <= run_end(text, from, class) <= text.len(),
        forall|i: int| from <= i < run_end(text, from, class) ==> class.contains(#[trigger] text[i]),
        run_end(text, from, class) < text.len() ==> !class.contains(
            text[run_end(text, from, class)],
        ),
    decreases text.len() - from,
{
    if from < text.len() && class.contains(text[from]) {
        lemma_run_end(text, from + 1, class);
    }
}

/// Any index that bounds a run of the class and is followed by a character
/// outside it (or by nothing) is the end of that run.
pub proof fn lemma_run_end_is(text: Seq<char>, from: int, class: CharClass, end: int)
    requires
        0 <= from <= end <= text.len(),
        forall|i: int| from <= i < end ==> class.contains(#[trigger] text[i]),
        end < text.len() ==> !class.contains(text[end]),
    ensures
        run_end(text, from, class) == end,
    decreases end - from,
{
    if from < end {
        lemma_run_end_is(text, from + 1, class, end);
    }
}

/// Scans the run of `class` that starts at `from` and returns where it ends.
pub fn scan_run(text: &Vec<char>, from: usize, class: CharClass) -> (end: usize)
    requires
        from <= text.len(),
    ensures
        end == run_end(text@, from as int, class),
        from <= end <= text.len(),
{
    let mut i: usize = from;
    while i < text.len() && class.has(text[i])
        invariant
            from <= i <= text.len(),
            run_end(text@, from as int, class) == run_end(text@, i as int, class),
        decreases text.len() - i,
    {
        i += 1;
    }
    i
}

} // verus!
