//! The notation of tokens as text, and what the lexer makes of it.
//!
//! [`written`] writes a sequence of tokens down as text, with layout before,
//! between and after the lexemes. The lexer reads the tokens back from that
//! text ([`lemma_lex_written`]), and every token that the lexer hands out is
//! well formed ([`lemma_lexed_tokens_well_formed`]).

use crate::chars::{
    is_digit, is_layout, is_number_char, is_string_char, lemma_run_end, lemma_run_end_is, run_end,
    CharClass,
};
use crate::number::{
    exponent_digits_start, fraction_end, has_exponent, has_fraction, integer_end, integer_start,
    is_json_number,
};
use crate::tokenizer::{
    false_tail, lemma_lex_token_advances, lex_all, lex_token, null_tail, number_lexeme, true_tail, Lexed,
    TokenView,
};
use vstd::prelude::*;

verus! {

/// The text of one token. The text of a string is its content between two
/// quotes, and the text of a number is its lexeme.
pub open spec fn lexeme(t: TokenView) -> Seq<char> {
    match t {
        TokenView::BraceOpen => seq!['{'],
        TokenView::BraceClose => seq!['}'],
        TokenView::BracketOpen => seq!['['],
        TokenView::BracketClose => seq![']'],
        TokenView::Colon => seq![':'],
        TokenView::Comma => seq![','],
        TokenView::String(s) => seq!['"'] + s + seq!['"'],
        TokenView::Number(n) => n,
        TokenView::True => seq!['t'] + true_tail(),
        TokenView::False => seq!['f'] + false_tail(),
        TokenView::Null => seq!['n'] + null_tail(),
    }
}

/// Whether every character of `s` may stand inside a string literal.
pub open spec fn is_string_content(s: Seq<char>) -> bool {
    forall|i: int| 0 <= i < s.len() ==> is_string_char(#[trigger] s[i])
}

/// Whether `t` is a token that the lexer can hand out: the content of a
/// string holds neither a quote nor a line break, and the lexeme of a number
/// is a JSON number.
pub open spec fn well_formed_token(t: TokenView) -> bool {
    match t {
        TokenView::String(s) => is_string_content(s),
        TokenView::Number(n) => is_json_number(n),
        _ => true,
    }
}

/// Whether `gap` consists of layout only.
pub open spec fn is_layout_text(gap: Seq<char>) -> bool {
    forall|i: int| 0 <= i < gap.len() ==> is_layout(#[trigger] gap[i])
}

/// A JSON number is not empty, starts with a minus sign or a digit, and
/// consists of number characters only.
pub proof fn lemma_number_chars(n: Seq<char>)
    requires
        is_json_number(n),
    ensures
        n.len() > 0,
        n[0] == '-' || is_digit(n[0]),
        forall|i: int| 0 <= i < n.len() ==> is_number_char(#[trigger] n[i]),
{
    lemma_run_end(n, integer_start(n), CharClass::Digit);
    if has_fraction(n) {
        lemma_run_end(n, integer_end(n) + 1, CharClass::Digit);
    }
    if has_exponent(n) {
        lemma_run_end(n, exponent_digits_start(n), CharClass::Digit);
    }
    assert forall|i: int| 0 <= i < n.len() implies is_number_char(#[trigger] n[i]) by {
        if i < integer_start(n) {
        } else if i < integer_end(n) {
            assert(CharClass::Digit.contains(n[i]));
        } else if i < fraction_end(n) {
            if i > integer_end(n) {
                assert(CharClass::Digit.contains(n[i]));
            }
        } else if i < exponent_digits_start(n) {
        } else {
            assert(CharClass::Digit.contains(n[i]));
        }
    }
    assert(CharClass::Digit.contains(n[integer_start(n)]));
}

/// The lexer reads a token from its lexeme: where the lexeme of a
/// well-formed token stands after `gap` characters of layout, the lexer
/// returns that token and stops right after the lexeme. After the lexeme of
/// a number the text must end or go on with a character that is no number
/// character.
pub proof fn lemma_lex_lexeme(text: Seq<char>, from: int, gap: int, t: TokenView)
    requires
        0 <= from,
        0 <= gap,
        well_formed_token(t),
        from + gap + lexeme(t).len() <= text.len(),
        forall|i: int| from <= i < from + gap ==> is_layout(#[trigger] text[i]),
        text.subrange(from + gap, from + gap + lexeme(t).len()) == lexeme(t),
        t is Number ==> from + gap + lexeme(t).len() == text.len() || !is_number_char(
            text[from + gap + lexeme(t).len()],
        ),
    ensures
        lex_token(text, from) == (Lexed::Token { token: t, next: from + gap + lexeme(t).len() }),
{
    let at = from + gap;
    let word = lexeme(t);
    let end = at + word.len();
    if t is Number {
        lemma_number_chars(t->Number_0);
    }
    assert(word.len() > 0);
    assert forall|i: int| 0 <= i < word.len() implies text[at + i] == #[trigger] word[i] by {
        assert(text.subrange(at, end)[i] == text[at + i]);
    }
    assert(text[at + 0] == word[0]);
    assert(!is_layout(word[0]));
    assert forall|i: int| from <= i < at implies CharClass::Layout.contains(#[trigger] text[i]) by {
        assert(is_layout(text[i]));
    }
    lemma_run_end_is(text, from, CharClass::Layout, at);
    match t {
        TokenView::String(s) => {
            let m = s.len() as int;
            let close = at + 1 + m;
            assert forall|i: int| at + 1 <= i < close implies CharClass::StringBody.contains(
                #[trigger] text[i],
            ) by {
                assert(text[at + (i - at)] == word[i - at]);
                assert(word[i - at] == s[i - at - 1]);
            }
            assert(text[at + (m + 1)] == word[m + 1]);
            lemma_run_end_is(text, at + 1, CharClass::StringBody, close);
            assert(text.subrange(at + 1, close) =~= s) by {
                assert forall|i: int| 0 <= i < s.len() implies text.subrange(at + 1, close)[i]
                    == s[i] by {
                    assert(text[at + (i + 1)] == word[i + 1]);
                }
            }
        },
        TokenView::Number(n) => {
            assert forall|i: int| at + 1 <= i < end implies CharClass::NumberBody.contains(
                #[trigger] text[i],
            ) by {
                assert(text[at + (i - at)] == word[i - at]);
            }
            lemma_run_end_is(text, at + 1, CharClass::NumberBody, end);
            assert(number_lexeme(text, text[at], at + 1) =~= n) by {
                let read = number_lexeme(text, text[at], at + 1);
                assert forall|i: int| 0 <= i < n.len() implies read[i] == n[i] by {
                    assert(text[at + i] == word[i]);
                }
            }
        },
        TokenView::True => {
            assert(text.subrange(at + 1, at + 1 + true_tail().len()) =~= true_tail()) by {
                assert forall|i: int| 0 <= i < 3 implies text[at + 1 + i] == true_tail()[i] by {
                    assert(text[at + (i + 1)] == word[i + 1]);
                }
            }
        },
        TokenView::False => {
            assert(text.subrange(at + 1, at + 1 + false_tail().len()) =~= false_tail()) by {
                assert forall|i: int| 0 <= i < 4 implies text[at + 1 + i] == false_tail()[i] by {
                    assert(text[at + (i + 1)] == word[i + 1]);
                }
            }
        },
        TokenView::Null => {
            assert(text.subrange(at + 1, at + 1 + null_tail().len()) =~= null_tail()) by {
                assert forall|i: int| 0 <= i < 3 implies text[at + 1 + i] == null_tail()[i] by {
                    assert(text[at + (i + 1)] == word[i + 1]);
                }
            }
        },
        _ => {},
    }
}

/// The text in which the tokens from the `k`th on are written: before each
/// token stands the gap of the same index, and after the last token the
/// last gap.
pub open spec fn written(tokens: Seq<TokenView>, gaps: Seq<Seq<char>>, k: int) -> Seq<char>
    decreases tokens.len() - k,
{
    if !(0 <= k < tokens.len()) {
        gaps[tokens.len() as int]
    } else {
        gaps[k] + lexeme(tokens[k]) + written(tokens, gaps, k + 1)
    }
}

/// Whether `gaps` can stand around `tokens`: there is one gap before each
/// token and one after the last, and each gap consists of layout. A gap may
/// be empty.
pub open spec fn are_gaps(gaps: Seq<Seq<char>>, tokens: Seq<TokenView>) -> bool {
    &&& gaps.len() == tokens.len() + 1
    &&& forall|k: int| 0 <= k < gaps.len() ==> is_layout_text(#[trigger] gaps[k])
}

/// Whether every token of `tokens` is well formed.
pub open spec fn well_formed_tokens(tokens: Seq<TokenView>) -> bool {
    forall|k: int| 0 <= k < tokens.len() ==> well_formed_token(#[trigger] tokens[k])
}

/// Whether no number of `tokens` runs into the token after it: where the
/// gap after a number is empty, the next lexeme starts with a character
/// that is no number character.
pub open spec fn numbers_end(tokens: Seq<TokenView>, gaps: Seq<Seq<char>>) -> bool {
    forall|k: int|
        0 <= k && k + 1 < tokens.len() && (#[trigger] tokens[k]) is Number && gaps[k + 1].len() == 0
            ==> !is_number_char(lexeme(tokens[k + 1])[0])
}

/// The lexeme of a well-formed token is not empty and starts with a
/// character that is no layout.
pub proof fn lemma_lexeme_start(t: TokenView)
    requires
        well_formed_token(t),
    ensures
        lexeme(t).len() > 0,
        !is_layout(lexeme(t)[0]),
{
    if t is Number {
        lemma_number_chars(t->Number_0);
    }
}

/// The lexer is complete: from the text in which well-formed tokens are
/// written with layout around them, it reads those tokens back.
pub proof fn lemma_lex_written(
    text: Seq<char>,
    from: int,
    tokens: Seq<TokenView>,
    gaps: Seq<Seq<char>>,
    k: int,
)
    requires
        0 <= k <= tokens.len(),
        0 <= from <= text.len(),
        well_formed_tokens(tokens),
        are_gaps(gaps, tokens),
        numbers_end(tokens, gaps),
        text.subrange(from, text.len() as int) == written(tokens, gaps, k),
    ensures
        lex_all(text, from) == Ok::<Seq<TokenView>, int>(tokens.subrange(k, tokens.len() as int)),
    decreases tokens.len() - k,
{
    let rest = text.subrange(from, text.len() as int);
    let n = tokens.len() as int;
    assert(is_layout_text(gaps[k]));
    if k == n {
        let gap = gaps[n];
        assert forall|i: int| from <= i < text.len() implies CharClass::Layout.contains(
            #[trigger] text[i],
        ) by {
            assert(rest[i - from] == text[i]);
            assert(is_layout(gap[i - from]));
        }
        lemma_run_end_is(text, from, CharClass::Layout, text.len() as int);
        assert(tokens.subrange(k, n) =~= Seq::empty());
    } else {
        let gap = gaps[k];
        let t = tokens[k];
        let word = lexeme(t);
        let tail = written(tokens, gaps, k + 1);
        assert(well_formed_token(t));
        lemma_lexeme_start(t);
        assert(rest == gap + word + tail);
        let at = from + gap.len();
        let end = at + word.len();
        assert forall|i: int| from <= i < at implies is_layout(#[trigger] text[i]) by {
            assert(rest[i - from] == text[i]);
            assert(is_layout(gap[i - from]));
        }
        assert(text.subrange(at, end) =~= word) by {
            assert forall|i: int| 0 <= i < word.len() implies text.subrange(at, end)[i] == word[i] by {
                assert(rest[gap.len() + i] == text[at + i]);
            }
        }
        assert(text.subrange(end, text.len() as int) =~= tail) by {
            assert forall|i: int| 0 <= i < tail.len() implies text.subrange(end, text.len() as int)[i]
                == tail[i] by {
                assert(rest[gap.len() + word.len() + i] == text[end + i]);
            }
        }
        if t is Number && end < text.len() {
            assert(tail[0] == text[end]);
            assert(is_layout_text(gaps[k + 1]));
            if k + 1 < n {
                assert(well_formed_token(tokens[k + 1]));
                lemma_lexeme_start(tokens[k + 1]);
                if gaps[k + 1].len() > 0 {
                    assert(tail[0] == gaps[k + 1][0]);
                    assert(is_layout(gaps[k + 1][0]));
                } else {
                    assert(tail[0] == lexeme(tokens[k + 1])[0]);
                }
            } else {
                assert(tail[0] == gaps[k + 1][0]);
                assert(is_layout(gaps[k + 1][0]));
            }
        }
        lemma_lex_lexeme(text, from, gap.len() as int, t);
        lemma_lex_written(text, end, tokens, gaps, k + 1);
        assert(seq![t] + tokens.subrange(k + 1, n) =~= tokens.subrange(k, n));
    }
}

/// Every token that the lexer reads is well formed: a string holds neither
/// a quote nor a line break, and the lexeme of a number is a JSON number.
pub proof fn lemma_lexed_token_well_formed(text: Seq<char>, from: int)
    requires
        0 <= from <= text.len(),
    ensures
        lex_token(text, from) matches Lexed::Token { token, .. } ==> well_formed_token(token),
{
    lemma_run_end(text, from, CharClass::Layout);
    let at = run_end(text, from, CharClass::Layout);
    if at < text.len() && text[at] == '"' {
        lemma_run_end(text, at + 1, CharClass::StringBody);
        let close = run_end(text, at + 1, CharClass::StringBody);
        let s = text.subrange(at + 1, close);
        assert forall|i: int| 0 <= i < s.len() implies is_string_char(#[trigger] s[i]) by {
            assert(CharClass::StringBody.contains(text[at + 1 + i]));
        }
    }
}

/// Every token of a text that the lexer accepts is well formed.
pub proof fn lemma_lexed_tokens_well_formed(text: Seq<char>, from: int)
    requires
        0 <= from <= text.len(),
    ensures
        lex_all(text, from) matches Ok(tokens) ==> well_formed_tokens(tokens),
    decreases text.len() - from,
{
    match lex_token(text, from) {
        Lexed::Token { token, next } => {
            lemma_lex_token_advances(text, from);
            lemma_lexed_token_well_formed(text, from);
            lemma_lexed_tokens_well_formed(text, next);
            match lex_all(text, next) {
                Ok(rest) => {
                    let tokens = seq![token] + rest;
                    assert forall|k: int| 0 <= k < tokens.len() implies well_formed_token(
                        #[trigger] tokens[k],
                    ) by {
                        if k > 0 {
                            assert(tokens[k] == rest[k - 1]);
                        }
                    }
                },
                Err(_) => {},
            }
        },
        _ => {},
    }
}

/// The lexeme of a token that the lexer reads is the text that the lexer
/// took for it: the text between the layout that was skipped and the
/// position at which the lexer stopped. After a number the text ends or
/// goes on with a character that is no number character.
pub proof fn lemma_lexed_lexeme(text: Seq<char>, from: int)
    requires
        0 <= from <= text.len(),
    ensures
        lex_token(text, from) matches Lexed::Token { token, next } ==> {
            let at = run_end(text, from, CharClass::Layout);
            &&& from <= at < next <= text.len()
            &&& text.subrange(at, next) == lexeme(token)
            &&& token is Number ==> next == text.len() || !is_number_char(text[next])
        },
{
    lemma_lex_token_advances(text, from);
    lemma_run_end(text, from, CharClass::Layout);
    let at = run_end(text, from, CharClass::Layout);
    match lex_token(text, from) {
        Lexed::Token { token, next } => {
            lemma_run_end(text, at + 1, CharClass::StringBody);
            lemma_run_end(text, at + 1, CharClass::NumberBody);
            assert(text.subrange(at, next) =~= lexeme(token)) by {
                let taken = text.subrange(at, next);
                let word = lexeme(token);
                match token {
                    TokenView::True => {
                        assert(text.subrange(at + 1, at + 4) == true_tail());
                        assert forall|i: int| 0 <= i < 4 implies taken[i] == word[i] by {
                            if i > 0 {
                                assert(text.subrange(at + 1, at + 4)[i - 1] == text[at + i]);
                            }
                        }
                    },
                    TokenView::False => {
                        assert(text.subrange(at + 1, at + 5) == false_tail());
                        assert forall|i: int| 0 <= i < 5 implies taken[i] == word[i] by {
                            if i > 0 {
                                assert(text.subrange(at + 1, at + 5)[i - 1] == text[at + i]);
                            }
                        }
                    },
                    TokenView::Null => {
                        assert(text.subrange(at + 1, at + 4) == null_tail());
                        assert forall|i: int| 0 <= i < 4 implies taken[i] == word[i] by {
                            if i > 0 {
                                assert(text.subrange(at + 1, at + 4)[i - 1] == text[at + i]);
                            }
                        }
                    },
                    _ => {},
                }
            }
            if token is Number && next < text.len() {
                assert(!CharClass::NumberBody.contains(text[next]));
            }
        },
        _ => {},
    }
}

/// Writing down one token more at the front leaves the text of the later
/// tokens as it was.
pub proof fn lemma_written_after_first(
    t: TokenView,
    gap: Seq<char>,
    tokens: Seq<TokenView>,
    gaps: Seq<Seq<char>>,
    k: int,
)
    requires
        0 <= k <= tokens.len(),
        gaps.len() == tokens.len() + 1,
    ensures
        written(seq![t] + tokens, seq![gap] + gaps, k + 1) == written(tokens, gaps, k),
    decreases tokens.len() - k,
{
    let longer = seq![t] + tokens;
    let more = seq![gap] + gaps;
    if k < tokens.len() {
        lemma_written_after_first(t, gap, tokens, gaps, k + 1);
        assert(longer[k + 1] == tokens[k]);
        assert(more[k + 1] == gaps[k]);
    } else {
        assert(more[longer.len() as int] == gaps[tokens.len() as int]);
    }
}

/// The lexer is sound: a text that it accepts is its tokens written down,
/// with layout before, between and after them. The gaps are returned.
pub proof fn lemma_lexed_text_is_written(text: Seq<char>, from: int) -> (gaps: Seq<Seq<char>>)
    requires
        0 <= from <= text.len(),
        lex_all(text, from) is Ok,
    ensures
        ({
            let tokens = lex_all(text, from)->Ok_0;
            &&& well_formed_tokens(tokens)
            &&& are_gaps(gaps, tokens)
            &&& numbers_end(tokens, gaps)
            &&& text.subrange(from, text.len() as int) == written(tokens, gaps, 0)
        }),
    decreases text.len() - from,
{
    let end = text.len() as int;
    lemma_lexed_tokens_well_formed(text, from);
    lemma_run_end(text, from, CharClass::Layout);
    let at = run_end(text, from, CharClass::Layout);
    let gap = text.subrange(from, at);
    assert(is_layout_text(gap)) by {
        assert forall|i: int| 0 <= i < gap.len() implies is_layout(#[trigger] gap[i]) by {
            assert(CharClass::Layout.contains(text[from + i]));
        }
    }
    match lex_token(text, from) {
        Lexed::Token { token, next } => {
            lemma_lexed_lexeme(text, from);
            let later = lemma_lexed_text_is_written(text, next);
            let rest = lex_all(text, next)->Ok_0;
            let tokens = seq![token] + rest;
            let gaps = seq![gap] + later;
            assert forall|k: int| 0 <= k < gaps.len() implies is_layout_text(#[trigger] gaps[k]) by {
                if k > 0 {
                    assert(gaps[k] == later[k - 1]);
                }
            }
            lemma_written_after_first(token, gap, rest, later, 0);
            assert(text.subrange(from, end) =~= gap + lexeme(token) + text.subrange(next, end));
            assert forall|k: int|
                0 <= k && k + 1 < tokens.len() && (#[trigger] tokens[k]) is Number && gaps[k
                    + 1].len() == 0 implies !is_number_char(lexeme(tokens[k + 1])[0]) by {
                if k == 0 {
                    // The next lexeme starts where this number ends.
                    let following = written(rest, later, 0);
                    assert(later[0] == gaps[1]);
                    assert(rest[0] == tokens[1]);
                    assert(well_formed_token(rest[0]));
                    lemma_lexeme_start(rest[0]);
                    assert(following == later[0] + lexeme(rest[0]) + written(rest, later, 1));
                    assert(following[0] == lexeme(rest[0])[0]);
                    assert(text.subrange(next, end)[0] == text[next]);
                } else {
                    assert(tokens[k] == rest[k - 1]);
                    assert(tokens[k + 1] == rest[k]);
                    assert(gaps[k + 1] == later[k]);
                }
            }
            gaps
        },
        _ => {
            assert(at == end);
            let gaps = seq![gap];
            let tokens = Seq::<TokenView>::empty();
            assert(lex_all(text, from)->Ok_0 =~= tokens);
            gaps
        },
    }
}

} // verus!
