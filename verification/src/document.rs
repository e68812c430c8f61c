//! Documents: values written down as text.
//!
//! A document is the notation of a value as tokens, written as text with
//! any layout between the tokens. Both passes accept every document
//! ([`lemma_document_is_accepted`]).

use crate::chars::is_number_char;
use crate::grammar::{
    elements_tokens, lemma_document_parses, lemma_parsed_value_notation, members_tokens, separator,
    stands_at, value_tokens,
};
use crate::notation::{
    are_gaps, is_string_content, lemma_lex_written, lemma_lexed_text_is_written, lexeme, numbers_end,
    well_formed_token, well_formed_tokens, written,
};
use crate::number::is_json_number;
use crate::parser::{
    after_comma, comma_at, parse_document, parse_elements, parse_members, parse_value_at,
    ParseErrorKind, Parsed, Rejected, Value,
};
use crate::tokenizer::{lex_all, TokenView};
use crate::{validate, Defect};
use vstd::prelude::*;

verus! {

/// Whether `v` can be written down: no string and no key holds a quote or a
/// line break, and every number is a JSON number.
pub open spec fn well_formed_value(v: Value) -> bool
    decreases v,
{
    match v {
        Value::Object(entries) => forall|i: int|
            0 <= i < entries.len() ==> is_string_content((#[trigger] entries[i]).0)
                && well_formed_value(entries[i].1),
        Value::Array(items) => forall|i: int|
            0 <= i < items.len() ==> well_formed_value(#[trigger] items[i]),
        Value::String(s) => is_string_content(s),
        Value::Number(n) => is_json_number(n),
        Value::Boolean(_) => true,
        Value::Null => true,
    }
}

/// The tokens of two sequences of well-formed tokens are well formed.
pub proof fn lemma_well_formed_concat(first: Seq<TokenView>, second: Seq<TokenView>)
    requires
        well_formed_tokens(first),
        well_formed_tokens(second),
    ensures
        well_formed_tokens(first + second),
{
    let whole = first + second;
    assert forall|k: int| 0 <= k < whole.len() implies well_formed_token(#[trigger] whole[k]) by {
        if k < first.len() {
            assert(whole[k] == first[k]);
        } else {
            assert(whole[k] == second[k - first.len()]);
        }
    }
}

/// The notation of a well-formed value consists of well-formed tokens.
pub proof fn lemma_value_tokens_well_formed(v: Value)
    requires
        well_formed_value(v),
    ensures
        well_formed_tokens(value_tokens(v)),
    decreases v, 0int,
{
    match v {
        Value::Object(entries) => {
            lemma_members_tokens_well_formed(entries, 0);
            lemma_well_formed_concat(seq![TokenView::BraceOpen], members_tokens(entries, 0));
            lemma_well_formed_concat(
                seq![TokenView::BraceOpen] + members_tokens(entries, 0),
                seq![TokenView::BraceClose],
            );
        },
        Value::Array(items) => {
            lemma_elements_tokens_well_formed(items, 0);
            lemma_well_formed_concat(seq![TokenView::BracketOpen], elements_tokens(items, 0));
            lemma_well_formed_concat(
                seq![TokenView::BracketOpen] + elements_tokens(items, 0),
                seq![TokenView::BracketClose],
            );
        },
        _ => {},
    }
}

/// The notation of the entries of a well-formed object consists of
/// well-formed tokens.
pub proof fn lemma_members_tokens_well_formed(entries: Seq<(Seq<char>, Value)>, k: int)
    requires
        well_formed_value(Value::Object(entries)),
    ensures
        well_formed_tokens(members_tokens(entries, k)),
    decreases entries, entries.len() - k,
{
    if 0 <= k < entries.len() {
        let head = seq![TokenView::String(entries[k].0), TokenView::Colon];
        let notation = value_tokens(entries[k].1);
        let comma = separator(k, entries.len() as int);
        assert(Value::Object(entries)->Object_0 == entries);
        assert(forall|i: int|
            0 <= i < entries.len() ==> is_string_content((#[trigger] entries[i]).0)
                && well_formed_value(entries[i].1));
        assert(is_string_content(entries[k].0) && well_formed_value(entries[k].1));
        lemma_value_tokens_well_formed(entries[k].1);
        lemma_members_tokens_well_formed(entries, k + 1);
        lemma_well_formed_concat(head, notation);
        lemma_well_formed_concat(head + notation, comma);
        lemma_well_formed_concat(head + notation + comma, members_tokens(entries, k + 1));
    }
}

/// The notation of the elements of a well-formed array consists of
/// well-formed tokens.
pub proof fn lemma_elements_tokens_well_formed(items: Seq<Value>, k: int)
    requires
        well_formed_value(Value::Array(items)),
    ensures
        well_formed_tokens(elements_tokens(items, k)),
    decreases items, items.len() - k,
{
    if 0 <= k < items.len() {
        let notation = value_tokens(items[k]);
        let comma = separator(k, items.len() as int);
        assert(Value::Array(items)->Array_0 == items);
        assert(forall|i: int| 0 <= i < items.len() ==> well_formed_value(#[trigger] items[i]));
        assert(well_formed_value(items[k]));
        lemma_value_tokens_well_formed(items[k]);
        lemma_elements_tokens_well_formed(items, k + 1);
        lemma_well_formed_concat(notation, comma);
        lemma_well_formed_concat(notation + comma, elements_tokens(items, k + 1));
    }
}

/// Whether `t` ends a value: a comma, a closing brace or a closing bracket.
pub open spec fn closes(t: TokenView) -> bool {
    t is Comma || t is BraceClose || t is BracketClose
}

/// Whether every number of `tokens` that is not the last token is followed
/// by a token that ends a value.
pub open spec fn numbers_closed(tokens: Seq<TokenView>) -> bool {
    forall|k: int|
        0 <= k && k + 1 < tokens.len() && (#[trigger] tokens[k]) is Number ==> closes(tokens[k + 1])
}

/// Numbers stay closed where two sequences meet, if the second one starts
/// with a token that ends a value or the first one does not end with a
/// number.
pub proof fn lemma_closed_concat(first: Seq<TokenView>, second: Seq<TokenView>)
    requires
        numbers_closed(first),
        numbers_closed(second),
        first.len() > 0 && first.last() is Number && second.len() > 0 ==> closes(second[0]),
    ensures
        numbers_closed(first + second),
{
    let whole = first + second;
    assert forall|k: int|
        0 <= k && k + 1 < whole.len() && (#[trigger] whole[k]) is Number implies closes(
        whole[k + 1],
    ) by {
        if k + 1 < first.len() {
            assert(whole[k] == first[k]);
            assert(whole[k + 1] == first[k + 1]);
        } else if k < first.len() {
            assert(whole[k] == first.last());
            assert(whole[k + 1] == second[0]);
        } else {
            assert(whole[k] == second[k - first.len()]);
            assert(whole[k + 1] == second[k - first.len() + 1]);
        }
    }
}

/// In the notation of a value, every number but a last one is followed by a
/// token that ends a value.
pub proof fn lemma_value_tokens_closed(v: Value)
    ensures
        numbers_closed(value_tokens(v)),
    decreases v, 0int,
{
    match v {
        Value::Object(entries) => {
            let open = seq![TokenView::BraceOpen];
            let inner = members_tokens(entries, 0) + seq![TokenView::BraceClose];
            lemma_members_tokens_closed(entries, 0);
            lemma_closed_concat(open, inner);
            assert(value_tokens(v) =~= open + inner);
        },
        Value::Array(items) => {
            let open = seq![TokenView::BracketOpen];
            let inner = elements_tokens(items, 0) + seq![TokenView::BracketClose];
            lemma_elements_tokens_closed(items, 0);
            lemma_closed_concat(open, inner);
            assert(value_tokens(v) =~= open + inner);
        },
        _ => {},
    }
}

/// In the notation of the entries of an object up to its closing brace,
/// every number is followed by a token that ends a value.
pub proof fn lemma_members_tokens_closed(entries: Seq<(Seq<char>, Value)>, k: int)
    ensures
        numbers_closed(members_tokens(entries, k) + seq![TokenView::BraceClose]),
    decreases entries, entries.len() - k,
{
    let close = seq![TokenView::BraceClose];
    if 0 <= k < entries.len() {
        let head = seq![TokenView::String(entries[k].0), TokenView::Colon];
        let notation = value_tokens(entries[k].1);
        let comma = separator(k, entries.len() as int);
        let rest = members_tokens(entries, k + 1) + close;
        lemma_value_tokens_closed(entries[k].1);
        lemma_members_tokens_closed(entries, k + 1);
        lemma_closed_concat(comma, rest);
        lemma_closed_concat(notation, comma + rest);
        lemma_closed_concat(head, notation + (comma + rest));
        assert(members_tokens(entries, k) + close =~= head + (notation + (comma + rest)));
    } else {
        assert(members_tokens(entries, k) + close =~= close);
    }
}

/// In the notation of the elements of an array up to its closing bracket,
/// every number is followed by a token that ends a value.
pub proof fn lemma_elements_tokens_closed(items: Seq<Value>, k: int)
    ensures
        numbers_closed(elements_tokens(items, k) + seq![TokenView::BracketClose]),
    decreases items, items.len() - k,
{
    let close = seq![TokenView::BracketClose];
    if 0 <= k < items.len() {
        let notation = value_tokens(items[k]);
        let comma = separator(k, items.len() as int);
        let rest = elements_tokens(items, k + 1) + close;
        lemma_value_tokens_closed(items[k]);
        lemma_elements_tokens_closed(items, k + 1);
        lemma_closed_concat(comma, rest);
        lemma_closed_concat(notation, comma + rest);
        assert(elements_tokens(items, k) + close =~= notation + (comma + rest));
    } else {
        assert(elements_tokens(items, k) + close =~= close);
    }
}

/// Every document is accepted: if a well-formed value is written down as
/// tokens, and the tokens as text with any layout before, between and after
/// them, then the lexer reads exactly those tokens from the text, the parser
/// reads the value from the tokens and uses all of them, and the text is
/// valid.
pub proof fn lemma_document_is_accepted(v: Value, gaps: Seq<Seq<char>>)
    requires
        well_formed_value(v),
        are_gaps(gaps, value_tokens(v)),
    ensures
        ({
            let tokens = value_tokens(v);
            let text = written(tokens, gaps, 0);
            &&& lex_all(text, 0) == Ok::<Seq<TokenView>, int>(tokens)
            &&& parse_document(tokens, 0) == Ok::<Option<Parsed>, Rejected>(
                Some(Parsed { value: v, next: tokens.len() as int }),
            )
            &&& validate(text) == Ok::<(), Defect>(())
        }),
{
    let tokens = value_tokens(v);
    let text = written(tokens, gaps, 0);
    lemma_value_tokens_well_formed(v);
    lemma_value_tokens_closed(v);
    assert(numbers_end(tokens, gaps)) by {
        assert forall|k: int|
            0 <= k && k + 1 < tokens.len() && (#[trigger] tokens[k]) is Number && gaps[k + 1].len()
                == 0 implies !is_number_char(lexeme(tokens[k + 1])[0]) by {
            assert(closes(tokens[k + 1]));
        }
    }
    assert(text.subrange(0, text.len() as int) =~= text);
    lemma_lex_written(text, 0, tokens, gaps, 0);
    assert(tokens.subrange(0, tokens.len() as int) =~= tokens);
    lemma_document_parses(v, Seq::empty());
    assert(tokens + Seq::empty() =~= tokens);
}

/// Lexing a document leaves the parser nothing to wait for: on the tokens
/// that the lexer read, the parser does not run out of tokens, and it reads
/// as many tokens as the lexer handed out.
pub proof fn lemma_document_leaves_nothing_open(v: Value, gaps: Seq<Seq<char>>)
    requires
        well_formed_value(v),
        are_gaps(gaps, value_tokens(v)),
    ensures
        lex_all(written(value_tokens(v), gaps, 0), 0) matches Ok(tokens) && {
            &&& !(parse_document(tokens, 0) matches Err(rejected) && rejected.kind
                == ParseErrorKind::UnexpectedEndOfInput)
            &&& parse_document(tokens, 0) matches Ok(Some(parsed)) && parsed.next == tokens.len()
        },
{
    lemma_document_is_accepted(v, gaps);
}

/// A value that is parsed from well-formed tokens is well formed: none of
/// its strings and keys holds a quote or a line break, and each of its
/// numbers is a JSON number.
pub proof fn lemma_parsed_value_well_formed(tokens: Seq<TokenView>, pos: int)
    requires
        0 <= pos,
        well_formed_tokens(tokens),
    ensures
        parse_value_at(tokens, pos) matches Ok(parsed) ==> well_formed_value(parsed.value),
    decreases tokens.len() - pos, 0int,
{
    if pos < tokens.len() {
        assert(well_formed_token(tokens[pos]));
        match tokens[pos] {
            TokenView::BraceOpen => {
                lemma_parsed_members_well_formed(tokens, pos + 1, Seq::empty(), false);
            },
            TokenView::BracketOpen => {
                lemma_parsed_elements_well_formed(tokens, pos + 1, Seq::empty(), false);
            },
            _ => {},
        }
    }
}

/// An object that is parsed from well-formed tokens is well formed, if the
/// entries that were read before are.
pub proof fn lemma_parsed_members_well_formed(
    tokens: Seq<TokenView>,
    pos: int,
    first: Seq<(Seq<char>, Value)>,
    comma: bool,
)
    requires
        0 <= pos,
        well_formed_tokens(tokens),
        well_formed_value(Value::Object(first)),
    ensures
        parse_members(tokens, pos, first, comma) matches Ok(parsed) ==> well_formed_value(
            parsed.value,
        ),
    decreases tokens.len() - pos, 1int,
{
    if pos < tokens.len() {
        match parse_members(tokens, pos, first, comma) {
            Ok(parsed) => {
                match tokens[pos] {
                    TokenView::String(key) => {
                        assert(well_formed_token(tokens[pos]));
                        lemma_parsed_value_well_formed(tokens, pos + 2);
                        let member = parse_value_at(tokens, pos + 2)->Ok_0;
                        let longer = first.push((key, member.value));
                        assert(Value::Object(first)->Object_0 == first);
                        assert(forall|i: int|
                            0 <= i < first.len() ==> is_string_content((#[trigger] first[i]).0)
                                && well_formed_value(first[i].1));
                        assert forall|i: int| 0 <= i < longer.len() implies is_string_content(
                            (#[trigger] longer[i]).0,
                        ) && well_formed_value(longer[i].1) by {
                            if i < first.len() {
                                assert(longer[i] == first[i]);
                            }
                        }
                        assert(Value::Object(longer)->Object_0 == longer);
                        assert(well_formed_value(Value::Object(longer)));
                        lemma_parsed_members_well_formed(
                            tokens,
                            after_comma(tokens, member.next),
                            longer,
                            comma_at(tokens, member.next),
                        );
                    },
                    _ => {},
                }
            },
            Err(_) => {},
        }
    }
}

/// An array that is parsed from well-formed tokens is well formed, if the
/// elements that were read before are.
pub proof fn lemma_parsed_elements_well_formed(
    tokens: Seq<TokenView>,
    pos: int,
    first: Seq<Value>,
    comma: bool,
)
    requires
        0 <= pos,
        well_formed_tokens(tokens),
        well_formed_value(Value::Array(first)),
    ensures
        parse_elements(tokens, pos, first, comma) matches Ok(parsed) ==> well_formed_value(
            parsed.value,
        ),
    decreases tokens.len() - pos, 1int,
{
    if pos < tokens.len() && !(tokens[pos] is BracketClose) {
        match parse_elements(tokens, pos, first, comma) {
            Ok(parsed) => {
                lemma_parsed_value_well_formed(tokens, pos);
                let item = parse_value_at(tokens, pos)->Ok_0;
                let longer = first.push(item.value);
                assert(Value::Array(first)->Array_0 == first);
                assert(forall|i: int| 0 <= i < first.len() ==> well_formed_value(#[trigger] first[i]));
                assert forall|i: int| 0 <= i < longer.len() implies well_formed_value(
                    #[trigger] longer[i],
                ) by {
                    if i < first.len() {
                        assert(longer[i] == first[i]);
                    }
                }
                assert(Value::Array(longer)->Array_0 == longer);
                assert(well_formed_value(Value::Array(longer)));
                lemma_parsed_elements_well_formed(
                    tokens,
                    after_comma(tokens, item.next),
                    longer,
                    comma_at(tokens, item.next),
                );
            },
            Err(_) => {},
        }
    }
}

/// Nothing but documents is accepted: a valid text is its tokens written
/// down with layout around them, the tokens are well formed, and unless
/// there is none they start with the notation of a well-formed value. The
/// gaps are returned.
pub proof fn lemma_accepted_text_is_written(text: Seq<char>) -> (gaps: Seq<Seq<char>>)
    requires
        validate(text) is Ok,
    ensures
        lex_all(text, 0) matches Ok(tokens) && {
            &&& well_formed_tokens(tokens)
            &&& are_gaps(gaps, tokens)
            &&& numbers_end(tokens, gaps)
            &&& text == written(tokens, gaps, 0)
            &&& tokens.len() > 0 ==> (parse_value_at(tokens, 0) matches Ok(parsed) && stands_at(
                tokens,
                0,
                value_tokens(parsed.value),
            ) && well_formed_value(parsed.value))
        },
{
    let gaps = lemma_lexed_text_is_written(text, 0);
    let tokens = lex_all(text, 0)->Ok_0;
    assert(text.subrange(0, text.len() as int) =~= text);
    lemma_parsed_value_notation(tokens, 0);
    lemma_parsed_value_well_formed(tokens, 0);
    gaps
}

} // verus!
