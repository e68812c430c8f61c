//! Documents with a defect, and the error that the parser reports on each.
//!
//! A [`Fault`] is a value that is written correctly up to one place, at
//! which a comma stands before a closing brace or bracket, or is missing
//! between two entries. The place may lie at any depth: the containers
//! around it are written correctly up to the value that holds the defect.

use crate::grammar::{
    elements_tokens, lemma_parse_elements_tokens, lemma_parse_members_tokens, lemma_stands_at_concat,
    lemma_stands_at_index, members_tokens, stands_at, starts_value,
};
use crate::parser::{parse_document, parse_value_at, ParseErrorKind, Value};
use crate::tokenizer::TokenView;
use vstd::prelude::*;

verus! {

/// A value with one defect.
pub enum Fault {
    /// An object whose last entry is followed by a comma: `{ e1, ..., en, }`.
    CommaBeforeBrace { entries: Seq<(Seq<char>, Value)> },
    /// An array whose last element is followed by a comma: `[ v1, ..., vn, ]`.
    CommaBeforeBracket { items: Seq<Value> },
    /// An object in which a key follows an entry directly:
    /// `{ e1, ..., en "key"`.
    KeyAfterEntry { entries: Seq<(Seq<char>, Value)>, key: Seq<char> },
    /// An array in which `next` follows an element directly, where `next` is
    /// neither a comma nor the closing bracket: `[ v1, ..., vn next`.
    TokenAfterElement { items: Seq<Value>, next: TokenView },
    /// An object whose entry after `entries` holds the defect:
    /// `{ e1, ..., en, "key": inner`.
    InEntry { entries: Seq<(Seq<char>, Value)>, key: Seq<char>, inner: Box<Fault> },
    /// An array whose element after `items` holds the defect:
    /// `[ v1, ..., vn, inner`.
    InElement { items: Seq<Value>, inner: Box<Fault> },
}

/// The comma that separates the entries written so far from the next one.
pub open spec fn comma_after(n: nat) -> Seq<TokenView> {
    if n > 0 {
        seq![TokenView::Comma]
    } else {
        Seq::empty()
    }
}

impl Fault {
    /// Whether the defect follows at least one entry where it needs one.
    pub open spec fn well_formed(self) -> bool
        decreases self,
    {
        match self {
            Fault::CommaBeforeBrace { entries } => entries.len() > 0,
            Fault::CommaBeforeBracket { items } => items.len() > 0,
            Fault::KeyAfterEntry { entries, key } => entries.len() > 0,
            Fault::TokenAfterElement { items, next } => items.len() > 0 && !(next is Comma) && !(next
                is BracketClose),
            Fault::InEntry { entries, key, inner } => inner.well_formed(),
            Fault::InElement { items, inner } => inner.well_formed(),
        }
    }

    /// The tokens of the document up to its defect.
    pub open spec fn tokens(self) -> Seq<TokenView>
        decreases self,
    {
        match self {
            Fault::CommaBeforeBrace { entries } => seq![TokenView::BraceOpen] + members_tokens(
                entries,
                0,
            ) + seq![TokenView::Comma, TokenView::BraceClose],
            Fault::CommaBeforeBracket { items } => seq![TokenView::BracketOpen] + elements_tokens(
                items,
                0,
            ) + seq![TokenView::Comma, TokenView::BracketClose],
            Fault::KeyAfterEntry { entries, key } => seq![TokenView::BraceOpen] + members_tokens(
                entries,
                0,
            ) + seq![TokenView::String(key)],
            Fault::TokenAfterElement { items, next } => seq![TokenView::BracketOpen]
                + elements_tokens(items, 0) + seq![next],
            Fault::InEntry { entries, key, inner } => seq![TokenView::BraceOpen] + members_tokens(
                entries,
                0,
            ) + comma_after(entries.len()) + seq![TokenView::String(key), TokenView::Colon]
                + inner.tokens(),
            Fault::InElement { items, inner } => seq![TokenView::BracketOpen] + elements_tokens(
                items,
                0,
            ) + comma_after(items.len()) + inner.tokens(),
        }
    }

    /// The error that the defect causes.
    pub open spec fn kind(self) -> ParseErrorKind
        decreases self,
    {
        match self {
            Fault::CommaBeforeBrace { entries } => ParseErrorKind::TrailingCommaInObject,
            Fault::CommaBeforeBracket { items } => ParseErrorKind::TrailingCommaInArray,
            Fault::KeyAfterEntry { entries, key } => ParseErrorKind::MissingComma,
            Fault::TokenAfterElement { items, next } => ParseErrorKind::MissingComma,
            Fault::InEntry { entries, key, inner } => inner.kind(),
            Fault::InElement { items, inner } => inner.kind(),
        }
    }
}

/// A document with a defect starts like a value.
pub proof fn lemma_fault_tokens_start(fault: Fault)
    ensures
        fault.tokens().len() > 0,
        starts_value(fault.tokens()[0]),
{
}

/// Wherever a document with a defect stands, the parser fails with the
/// error of that defect: a comma before a closing brace or bracket is
/// reported as such, and so is a missing comma, at any depth.
pub proof fn lemma_fault_is_reported(tokens: Seq<TokenView>, pos: int, fault: Fault)
    requires
        fault.well_formed(),
        stands_at(tokens, pos, fault.tokens()),
    ensures
        parse_value_at(tokens, pos) matches Err(rejected) && rejected.kind == fault.kind(),
    decreases fault,
{
    lemma_fault_tokens_start(fault);
    lemma_stands_at_index(tokens, pos, fault.tokens());
    assert(tokens[pos + 0] == fault.tokens()[0]);
    match fault {
        Fault::CommaBeforeBrace { entries } => {
            let open = seq![TokenView::BraceOpen];
            let inner = members_tokens(entries, 0);
            let last = seq![TokenView::Comma, TokenView::BraceClose];
            lemma_stands_at_concat(tokens, pos, open + inner, last);
            lemma_stands_at_concat(tokens, pos, open, inner);
            let end = pos + 1 + inner.len();
            lemma_stands_at_index(tokens, end, last);
            assert(tokens[end + 0] == last[0]);
            assert(tokens[end + 1] == last[1]);
            assert(entries.take(0) =~= Seq::empty());
            lemma_parse_members_tokens(tokens, pos + 1, entries, 0);
        },
        Fault::CommaBeforeBracket { items } => {
            let open = seq![TokenView::BracketOpen];
            let inner = elements_tokens(items, 0);
            let last = seq![TokenView::Comma, TokenView::BracketClose];
            lemma_stands_at_concat(tokens, pos, open + inner, last);
            lemma_stands_at_concat(tokens, pos, open, inner);
            let end = pos + 1 + inner.len();
            lemma_stands_at_index(tokens, end, last);
            assert(tokens[end + 0] == last[0]);
            assert(tokens[end + 1] == last[1]);
            assert(items.take(0) =~= Seq::empty());
            lemma_parse_elements_tokens(tokens, pos + 1, items, 0);
        },
        Fault::KeyAfterEntry { entries, key } => {
            let open = seq![TokenView::BraceOpen];
            let inner = members_tokens(entries, 0);
            let last = seq![TokenView::String(key)];
            lemma_stands_at_concat(tokens, pos, open + inner, last);
            lemma_stands_at_concat(tokens, pos, open, inner);
            let end = pos + 1 + inner.len();
            lemma_stands_at_index(tokens, end, last);
            assert(tokens[end + 0] == last[0]);
            assert(entries.take(0) =~= Seq::empty());
            lemma_parse_members_tokens(tokens, pos + 1, entries, 0);
        },
        Fault::TokenAfterElement { items, next } => {
            let open = seq![TokenView::BracketOpen];
            let inner = elements_tokens(items, 0);
            let last = seq![next];
            lemma_stands_at_concat(tokens, pos, open + inner, last);
            lemma_stands_at_concat(tokens, pos, open, inner);
            let end = pos + 1 + inner.len();
            lemma_stands_at_index(tokens, end, last);
            assert(tokens[end + 0] == last[0]);
            assert(items.take(0) =~= Seq::empty());
            lemma_parse_elements_tokens(tokens, pos + 1, items, 0);
        },
        Fault::InEntry { entries, key, inner } => {
            let open = seq![TokenView::BraceOpen];
            let before = members_tokens(entries, 0);
            let comma = comma_after(entries.len());
            let head = seq![TokenView::String(key), TokenView::Colon];
            let rest = inner.tokens();
            lemma_stands_at_concat(tokens, pos, open + before + comma + head, rest);
            lemma_stands_at_concat(tokens, pos, open + before + comma, head);
            lemma_stands_at_concat(tokens, pos, open + before, comma);
            lemma_stands_at_concat(tokens, pos, open, before);
            let end = pos + 1 + before.len();
            let at = end + comma.len();
            lemma_stands_at_index(tokens, end, comma);
            lemma_stands_at_index(tokens, at, head);
            assert(tokens[at + 0] == head[0]);
            assert(tokens[at + 1] == head[1]);
            lemma_fault_is_reported(tokens, at + 2, *inner);
            if entries.len() > 0 {
                assert(tokens[end + 0] == comma[0]);
                assert(entries.take(0) =~= Seq::empty());
                lemma_parse_members_tokens(tokens, pos + 1, entries, 0);
            } else {
                assert(entries =~= Seq::empty());
            }
        },
        Fault::InElement { items, inner } => {
            let open = seq![TokenView::BracketOpen];
            let before = elements_tokens(items, 0);
            let comma = comma_after(items.len());
            let rest = inner.tokens();
            lemma_stands_at_concat(tokens, pos, open + before + comma, rest);
            lemma_stands_at_concat(tokens, pos, open + before, comma);
            lemma_stands_at_concat(tokens, pos, open, before);
            let end = pos + 1 + before.len();
            let at = end + comma.len();
            lemma_stands_at_index(tokens, end, comma);
            lemma_fault_tokens_start(*inner);
            lemma_stands_at_index(tokens, at, rest);
            assert(tokens[at + 0] == rest[0]);
            lemma_fault_is_reported(tokens, at, *inner);
            if items.len() > 0 {
                assert(tokens[end + 0] == comma[0]);
                assert(items.take(0) =~= Seq::empty());
                lemma_parse_elements_tokens(tokens, pos + 1, items, 0);
            } else {
                assert(items =~= Seq::empty());
            }
        },
    }
}

/// A sequence of tokens that starts with a document with a defect is
/// rejected with the error of that defect.
pub proof fn lemma_faulty_document_is_rejected(fault: Fault, rest: Seq<TokenView>)
    requires
        fault.well_formed(),
    ensures
        parse_document(fault.tokens() + rest, 0) matches Err(rejected) && rejected.kind
            == fault.kind(),
{
    let tokens = fault.tokens() + rest;
    lemma_fault_tokens_start(fault);
    assert(tokens.subrange(0, fault.tokens().len() as int) =~= fault.tokens());
    lemma_fault_is_reported(tokens, 0, fault);
}

} // verus!
