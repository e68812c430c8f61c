//! The grammar of JSON over tokens, and what the parser makes of it.
//!
//! [`value_tokens`] writes a value down as tokens: the entries of an object
//! and the elements of an array are separated by one comma each, and no
//! comma stands before the closing brace or bracket. The parser accepts
//! exactly this notation: it reads every value from its notation
//! ([`lemma_parse_value_tokens`]), and whatever it reads as a value is the
//! notation of that value ([`lemma_parsed_value_notation`]).

use crate::parser::{
    after_comma, comma_at, parse_document, parse_elements, parse_members, parse_value_at, Parsed,
    Rejected, Value,
};
use crate::tokenizer::TokenView;
use vstd::prelude::*;

verus! {

/// The tokens that denote the value `v`.
pub open spec fn value_tokens(v: Value) -> Seq<TokenView>
    decreases v, 0int,
{
    match v {
        Value::Object(entries) => seq![TokenView::BraceOpen] + members_tokens(entries, 0)
            + seq![TokenView::BraceClose],
        Value::Array(items) => seq![TokenView::BracketOpen] + elements_tokens(items, 0)
            + seq![TokenView::BracketClose],
        Value::String(s) => seq![TokenView::String(s)],
        Value::Number(n) => seq![TokenView::Number(n)],
        Value::Boolean(b) => seq![
            if b {
                TokenView::True
            } else {
                TokenView::False
            },
        ],
        Value::Null => seq![TokenView::Null],
    }
}

/// The tokens of the entries of an object from the `k`th on: each entry as a
/// key, a colon and a value, and a comma after every entry but the last.
pub open spec fn members_tokens(entries: Seq<(Seq<char>, Value)>, k: int) -> Seq<TokenView>
    decreases entries, entries.len() - k,
{
    if !(0 <= k < entries.len()) {
        Seq::empty()
    } else {
        seq![TokenView::String(entries[k].0), TokenView::Colon] + value_tokens(entries[k].1)
            + separator(k, entries.len() as int) + members_tokens(entries, k + 1)
    }
}

/// The tokens of the elements of an array from the `k`th on, with a comma
/// after every element but the last.
pub open spec fn elements_tokens(items: Seq<Value>, k: int) -> Seq<TokenView>
    decreases items, items.len() - k,
{
    if !(0 <= k < items.len()) {
        Seq::empty()
    } else {
        value_tokens(items[k]) + separator(k, items.len() as int) + elements_tokens(items, k + 1)
    }
}

/// What stands between the `k`th of `n` entries and what follows it: a comma
/// unless the entry is the last.
pub open spec fn separator(k: int, n: int) -> Seq<TokenView> {
    if k + 1 < n {
        seq![TokenView::Comma]
    } else {
        Seq::empty()
    }
}

/// Whether `part` stands in `tokens` at `pos`.
pub open spec fn stands_at(tokens: Seq<TokenView>, pos: int, part: Seq<TokenView>) -> bool {
    &&& 0 <= pos
    &&& pos + part.len() <= tokens.len()
    &&& tokens.subrange(pos, pos + part.len()) == part
}

/// A sequence stands at a position exactly if its tokens stand there one by
/// one.
pub proof fn lemma_stands_at_index(tokens: Seq<TokenView>, pos: int, part: Seq<TokenView>)
    ensures
        stands_at(tokens, pos, part) <==> {
            &&& 0 <= pos
            &&& pos + part.len() <= tokens.len()
            &&& forall|i: int| 0 <= i < part.len() ==> tokens[pos + i] == #[trigger] part[i]
        },
{
    if 0 <= pos && pos + part.len() <= tokens.len() {
        let sub = tokens.subrange(pos, pos + part.len());
        if sub == part {
            assert forall|i: int| 0 <= i < part.len() implies tokens[pos + i] == #[trigger] part[i] by {
                assert(sub[i] == tokens[pos + i]);
            }
        }
        if forall|i: int| 0 <= i < part.len() ==> tokens[pos + i] == #[trigger] part[i] {
            assert(sub =~= part);
        }
    }
}

/// Two sequences stand one after the other exactly if their concatenation
/// stands where the first one does.
pub proof fn lemma_stands_at_concat(
    tokens: Seq<TokenView>,
    pos: int,
    first: Seq<TokenView>,
    second: Seq<TokenView>,
)
    ensures
        stands_at(tokens, pos, first + second) <==> {
            &&& stands_at(tokens, pos, first)
            &&& stands_at(tokens, pos + first.len(), second)
        },
{
    lemma_stands_at_index(tokens, pos, first + second);
    lemma_stands_at_index(tokens, pos, first);
    lemma_stands_at_index(tokens, pos + first.len(), second);
    let whole = first + second;
    if stands_at(tokens, pos, whole) {
        assert forall|i: int| 0 <= i < first.len() implies tokens[pos + i] == #[trigger] first[i] by {
            assert(whole[i] == first[i]);
        }
        assert forall|i: int| 0 <= i < second.len() implies tokens[pos + first.len() + i]
            == #[trigger] second[i] by {
            assert(whole[first.len() + i] == second[i]);
        }
    }
    if stands_at(tokens, pos, first) && stands_at(tokens, pos + first.len(), second) {
        assert forall|i: int| 0 <= i < whole.len() implies tokens[pos + i] == #[trigger] whole[i] by {
            if i < first.len() {
                assert(whole[i] == first[i]);
            } else {
                assert(whole[i] == second[i - first.len()]);
                assert(tokens[pos + first.len() + (i - first.len())] == second[i - first.len()]);
            }
        }
    }
}

/// Whether a value can start with `t`.
pub open spec fn starts_value(t: TokenView) -> bool {
    !(t is BraceClose || t is BracketClose || t is Colon || t is Comma)
}

/// The notation of a value is never empty, and its first token is one with
/// which a value can start.
pub proof fn lemma_value_tokens_start(v: Value)
    ensures
        value_tokens(v).len() > 0,
        starts_value(value_tokens(v)[0]),
{
}

/// The parser is complete on values: wherever the notation of `v` stands,
/// the parser reads `v` and stops right after it.
pub proof fn lemma_parse_value_tokens(tokens: Seq<TokenView>, pos: int, v: Value)
    requires
        stands_at(tokens, pos, value_tokens(v)),
    ensures
        parse_value_at(tokens, pos) == Ok::<Parsed, Rejected>(
            Parsed { value: v, next: pos + value_tokens(v).len() },
        ),
    decreases v, 0int,
{
    lemma_value_tokens_start(v);
    lemma_stands_at_index(tokens, pos, value_tokens(v));
    assert(tokens[pos + 0] == value_tokens(v)[0]);
    match v {
        Value::Object(entries) => {
            let open = seq![TokenView::BraceOpen];
            let inner = members_tokens(entries, 0);
            let close = seq![TokenView::BraceClose];
            lemma_stands_at_concat(tokens, pos, open + inner, close);
            lemma_stands_at_concat(tokens, pos, open, inner);
            let end = pos + 1 + inner.len();
            lemma_stands_at_index(tokens, end, close);
            assert(tokens[end + 0] == close[0]);
            if entries.len() == 0 {
                assert(entries =~= Seq::empty());
            } else {
                assert(entries.take(0) =~= Seq::empty());
                lemma_parse_members_tokens(tokens, pos + 1, entries, 0);
            }
        },
        Value::Array(items) => {
            let open = seq![TokenView::BracketOpen];
            let inner = elements_tokens(items, 0);
            let close = seq![TokenView::BracketClose];
            lemma_stands_at_concat(tokens, pos, open + inner, close);
            lemma_stands_at_concat(tokens, pos, open, inner);
            let end = pos + 1 + inner.len();
            lemma_stands_at_index(tokens, end, close);
            assert(tokens[end + 0] == close[0]);
            if items.len() == 0 {
                assert(items =~= Seq::empty());
            } else {
                assert(items.take(0) =~= Seq::empty());
                lemma_parse_elements_tokens(tokens, pos + 1, items, 0);
            }
        },
        _ => {},
    }
}

/// Where the entries of an object stand, from the `k`th on, the parser reads
/// them all: it goes from the state before the `k`th entry to the state
/// after the last one, in which it looks at what follows the entries.
pub proof fn lemma_parse_members_tokens(
    tokens: Seq<TokenView>,
    pos: int,
    entries: Seq<(Seq<char>, Value)>,
    k: int,
)
    requires
        0 <= k < entries.len(),
        stands_at(tokens, pos, members_tokens(entries, k)),
    ensures
        ({
            let end = pos + members_tokens(entries, k).len();
            parse_members(tokens, pos, entries.take(k), k > 0) == parse_members(
                tokens,
                after_comma(tokens, end),
                entries,
                comma_at(tokens, end),
            )
        }),
    decreases entries, entries.len() - k,
{
    let key = entries[k].0;
    let value = entries[k].1;
    let head = seq![TokenView::String(key), TokenView::Colon];
    let notation = value_tokens(value);
    let comma = separator(k, entries.len() as int);
    let rest = members_tokens(entries, k + 1);
    assert(members_tokens(entries, k) == head + notation + comma + rest);
    lemma_stands_at_concat(tokens, pos, head + notation + comma, rest);
    lemma_stands_at_concat(tokens, pos, head + notation, comma);
    lemma_stands_at_concat(tokens, pos, head, notation);
    lemma_stands_at_index(tokens, pos, head);
    assert(tokens[pos + 0] == head[0]);
    assert(tokens[pos + 1] == head[1]);
    lemma_parse_value_tokens(tokens, pos + 2, value);
    lemma_value_tokens_start(value);
    let next = pos + 2 + notation.len();
    assert(entries.take(k).push((key, value)) =~= entries.take(k + 1));
    if k + 1 < entries.len() {
        lemma_stands_at_index(tokens, next, comma);
        assert(tokens[next + 0] == comma[0]);
        lemma_parse_members_tokens(tokens, next + 1, entries, k + 1);
    } else {
        assert(entries.take(k + 1) =~= entries);
    }
}

/// Where the elements of an array stand, from the `k`th on, the parser reads
/// them all: it goes from the state before the `k`th element to the state
/// after the last one, in which it looks at what follows the elements.
pub proof fn lemma_parse_elements_tokens(tokens: Seq<TokenView>, pos: int, items: Seq<Value>, k: int)
    requires
        0 <= k < items.len(),
        stands_at(tokens, pos, elements_tokens(items, k)),
    ensures
        ({
            let end = pos + elements_tokens(items, k).len();
            parse_elements(tokens, pos, items.take(k), k > 0) == parse_elements(
                tokens,
                after_comma(tokens, end),
                items,
                comma_at(tokens, end),
            )
        }),
    decreases items, items.len() - k,
{
    let value = items[k];
    let notation = value_tokens(value);
    let comma = separator(k, items.len() as int);
    let rest = elements_tokens(items, k + 1);
    assert(elements_tokens(items, k) == notation + comma + rest);
    lemma_stands_at_concat(tokens, pos, notation + comma, rest);
    lemma_stands_at_concat(tokens, pos, notation, comma);
    lemma_value_tokens_start(value);
    lemma_stands_at_index(tokens, pos, notation);
    assert(tokens[pos + 0] == notation[0]);
    lemma_parse_value_tokens(tokens, pos, value);
    let next = pos + notation.len();
    assert(items.take(k).push(value) =~= items.take(k + 1));
    if k + 1 < items.len() {
        lemma_stands_at_index(tokens, next, comma);
        assert(tokens[next + 0] == comma[0]);
        lemma_parse_elements_tokens(tokens, next + 1, items, k + 1);
    } else {
        assert(items.take(k + 1) =~= items);
    }
}

/// The notation of a value parses to that value, whatever tokens follow it,
/// and the parser reads as many tokens as the notation has.
pub proof fn lemma_document_parses(v: Value, rest: Seq<TokenView>)
    ensures
        parse_document(value_tokens(v) + rest, 0) == Ok::<Option<Parsed>, Rejected>(
            Some(Parsed { value: v, next: value_tokens(v).len() as int }),
        ),
{
    let tokens = value_tokens(v) + rest;
    lemma_value_tokens_start(v);
    assert(tokens.subrange(0, value_tokens(v).len() as int) =~= value_tokens(v));
    lemma_parse_value_tokens(tokens, 0, v);
}

/// The parser is sound on values: the tokens that it read for a value are
/// the notation of that value. So the entries of every object and the
/// elements of every array that the parser returns were separated by one
/// comma each, and no comma stood before the closing brace or bracket.
pub proof fn lemma_parsed_value_notation(tokens: Seq<TokenView>, pos: int)
    requires
        0 <= pos,
    ensures
        parse_value_at(tokens, pos) matches Ok(parsed) ==> {
            &&& stands_at(tokens, pos, value_tokens(parsed.value))
            &&& parsed.next == pos + value_tokens(parsed.value).len()
        },
    decreases tokens.len() - pos, 0int,
{
    if pos < tokens.len() {
        match parse_value_at(tokens, pos) {
            Ok(parsed) => {
                let notation = value_tokens(parsed.value);
                match tokens[pos] {
                    TokenView::BraceOpen => {
                        lemma_parsed_members_notation(tokens, pos + 1, Seq::empty(), false);
                        let entries = parsed.value->Object_0;
                        let open = seq![TokenView::BraceOpen];
                        lemma_stands_at_index(tokens, pos, open);
                        lemma_stands_at_concat(
                            tokens,
                            pos,
                            open,
                            members_tokens(entries, 0) + seq![TokenView::BraceClose],
                        );
                        assert(notation =~= open + (members_tokens(entries, 0)
                            + seq![TokenView::BraceClose]));
                    },
                    TokenView::BracketOpen => {
                        lemma_parsed_elements_notation(tokens, pos + 1, Seq::empty(), false);
                        let items = parsed.value->Array_0;
                        let open = seq![TokenView::BracketOpen];
                        lemma_stands_at_index(tokens, pos, open);
                        lemma_stands_at_concat(
                            tokens,
                            pos,
                            open,
                            elements_tokens(items, 0) + seq![TokenView::BracketClose],
                        );
                        assert(notation =~= open + (elements_tokens(items, 0)
                            + seq![TokenView::BracketClose]));
                    },
                    _ => {
                        lemma_stands_at_index(tokens, pos, notation);
                    },
                }
            },
            Err(_) => {},
        }
    }
}

/// The parser is sound on the entries of an object: what it read after the
/// first entries is the notation of the entries that it added, and the
/// closing brace.
pub proof fn lemma_parsed_members_notation(
    tokens: Seq<TokenView>,
    pos: int,
    first: Seq<(Seq<char>, Value)>,
    comma: bool,
)
    requires
        0 <= pos,
    ensures
        parse_members(tokens, pos, first, comma) matches Ok(parsed) ==> {
            &&& parsed.value matches Value::Object(entries)
            &&& first.len() <= entries.len()
            &&& entries.take(first.len() as int) == first
            &&& comma ==> first.len() < entries.len()
            &&& !comma && first.len() > 0 ==> first.len() == entries.len()
            &&& stands_at(
                tokens,
                pos,
                members_tokens(entries, first.len() as int) + seq![TokenView::BraceClose],
            )
            &&& parsed.next == pos + members_tokens(entries, first.len() as int).len() + 1
        },
    decreases tokens.len() - pos, 1int,
{
    if pos < tokens.len() {
        match parse_members(tokens, pos, first, comma) {
            Ok(parsed) => {
                let k = first.len() as int;
                let close = seq![TokenView::BraceClose];
                match tokens[pos] {
                    TokenView::BraceClose => {
                        assert(first.take(k) =~= first);
                        assert(members_tokens(first, k) + close =~= close);
                        lemma_stands_at_index(tokens, pos, close);
                    },
                    TokenView::String(key) => {
                        lemma_parsed_value_notation(tokens, pos + 2);
                        let member = parse_value_at(tokens, pos + 2)->Ok_0;
                        let longer = first.push((key, member.value));
                        let at = after_comma(tokens, member.next);
                        lemma_parsed_members_notation(tokens, at, longer, comma_at(tokens, member.next));
                        let entries = parsed.value->Object_0;
                        assert(entries.take(k + 1)[k] == longer[k]);
                        assert(entries.take(k) =~= first) by {
                            assert forall|i: int| 0 <= i < k implies entries.take(k)[i] == first[i] by {
                                assert(entries.take(k + 1)[i] == longer[i]);
                            }
                        }
                        let head = seq![TokenView::String(key), TokenView::Colon];
                        let notation = value_tokens(member.value);
                        let sep = separator(k, entries.len() as int);
                        let rest = members_tokens(entries, k + 1) + close;
                        assert(members_tokens(entries, k) + close =~= head + notation + sep + rest);
                        lemma_stands_at_index(tokens, pos, head);
                        lemma_stands_at_index(tokens, member.next, sep);
                        lemma_stands_at_concat(tokens, pos, head, notation);
                        lemma_stands_at_concat(tokens, pos, head + notation, sep);
                        lemma_stands_at_concat(tokens, pos, head + notation + sep, rest);
                    },
                    _ => {},
                }
            },
            Err(_) => {},
        }
    }
}

/// The parser is sound on the elements of an array: what it read after the
/// first elements is the notation of the elements that it added, and the
/// closing bracket.
pub proof fn lemma_parsed_elements_notation(
    tokens: Seq<TokenView>,
    pos: int,
    first: Seq<Value>,
    comma: bool,
)
    requires
        0 <= pos,
    ensures
        parse_elements(tokens, pos, first, comma) matches Ok(parsed) ==> {
            &&& parsed.value matches Value::Array(items)
            &&& first.len() <= items.len()
            &&& items.take(first.len() as int) == first
            &&& comma ==> first.len() < items.len()
            &&& !comma && first.len() > 0 ==> first.len() == items.len()
            &&& stands_at(
                tokens,
                pos,
                elements_tokens(items, first.len() as int) + seq![TokenView::BracketClose],
            )
            &&& parsed.next == pos + elements_tokens(items, first.len() as int).len() + 1
        },
    decreases tokens.len() - pos, 1int,
{
    if pos < tokens.len() {
        match parse_elements(tokens, pos, first, comma) {
            Ok(parsed) => {
                let k = first.len() as int;
                let close = seq![TokenView::BracketClose];
                if tokens[pos] is BracketClose {
                    assert(first.take(k) =~= first);
                    assert(elements_tokens(first, k) + close =~= close);
                    lemma_stands_at_index(tokens, pos, close);
                } else {
                    lemma_parsed_value_notation(tokens, pos);
                    let item = parse_value_at(tokens, pos)->Ok_0;
                    let longer = first.push(item.value);
                    let at = after_comma(tokens, item.next);
                    lemma_parsed_elements_notation(tokens, at, longer, comma_at(tokens, item.next));
                    let items = parsed.value->Array_0;
                    assert(items.take(k + 1)[k] == longer[k]);
                    assert(items.take(k) =~= first) by {
                        assert forall|i: int| 0 <= i < k implies items.take(k)[i] == first[i] by {
                            assert(items.take(k + 1)[i] == longer[i]);
                        }
                    }
                    let notation = value_tokens(item.value);
                    let sep = separator(k, items.len() as int);
                    let rest = elements_tokens(items, k + 1) + close;
                    assert(elements_tokens(items, k) + close =~= notation + sep + rest);
                    lemma_stands_at_index(tokens, item.next, sep);
                    lemma_stands_at_concat(tokens, pos, notation, sep);
                    lemma_stands_at_concat(tokens, pos, notation + sep, rest);
                }
            },
            Err(_) => {},
        }
    }
}

} // verus!
