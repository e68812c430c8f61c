//! The parser: from a sequence of tokens to a syntax tree.
//!
//! The parser reads the tokens once, through a cursor with one token of
//! lookahead. What it returns is given by three spec functions, one for each
//! construct: [`parse_value_at`], [`parse_members`] and [`parse_elements`].
//! The executable functions are proved against them.

use crate::tokenizer::{token_views, Token, TokenView};
use vstd::prelude::*;
use vstd::string::StringExecFns;

verus! {

/// One parsed JSON value. Strings, keys and numbers are borrowed from the
/// tokens; a number is kept as its lexeme.
#[derive(Debug, PartialEq, Eq)]
pub enum ASTNode<'a> {
    Object(Vec<(&'a str, ASTNode<'a>)>),
    Array(Vec<ASTNode<'a>>),
    String(&'a str),
    Number(&'a str),
    Boolean(bool),
    Null,
}

/// The mathematical value of an [`ASTNode`]. The entries of an object keep
/// the order in which they were written, and a key may occur more than once.
pub enum Value {
    Object(Seq<(Seq<char>, Value)>),
    Array(Seq<Value>),
    String(Seq<char>),
    Number(Seq<char>),
    Boolean(bool),
    Null,
}

impl<'a> ASTNode<'a> {
    /// The value that this node stands for.
    pub open spec fn value(&self) -> Value
        decreases self,
    {
        match self {
            ASTNode::Object(entries) => Value::Object(
                Seq::new(
                    entries@.len(),
                    |i: int|
                        if 0 <= i < entries@.len() {
                            (entries@[i].0@, entries@[i].1.value())
                        } else {
                            (Seq::empty(), Value::Null)
                        },
                ),
            ),
            ASTNode::Array(items) => Value::Array(
                Seq::new(
                    items@.len(),
                    |i: int|
                        if 0 <= i < items@.len() {
                            items@[i].value()
                        } else {
                            Value::Null
                        },
                ),
            ),
            ASTNode::String(s) => Value::String(s@),
            ASTNode::Number(n) => Value::Number(n@),
            ASTNode::Boolean(b) => Value::Boolean(*b),
            ASTNode::Null => Value::Null,
        }
    }
}

impl<'a> View for ASTNode<'a> {
    type V = Value;

    open spec fn view(&self) -> Value {
        self.value()
    }
}

/// The values of the entries of an object under construction.
pub open spec fn member_views<'a>(entries: Seq<(&'a str, ASTNode<'a>)>) -> Seq<(Seq<char>, Value)> {
    Seq::new(entries.len(), |i: int| (entries[i].0@, entries[i].1@))
}

/// The values of the elements of an array under construction.
pub open spec fn element_views<'a>(items: Seq<ASTNode<'a>>) -> Seq<Value> {
    Seq::new(items.len(), |i: int| items[i]@)
}

/// The reasons for which a sequence of tokens is rejected.
#[derive(Debug, Clone, Copy, PartialEq, Eq)]
pub enum ParseErrorKind {
    /// The tokens end where a value, a key, a colon or a closing bracket is
    /// still due.
    UnexpectedEndOfInput,
    /// A token that starts no value stands where a value is due.
    UnexpectedToken,
    /// A token that is no string stands where an object key is due.
    UnexpectedObjectKey,
    /// An object key is followed by a token that is no colon.
    ExpectedColon,
    /// An entry follows another without a comma between them.
    MissingComma,
    /// A comma stands directly before the closing brace of an object.
    TrailingCommaInObject,
    /// A comma stands directly before the closing bracket of an array.
    TrailingCommaInArray,
}

impl ParseErrorKind {
    /// The message that describes this kind of error.
    pub open spec fn message(self) -> Seq<char> {
        match self {
            ParseErrorKind::UnexpectedEndOfInput => "Unexpected end of input"@,
            ParseErrorKind::UnexpectedToken => "Unexpected token"@,
            ParseErrorKind::UnexpectedObjectKey => "Unexpected object key"@,
            ParseErrorKind::ExpectedColon => "Expected colon after string key"@,
            ParseErrorKind::MissingComma => "Missing comma"@,
            ParseErrorKind::TrailingCommaInObject => "Unexpected comma before end of object"@,
            ParseErrorKind::TrailingCommaInArray => "Unexpected comma before end of array"@,
        }
    }

    /// The error of this kind.
    pub fn error(self) -> (e: ParseError)
        ensures
            e.msg@ == self.message(),
    {
        let msg = match self {
            ParseErrorKind::UnexpectedEndOfInput => "Unexpected end of input",
            ParseErrorKind::UnexpectedToken => "Unexpected token",
            ParseErrorKind::UnexpectedObjectKey => "Unexpected object key",
            ParseErrorKind::ExpectedColon => "Expected colon after string key",
            ParseErrorKind::MissingComma => "Missing comma",
            ParseErrorKind::TrailingCommaInObject => "Unexpected comma before end of object",
            ParseErrorKind::TrailingCommaInArray => "Unexpected comma before end of array",
        };
        ParseError::new(String::from_str(msg))
    }
}

/// The message tells the kind of error: no two kinds share a message.
pub proof fn lemma_message_tells_kind(one: ParseErrorKind, other: ParseErrorKind)
    requires
        one.message() == other.message(),
    ensures
        one == other,
{
    reveal_strlit("Unexpected end of input");
    reveal_strlit("Unexpected token");
    reveal_strlit("Unexpected object key");
    reveal_strlit("Expected colon after string key");
    reveal_strlit("Missing comma");
    reveal_strlit("Unexpected comma before end of object");
    reveal_strlit("Unexpected comma before end of array");
    assert("Unexpected end of input"@.len() == 23);
    assert("Unexpected token"@.len() == 16);
    assert("Unexpected object key"@.len() == 21);
    assert("Expected colon after string key"@.len() == 31);
    assert("Missing comma"@.len() == 13);
    assert("Unexpected comma before end of object"@.len() == 37);
    assert("Unexpected comma before end of array"@.len() == 36);
    assert(one.message().len() == other.message().len());
}

/// A structural failure, with a message that describes it.
#[derive(Debug, Clone, PartialEq, Eq)]
pub struct ParseError {
    pub msg: String,
}

impl ParseError {
    /// The error with the message `msg`.
    pub fn new(msg: String) -> (e: ParseError)
        ensures
            e.msg == msg,
    {
        ParseError { msg }
    }

    /// The text under which the error is reported.
    pub open spec fn description(&self) -> Seq<char> {
        "Invalid JSON: "@ + self.msg@
    }

    /// Renders the error for a reader.
    pub fn to_string(&self) -> (s: String)
        ensures
            s@ == self.description(),
    {
        String::from_str("Invalid JSON: ").concat(self.msg.as_str())
    }
}

/// A cursor over a sequence of tokens that can look at the next token
/// without reading it.
pub struct TokenCursor<'a> {
    tokens: &'a [Token],
    pos: usize,
}

impl<'a> TokenCursor<'a> {
    /// The values of all the tokens, read or not.
    pub closed spec fn tokens(&self) -> Seq<TokenView> {
        token_views(self.tokens@)
    }

    /// The number of tokens that were read.
    pub closed spec fn position(&self) -> int {
        self.pos as int
    }

    /// The number of tokens that are left to read.
    pub open spec fn remaining(&self) -> int {
        self.tokens().len() - self.position()
    }

    #[verifier::type_invariant]
    spec fn in_bounds(&self) -> bool {
        self.pos <= self.tokens@.len()
    }

    /// A cursor before the first of `tokens`.
    pub fn new(tokens: &'a [Token]) -> (cursor: TokenCursor<'a>)
        ensures
            cursor.tokens() == token_views(tokens@),
            cursor.position() == 0,
    {
        TokenCursor { tokens, pos: 0 }
    }

    /// The number of tokens that are left to read.
    pub fn len(&self) -> (n: usize)
        ensures
            n == self.remaining(),
            0 <= self.position() <= self.tokens().len(),
    {
        proof {
            use_type_invariant(self);
        }
        self.tokens.len() - self.pos
    }

    /// The next token, which stays unread.
    pub fn peek(&self) -> (token: Option<&'a Token>)
        ensures
            0 <= self.position() <= self.tokens().len(),
            self.remaining() > 0 ==> (token matches Some(t) && t@ == self.tokens()[self.position()]),
            self.remaining() <= 0 ==> token is None,
    {
        proof {
            use_type_invariant(self);
        }
        if self.pos < self.tokens.len() {
            Some(&self.tokens[self.pos])
        } else {
            None
        }
    }

    /// Reads the next token.
    pub fn next(&mut self) -> (token: Option<&'a Token>)
        ensures
            final(self).tokens() == old(self).tokens(),
            0 <= old(self).position() <= old(self).tokens().len(),
            old(self).remaining() > 0 ==> final(self).position() == old(self).position() + 1 && (
            token matches Some(t) && t@ == old(self).tokens()[old(self).position()]),
            old(self).remaining() <= 0 ==> final(self).position() == old(self).position()
                && token is None,
    {
        proof {
            use_type_invariant(&*self);
        }
        if self.pos < self.tokens.len() {
            let token = &self.tokens[self.pos];
            self.pos = self.pos + 1;
            Some(token)
        } else {
            None
        }
    }
}

/// A value that was parsed, and the position of the first token after it.
pub struct Parsed {
    pub value: Value,
    pub next: int,
}

/// An error on which the parser stopped, and the position of the first token
/// that it did not read.
pub struct Rejected {
    pub kind: ParseErrorKind,
    pub at: int,
}

/// What the parser makes of the tokens from a position on.
pub type Outcome = Result<Parsed, Rejected>;

/// The outcome of stopping on an error of `kind` with the cursor at `at`.
pub open spec fn rejected(kind: ParseErrorKind, at: int) -> Outcome {
    Err(Rejected { kind, at })
}

/// Whether the comma that may follow a value stands at `next`.
pub open spec fn comma_at(tokens: Seq<TokenView>, next: int) -> bool {
    0 <= next < tokens.len() && tokens[next] is Comma
}

/// Where a list goes on after one of its values: behind the comma at `next`
/// if there is one, else at `next`.
pub open spec fn after_comma(tokens: Seq<TokenView>, next: int) -> int {
    if comma_at(tokens, next) {
        next + 1
    } else {
        next
    }
}

/// The value that starts at `pos`. One token decides what it is: a string, a
/// number or a literal is a value by itself, an opening brace starts an
/// object and an opening bracket an array. The token is read in any case.
pub open spec fn parse_value_at(tokens: Seq<TokenView>, pos: int) -> Outcome
    decreases tokens.len() - pos, 0int,
{
    if !(0 <= pos < tokens.len()) {
        rejected(ParseErrorKind::UnexpectedEndOfInput, pos)
    } else {
        match tokens[pos] {
            TokenView::String(s) => Ok(Parsed { value: Value::String(s), next: pos + 1 }),
            TokenView::Number(n) => Ok(Parsed { value: Value::Number(n), next: pos + 1 }),
            TokenView::True => Ok(Parsed { value: Value::Boolean(true), next: pos + 1 }),
            TokenView::False => Ok(Parsed { value: Value::Boolean(false), next: pos + 1 }),
            TokenView::Null => Ok(Parsed { value: Value::Null, next: pos + 1 }),
            TokenView::BraceOpen => parse_members(tokens, pos + 1, Seq::empty(), false),
            TokenView::BracketOpen => parse_elements(tokens, pos + 1, Seq::empty(), false),
            _ => rejected(ParseErrorKind::UnexpectedToken, pos + 1),
        }
    }
}

/// The object whose opening brace and first `entries` were read, when the
/// next token stands at `pos` and `comma` tells whether a comma was read
/// just before it.
///
/// A closing brace ends the object, unless it follows a comma. A string is
/// the key of the next entry: it must be the first entry or follow a comma,
/// and a colon and a value must follow it. Anything else is no key. Where
/// the tokens end before the object does, at whatever point, that is the
/// error. The token at `pos` is read in any case, and so is the token after
/// a key.
///
/// A value spans at least one token (`lemma_parse_advances`), so the test
/// on `member.next` never fails: it is there for the recursion to be
/// well-founded.
pub open spec fn parse_members(
    tokens: Seq<TokenView>,
    pos: int,
    entries: Seq<(Seq<char>, Value)>,
    comma: bool,
) -> Outcome
    decreases tokens.len() - pos, 1int,
{
    if !(0 <= pos < tokens.len()) {
        rejected(ParseErrorKind::UnexpectedEndOfInput, pos)
    } else {
        match tokens[pos] {
            TokenView::BraceClose => if comma {
                rejected(ParseErrorKind::TrailingCommaInObject, pos + 1)
            } else {
                Ok(Parsed { value: Value::Object(entries), next: pos + 1 })
            },
            TokenView::String(key) => if entries.len() > 0 && !comma {
                rejected(ParseErrorKind::MissingComma, pos + 1)
            } else if !(pos + 1 < tokens.len()) {
                rejected(ParseErrorKind::UnexpectedEndOfInput, pos + 1)
            } else if !(tokens[pos + 1] is Colon) {
                rejected(ParseErrorKind::ExpectedColon, pos + 2)
            } else {
                match parse_value_at(tokens, pos + 2) {
                    Err(inner) => Err(inner),
                    Ok(member) => if pos < member.next <= tokens.len() {
                        parse_members(
                            tokens,
                            after_comma(tokens, member.next),
                            entries.push((key, member.value)),
                            comma_at(tokens, member.next),
                        )
                    } else {
                        rejected(ParseErrorKind::UnexpectedEndOfInput, pos)
                    },
                }
            },
            _ => rejected(ParseErrorKind::UnexpectedObjectKey, pos + 1),
        }
    }
}

/// The array whose opening bracket and first `items` were read, when the
/// next token stands at `pos` and `comma` tells whether a comma was read
/// just before it.
///
/// A closing bracket ends the array, unless it follows a comma. Anything
/// else starts the next element, which must be the first or follow a comma.
/// The token at `pos` is only looked at: it is read with the element that
/// it starts, or as the closing bracket of the array.
///
/// As in `parse_members`, the test on `item.next` never fails.
pub open spec fn parse_elements(
    tokens: Seq<TokenView>,
    pos: int,
    items: Seq<Value>,
    comma: bool,
) -> Outcome
    decreases tokens.len() - pos, 1int,
{
    if !(0 <= pos < tokens.len()) {
        rejected(ParseErrorKind::UnexpectedEndOfInput, pos)
    } else if tokens[pos] is BracketClose {
        if comma {
            rejected(ParseErrorKind::TrailingCommaInArray, pos)
        } else {
            Ok(Parsed { value: Value::Array(items), next: pos + 1 })
        }
    } else if items.len() > 0 && !comma {
        rejected(ParseErrorKind::MissingComma, pos)
    } else {
        match parse_value_at(tokens, pos) {
            Err(inner) => Err(inner),
            Ok(item) => if pos < item.next <= tokens.len() {
                parse_elements(
                    tokens,
                    after_comma(tokens, item.next),
                    items.push(item.value),
                    comma_at(tokens, item.next),
                )
            } else {
                rejected(ParseErrorKind::UnexpectedEndOfInput, pos)
            },
        }
    }
}

/// What `parse` makes of the tokens from `pos` on: nothing if none is left,
/// else the value that starts there. Tokens after that value are not read.
pub open spec fn parse_document(tokens: Seq<TokenView>, pos: int) -> Result<Option<Parsed>, Rejected> {
    if pos >= tokens.len() {
        Ok(None)
    } else {
        match parse_value_at(tokens, pos) {
            Ok(parsed) => Ok(Some(parsed)),
            Err(inner) => Err(inner),
        }
    }
}

/// A value that is parsed ends after the position at which it starts, and
/// within the tokens.
pub proof fn lemma_parse_advances(tokens: Seq<TokenView>, pos: int)
    requires
        0 <= pos,
    ensures
        parse_value_at(tokens, pos) matches Ok(parsed) ==> pos < parsed.next <= tokens.len(),
    decreases tokens.len() - pos, 0int,
{
    if pos < tokens.len() {
        match tokens[pos] {
            TokenView::BraceOpen => lemma_members_advance(tokens, pos + 1, Seq::empty(), false),
            TokenView::BracketOpen => lemma_elements_advance(tokens, pos + 1, Seq::empty(), false),
            _ => {},
        }
    }
}

/// An object that is parsed ends after the position from which it is read.
pub proof fn lemma_members_advance(
    tokens: Seq<TokenView>,
    pos: int,
    entries: Seq<(Seq<char>, Value)>,
    comma: bool,
)
    requires
        0 <= pos,
    ensures
        parse_members(tokens, pos, entries, comma) matches Ok(parsed) ==> pos < parsed.next
            <= tokens.len(),
    decreases tokens.len() - pos, 1int,
{
    if pos < tokens.len() {
        match tokens[pos] {
            TokenView::String(key) => {
                if !(entries.len() > 0 && !comma) && pos + 1 < tokens.len() && tokens[pos + 1] is Colon {
                    lemma_parse_advances(tokens, pos + 2);
                    match parse_value_at(tokens, pos + 2) {
                        Ok(member) => {
                            lemma_members_advance(
                                tokens,
                                after_comma(tokens, member.next),
                                entries.push((key, member.value)),
                                comma_at(tokens, member.next),
                            );
                        },
                        Err(_) => {},
                    }
                }
            },
            _ => {},
        }
    }
}

/// An array that is parsed ends after the position from which it is read.
pub proof fn lemma_elements_advance(tokens: Seq<TokenView>, pos: int, items: Seq<Value>, comma: bool)
    requires
        0 <= pos,
    ensures
        parse_elements(tokens, pos, items, comma) matches Ok(parsed) ==> pos < parsed.next
            <= tokens.len(),
    decreases tokens.len() - pos, 1int,
{
    if pos < tokens.len() && !(tokens[pos] is BracketClose) && !(items.len() > 0 && !comma) {
        lemma_parse_advances(tokens, pos);
        match parse_value_at(tokens, pos) {
            Ok(item) => {
                lemma_elements_advance(
                    tokens,
                    after_comma(tokens, item.next),
                    items.push(item.value),
                    comma_at(tokens, item.next),
                );
            },
            Err(_) => {},
        }
    }
}

/// Whether a parsing function that left the cursor at `stop` returned what
/// `expected` asks for: the node with that value and the cursor behind it,
/// or the error with the message of that kind and the cursor where the
/// parser stopped.
pub open spec fn yields<'a>(r: Result<ASTNode<'a>, ParseError>, stop: int, expected: Outcome) -> bool {
    match expected {
        Ok(parsed) => r matches Ok(node) && node@ == parsed.value && stop == parsed.next,
        Err(inner) => r matches Err(e) && e.msg@ == inner.kind.message() && stop == inner.at,
    }
}

/// Reads the comma that may follow a value of a list, and tells whether
/// there was one.
fn read_comma<'a>(tokens: &mut TokenCursor<'a>) -> (comma: bool)
    ensures
        final(tokens).tokens() == old(tokens).tokens(),
        0 <= old(tokens).position() <= old(tokens).tokens().len(),
        comma == comma_at(old(tokens).tokens(), old(tokens).position()),
        final(tokens).position() == after_comma(old(tokens).tokens(), old(tokens).position()),
{
    match tokens.peek() {
        Some(Token::Comma) => {
            tokens.next();
            true
        },
        _ => false,
    }
}

/// Parses the value that starts at the cursor.
pub fn parse_value<'a>(tokens: &mut TokenCursor<'a>) -> (r: Result<ASTNode<'a>, ParseError>)
    ensures
        final(tokens).tokens() == old(tokens).tokens(),
        old(tokens).position() <= final(tokens).position() <= old(tokens).tokens().len(),
        yields(
            r,
            final(tokens).position(),
            parse_value_at(old(tokens).tokens(), old(tokens).position()),
        ),
    decreases old(tokens).remaining(), 0int,
{
    match tokens.next() {
        None => Err(ParseErrorKind::UnexpectedEndOfInput.error()),
        Some(token) => match token {
            Token::String(s) => Ok(ASTNode::String(s.as_str())),
            Token::Number(n) => Ok(ASTNode::Number(n.as_str())),
            Token::True => Ok(ASTNode::Boolean(true)),
            Token::False => Ok(ASTNode::Boolean(false)),
            Token::Null => Ok(ASTNode::Null),
            Token::BraceOpen => parse_object(tokens),
            Token::BracketOpen => parse_array(tokens),
            _ => Err(ParseErrorKind::UnexpectedToken.error()),
        },
    }
}

/// Parses an object whose opening brace was just read.
pub fn parse_object<'a>(tokens: &mut TokenCursor<'a>) -> (r: Result<ASTNode<'a>, ParseError>)
    ensures
        final(tokens).tokens() == old(tokens).tokens(),
        old(tokens).position() <= final(tokens).position() <= old(tokens).tokens().len(),
        yields(
            r,
            final(tokens).position(),
            parse_members(old(tokens).tokens(), old(tokens).position(), Seq::empty(), false),
        ),
    decreases old(tokens).remaining(), 1int,
{
    let mut entries: Vec<(&'a str, ASTNode<'a>)> = Vec::new();
    let mut is_first = true;
    let mut expect_next_value = false;
    let ghost all = tokens.tokens();
    let ghost start = tokens.position();
    proof {
        use_type_invariant(&*tokens);
        assert(member_views(entries@) =~= Seq::empty());
    }
    loop
        invariant
            tokens.tokens() == all,
            all == old(tokens).tokens(),
            start == old(tokens).position(),
            start <= tokens.position() <= all.len(),
            is_first == (entries@.len() == 0),
            parse_members(all, start, Seq::empty(), false) == parse_members(
                all,
                tokens.position(),
                member_views(entries@),
                expect_next_value,
            ),
        decreases all.len() - tokens.position(),
    {
        let ghost pos = tokens.position();
        let token = match tokens.next() {
            None => {
                return Err(ParseErrorKind::UnexpectedEndOfInput.error());
            },
            Some(token) => token,
        };
        match token {
            Token::BraceClose => {
                if expect_next_value {
                    return Err(ParseErrorKind::TrailingCommaInObject.error());
                }
                let node = ASTNode::Object(entries);
                proof {
                    assert(node@->Object_0 =~= member_views(entries@));
                }
                return Ok(node);
            },
            Token::String(key) => {
                if !is_first && !expect_next_value {
                    return Err(ParseErrorKind::MissingComma.error());
                }
                is_first = false;
                match tokens.next() {
                    None => {
                        return Err(ParseErrorKind::UnexpectedEndOfInput.error());
                    },
                    Some(Token::Colon) => {},
                    Some(_) => {
                        return Err(ParseErrorKind::ExpectedColon.error());
                    },
                }
                proof {
                    lemma_parse_advances(all, pos + 2);
                }
                match parse_value(tokens) {
                    Err(e) => {
                        return Err(e);
                    },
                    Ok(value) => {
                        let name = key.as_str();
                        proof {
                            assert(member_views(entries@.push((name, value))) =~= member_views(
                                entries@,
                            ).push((key@, value@)));
                        }
                        entries.push((name, value));
                        expect_next_value = read_comma(tokens);
                    },
                }
            },
            _ => {
                return Err(ParseErrorKind::UnexpectedObjectKey.error());
            },
        }
    }
}

/// Parses an array whose opening bracket was just read.
pub fn parse_array<'a>(tokens: &mut TokenCursor<'a>) -> (r: Result<ASTNode<'a>, ParseError>)
    ensures
        final(tokens).tokens() == old(tokens).tokens(),
        old(tokens).position() <= final(tokens).position() <= old(tokens).tokens().len(),
        yields(
            r,
            final(tokens).position(),
            parse_elements(old(tokens).tokens(), old(tokens).position(), Seq::empty(), false),
        ),
    decreases old(tokens).remaining(), 1int,
{
    let mut items: Vec<ASTNode<'a>> = Vec::new();
    let mut is_first = true;
    let mut expect_next_value = false;
    let ghost all = tokens.tokens();
    let ghost start = tokens.position();
    proof {
        use_type_invariant(&*tokens);
        assert(element_views(items@) =~= Seq::empty());
    }
    loop
        invariant
            tokens.tokens() == all,
            all == old(tokens).tokens(),
            start == old(tokens).position(),
            start <= tokens.position() <= all.len(),
            is_first == (items@.len() == 0),
            parse_elements(all, start, Seq::empty(), false) == parse_elements(
                all,
                tokens.position(),
                element_views(items@),
                expect_next_value,
            ),
        decreases all.len() - tokens.position(),
    {
        let ghost pos = tokens.position();
        match tokens.peek() {
            None => {
                return Err(ParseErrorKind::UnexpectedEndOfInput.error());
            },
            Some(Token::BracketClose) => {
                if expect_next_value {
                    return Err(ParseErrorKind::TrailingCommaInArray.error());
                }
                tokens.next();
                let node = ASTNode::Array(items);
                proof {
                    assert(node@->Array_0 =~= element_views(items@));
                }
                return Ok(node);
            },
            Some(_) => {
                if !is_first && !expect_next_value {
                    return Err(ParseErrorKind::MissingComma.error());
                }
                is_first = false;
                proof {
                    lemma_parse_advances(all, pos);
                }
                match parse_value(tokens) {
                    Err(e) => {
                        return Err(e);
                    },
                    Ok(value) => {
                        proof {
                            assert(element_views(items@.push(value)) =~= element_views(items@).push(
                                value@,
                            ));
                        }
                        items.push(value);
                        expect_next_value = read_comma(tokens);
                    },
                }
            },
        }
    }
}

/// Parses the first value of the tokens that are left. With no token left
/// there is nothing to parse, which is no error. Tokens after the value stay
/// unread.
pub fn parse<'a>(tokens: &mut TokenCursor<'a>) -> (r: Result<Option<ASTNode<'a>>, ParseError>)
    ensures
        final(tokens).tokens() == old(tokens).tokens(),
        old(tokens).position() <= final(tokens).position() <= old(tokens).tokens().len(),
        match parse_document(old(tokens).tokens(), old(tokens).position()) {
            Ok(None) => r matches Ok(None) && final(tokens).position() == old(tokens).position(),
            Ok(Some(parsed)) => {
                &&& r matches Ok(Some(node))
                &&& node@ == parsed.value
                &&& final(tokens).position() == parsed.next
            },
            Err(inner) => {
                &&& r matches Err(e)
                &&& e.msg@ == inner.kind.message()
                &&& final(tokens).position() == inner.at
            },
        },
{
    if tokens.len() == 0 {
        return Ok(None);
    }
    match parse_value(tokens) {
        Ok(node) => Ok(Some(node)),
        Err(e) => Err(e),
    }
}

} // verus!
