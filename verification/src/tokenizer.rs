//! The lexer: from a text buffer to the sequence of its tokens.
//!
//! A position is an index into the sequence of characters of the text. What
//! the lexer reads at a position is given by the spec function [`lex_token`],
//! and the tokens of a whole text by [`lex_all`]; the methods of
//! [`Tokenizer`] are proved against them.

use crate::chars::{char_is_digit, is_digit, lemma_run_end, run_end, scan_run, CharClass};
use crate::number::{check_number, is_json_number};
use crate::text::{chars_of, decimal, decimal_string, string_of};
use vstd::prelude::*;
use vstd::string::StringExecFns;

verus! {

/// One lexical unit. A number carries its lexeme, which is a JSON number.
#[derive(Debug, PartialEq, Eq)]
pub enum Token {
    BraceOpen,
    BraceClose,
    BracketOpen,
    BracketClose,
    Colon,
    Comma,
    String(String),
    Number(String),
    True,
    False,
    Null,
}

/// The mathematical value of a [`Token`].
pub enum TokenView {
    BraceOpen,
    BraceClose,
    BracketOpen,
    BracketClose,
    Colon,
    Comma,
    String(Seq<char>),
    Number(Seq<char>),
    True,
    False,
    Null,
}

impl View for Token {
    type V = TokenView;

    open spec fn view(&self) -> TokenView {
        match self {
            Token::BraceOpen => TokenView::BraceOpen,
            Token::BraceClose => TokenView::BraceClose,
            Token::BracketOpen => TokenView::BracketOpen,
            Token::BracketClose => TokenView::BracketClose,
            Token::Colon => TokenView::Colon,
            Token::Comma => TokenView::Comma,
            Token::String(s) => TokenView::String(s@),
            Token::Number(n) => TokenView::Number(n@),
            Token::True => TokenView::True,
            Token::False => TokenView::False,
            Token::Null => TokenView::Null,
        }
    }
}

/// The values of a sequence of tokens.
pub open spec fn token_views(tokens: Seq<Token>) -> Seq<TokenView> {
    Seq::new(tokens.len(), |i: int| tokens[i]@)
}

/// A lexical failure: the position of the first character of the lexeme that
/// could not be read.
#[derive(Debug, Clone, Copy, PartialEq, Eq)]
pub struct TokenError {
    pub start_pos: usize,
}

impl TokenError {
    /// The error at position `start_pos`.
    pub fn new(start_pos: usize) -> (e: TokenError)
        ensures
            e.start_pos == start_pos,
    {
        TokenError { start_pos }
    }

    /// The text under which the error is reported.
    pub open spec fn description(&self) -> Seq<char> {
        "Unexpected token at position "@ + decimal(self.start_pos as nat)
    }

    /// Renders the error for a reader.
    pub fn to_string(&self) -> (s: String)
        ensures
            s@ == self.description(),
    {
        let position = decimal_string(self.start_pos);
        String::from_str("Unexpected token at position ").concat(position.as_str())
    }
}

/// What the lexer finds when it reads one token.
pub enum Lexed {
    /// A token, and the position after its lexeme.
    Token { token: TokenView, next: int },
    /// No lexeme starts with the character at `at`, or the one that does is
    /// malformed.
    Error { at: int },
    /// Nothing but layout is left.
    End,
}

/// The characters that follow the first one in `true`.
pub open spec fn true_tail() -> Seq<char> {
    seq!['r', 'u', 'e']
}

/// The characters that follow the first one in `false`.
pub open spec fn false_tail() -> Seq<char> {
    seq!['a', 'l', 's', 'e']
}

/// The characters that follow the first one in `null`.
pub open spec fn null_tail() -> Seq<char> {
    seq!['u', 'l', 'l']
}

/// A literal whose first character stands just before `from`: the text must
/// go on with `tail`.
pub open spec fn lex_literal(text: Seq<char>, from: int, tail: Seq<char>, token: TokenView) -> Lexed {
    if from + tail.len() <= text.len() && text.subrange(from, from + tail.len()) == tail {
        Lexed::Token { token, next: from + tail.len() }
    } else {
        Lexed::Error { at: from - 1 }
    }
}

/// A string literal whose opening quote stands just before `from`: its
/// content runs up to the next quote, which must come before any line break
/// and before the end of the text. A backslash is a character like any other.
pub open spec fn lex_string(text: Seq<char>, from: int) -> Lexed {
    let close = run_end(text, from, CharClass::StringBody);
    if close < text.len() && text[close] == '"' {
        Lexed::Token { token: TokenView::String(text.subrange(from, close)), next: close + 1 }
    } else {
        Lexed::Error { at: from - 1 }
    }
}

/// The lexeme of a number whose first character `first` stands just before
/// `from`: `first` and the longest run of number characters after it.
pub open spec fn number_lexeme(text: Seq<char>, first: char, from: int) -> Seq<char> {
    seq![first] + text.subrange(from, run_end(text, from, CharClass::NumberBody))
}

/// A number whose first character `first` stands just before `from`: its
/// lexeme must be a JSON number.
pub open spec fn lex_number(text: Seq<char>, first: char, from: int) -> Lexed {
    let lexeme = number_lexeme(text, first, from);
    if is_json_number(lexeme) {
        Lexed::Token {
            token: TokenView::Number(lexeme),
            next: run_end(text, from, CharClass::NumberBody),
        }
    } else {
        Lexed::Error { at: from - 1 }
    }
}

/// The token whose lexeme starts with the character at `at`, which is no
/// layout character. The first character alone decides the kind of token.
pub open spec fn lex_at(text: Seq<char>, at: int) -> Lexed {
    let c = text[at];
    if c == '{' {
        Lexed::Token { token: TokenView::BraceOpen, next: at + 1 }
    } else if c == '}' {
        Lexed::Token { token: TokenView::BraceClose, next: at + 1 }
    } else if c == '[' {
        Lexed::Token { token: TokenView::BracketOpen, next: at + 1 }
    } else if c == ']' {
        Lexed::Token { token: TokenView::BracketClose, next: at + 1 }
    } else if c == ':' {
        Lexed::Token { token: TokenView::Colon, next: at + 1 }
    } else if c == ',' {
        Lexed::Token { token: TokenView::Comma, next: at + 1 }
    } else if c == '"' {
        lex_string(text, at + 1)
    } else if c == 't' {
        lex_literal(text, at + 1, true_tail(), TokenView::True)
    } else if c == 'f' {
        lex_literal(text, at + 1, false_tail(), TokenView::False)
    } else if c == 'n' {
        lex_literal(text, at + 1, null_tail(), TokenView::Null)
    } else if is_digit(c) || c == '-' {
        lex_number(text, c, at + 1)
    } else {
        Lexed::Error { at }
    }
}

/// The first token at or after `from`: layout is skipped, then one token is
/// read.
pub open spec fn lex_token(text: Seq<char>, from: int) -> Lexed {
    let at = run_end(text, from, CharClass::Layout);
    if at < text.len() {
        lex_at(text, at)
    } else {
        Lexed::End
    }
}

/// A token that is read ends after the position from which it was read, and
/// within the text.
pub proof fn lemma_lex_token_advances(text: Seq<char>, from: int)
    requires
        0 <= from <= text.len(),
    ensures
        lex_token(text, from) matches Lexed::Token { next, .. } ==> from < next <= text.len(),
        lex_token(text, from) matches Lexed::Error { at } ==> from <= at < text.len(),
{
    lemma_run_end(text, from, CharClass::Layout);
    let at = run_end(text, from, CharClass::Layout);
    if at < text.len() {
        lemma_run_end(text, at + 1, CharClass::StringBody);
        lemma_run_end(text, at + 1, CharClass::NumberBody);
    }
}

/// All the tokens from `from` to the end of the text, or the position of the
/// first lexical error.
pub open spec fn lex_all(text: Seq<char>, from: int) -> Result<Seq<TokenView>, int>
    decreases text.len() - from,
{
    if 0 <= from <= text.len() {
        match lex_token(text, from) {
            Lexed::End => Ok(Seq::empty()),
            Lexed::Error { at } => Err(at),
            Lexed::Token { token, next } => {
                proof {
                    lemma_lex_token_advances(text, from);
                }
                match lex_all(text, next) {
                    Ok(rest) => Ok(seq![token] + rest),
                    Err(at) => Err(at),
                }
            },
        }
    } else {
        Ok(Seq::empty())
    }
}

/// A lexer over a text buffer, with a single forward cursor.
pub struct Tokenizer {
    chars: Vec<char>,
    pos: usize,
    error: Option<TokenError>,
}

impl Tokenizer {
    /// The text that is being read.
    pub closed spec fn text(&self) -> Seq<char> {
        self.chars@
    }

    /// The position of the next character to read.
    pub closed spec fn position(&self) -> int {
        self.pos as int
    }

    /// The last lexical error that was recorded.
    pub closed spec fn failure(&self) -> Option<TokenError> {
        self.error
    }

    #[verifier::type_invariant]
    spec fn in_bounds(&self) -> bool {
        self.pos <= self.chars@.len()
    }

    /// A lexer at the start of `contents`.
    pub fn new(contents: &str) -> (t: Tokenizer)
        ensures
            t.text() == contents@,
            t.position() == 0,
            t.failure() is None,
    {
        Tokenizer { chars: chars_of(contents), pos: 0, error: None }
    }

    /// The character at position `n`, if the text is that long.
    pub fn peek_nth_char(&self, n: usize) -> (c: Option<char>)
        ensures
            c == if n < self.text().len() {
                Some(self.text()[n as int])
            } else {
                None
            },
    {
        if n < self.chars.len() {
            Some(self.chars[n])
        } else {
            None
        }
    }

    /// The character under the cursor, if any is left.
    pub fn peek_char(&self) -> (c: Option<char>)
        ensures
            0 <= self.position() <= self.text().len(),
            c == if self.position() < self.text().len() {
                Some(self.text()[self.position()])
            } else {
                None
            },
    {
        proof {
            use_type_invariant(self);
        }
        self.peek_nth_char(self.pos)
    }

    /// Reads the character under the cursor and moves past it.
    pub fn next_char(&mut self) -> (c: Option<char>)
        ensures
            final(self).text() == old(self).text(),
            final(self).failure() == old(self).failure(),
            0 <= old(self).position() <= old(self).text().len(),
            old(self).position() < old(self).text().len() ==> c == Some(
                old(self).text()[old(self).position()],
            ) && final(self).position() == old(self).position() + 1,
            old(self).position() >= old(self).text().len() ==> c is None && final(self).position()
                == old(self).position(),
    {
        proof {
            use_type_invariant(&*self);
        }
        if self.pos < self.chars.len() {
            let c = self.chars[self.pos];
            self.pos = self.pos + 1;
            Some(c)
        } else {
            None
        }
    }

    /// Records a lexical error at the character that was read last.
    pub fn set_error(&mut self)
        requires
            old(self).position() >= 1,
        ensures
            final(self).text() == old(self).text(),
            final(self).position() == old(self).position(),
            final(self).position() <= final(self).text().len(),
            final(self).failure() matches Some(e) && e.start_pos == old(self).position() - 1,
    {
        proof {
            use_type_invariant(&*self);
        }
        self.error = Some(TokenError::new(self.pos - 1));
    }

    /// What a reading method leaves behind, given what the text holds at
    /// the cursor: the token and the cursor behind its lexeme; or no token,
    /// the error recorded and the cursor behind the character at which the
    /// lexeme started; or, at the end of the text, no token and the error
    /// that was recorded before.
    pub open spec fn reads(
        old_self: &Tokenizer,
        new_self: &Tokenizer,
        token: Option<Token>,
        lexed: Lexed,
    ) -> bool {
        &&& new_self.text() == old_self.text()
        &&& 0 <= old_self.position() <= new_self.position() <= new_self.text().len()
        &&& match lexed {
            Lexed::Token { token: t, next } => {
                &&& token matches Some(tok)
                &&& tok@ == t
                &&& new_self.position() == next
                &&& new_self.failure() == old_self.failure()
            },
            Lexed::Error { at } => {
                &&& token is None
                &&& new_self.position() == at + 1
                &&& new_self.failure() matches Some(e) && e.start_pos == at
            },
            Lexed::End => {
                &&& token is None
                &&& new_self.position() == old_self.text().len()
                &&& new_self.failure() == old_self.failure()
            },
        }
    }

    /// Reads the rest of a string literal whose opening quote was just read.
    pub fn read_string(&mut self) -> (token: Option<Token>)
        requires
            old(self).position() >= 1,
        ensures
            Self::reads(
                old(self),
                final(self),
                token,
                lex_string(old(self).text(), old(self).position()),
            ),
    {
        proof {
            use_type_invariant(&*self);
        }
        let len = self.chars.len();
        let mut s = String::new();
        let mut peek_pos: usize = self.pos;
        loop
            invariant
                len == self.chars@.len(),
                self.pos <= peek_pos <= self.chars@.len(),
                self.pos >= 1,
                *self == *old(self),
                s@ == self.chars@.subrange(self.pos as int, peek_pos as int),
                run_end(self.chars@, self.pos as int, CharClass::StringBody) == run_end(
                    self.chars@,
                    peek_pos as int,
                    CharClass::StringBody,
                ),
            ensures
                len == self.chars@.len(),
                peek_pos < self.chars@.len(),
                self.chars@[peek_pos as int] == '"',
                peek_pos == run_end(self.chars@, self.pos as int, CharClass::StringBody),
                s@ == self.chars@.subrange(self.pos as int, peek_pos as int),
                *self == *old(self),
            decreases self.chars@.len() - peek_pos,
        {
            match self.peek_nth_char(peek_pos) {
                None => {
                    self.set_error();
                    return None;
                },
                Some(c) => {
                    if c == '\n' || c == '\r' {
                        self.set_error();
                        return None;
                    } else if c == '"' {
                        break ;
                    } else {
                        s.push(c);
                        peek_pos = peek_pos + 1;
                    }
                },
            }
        }
        self.pos = peek_pos + 1;
        Some(Token::String(s))
    }

    /// Reads the rest of a literal whose first character was just read: the
    /// text must go on with `tail`.
    fn read_literal(&mut self, tail: &[char], token: Token) -> (r: Option<Token>)
        requires
            old(self).position() >= 1,
        ensures
            Self::reads(
                old(self),
                final(self),
                r,
                lex_literal(old(self).text(), old(self).position(), tail@, token@),
            ),
    {
        proof {
            use_type_invariant(&*self);
        }
        let n = tail.len();
        let len = self.chars.len();
        if n > len - self.pos {
            self.set_error();
            return None;
        }
        let mut i: usize = 0;
        while i < n
            invariant
                i <= n,
                n == tail@.len(),
                len == self.chars@.len(),
                self.pos + n <= self.chars@.len(),
                self.pos >= 1,
                *self == *old(self),
                self.chars@.subrange(self.pos as int, self.pos + i) == tail@.take(i as int),
            decreases n - i,
        {
            if self.chars[self.pos + i] != tail[i] {
                proof {
                    let whole = self.chars@.subrange(self.pos as int, self.pos + n);
                    assert(whole[i as int] != tail@[i as int]);
                }
                self.set_error();
                return None;
            }
            proof {
                assert(self.chars@.subrange(self.pos as int, self.pos + i + 1) =~= self.chars@.subrange(
                    self.pos as int,
                    self.pos + i,
                ).push(self.chars@[self.pos + i]));
                assert(tail@.take(i + 1) =~= tail@.take(i as int).push(tail@[i as int]));
            }
            i += 1;
        }
        proof {
            assert(tail@.take(n as int) =~= tail@);
        }
        self.pos = self.pos + n;
        Some(token)
    }

    /// Reads the rest of `true` after its `t`.
    pub fn read_bool_true(&mut self) -> (token: Option<Token>)
        requires
            old(self).position() >= 1,
        ensures
            Self::reads(
                old(self),
                final(self),
                token,
                lex_literal(old(self).text(), old(self).position(), true_tail(), TokenView::True),
            ),
    {
        let tail: [char; 3] = ['r', 'u', 'e'];
        proof {
            assert(tail@ =~= true_tail());
        }
        self.read_literal(tail.as_slice(), Token::True)
    }

    /// Reads the rest of `false` after its `f`.
    pub fn read_bool_false(&mut self) -> (token: Option<Token>)
        requires
            old(self).position() >= 1,
        ensures
            Self::reads(
                old(self),
                final(self),
                token,
                lex_literal(old(self).text(), old(self).position(), false_tail(), TokenView::False),
            ),
    {
        let tail: [char; 4] = ['a', 'l', 's', 'e'];
        proof {
            assert(tail@ =~= false_tail());
        }
        self.read_literal(tail.as_slice(), Token::False)
    }

    /// Reads the rest of `null` after its `n`.
    pub fn read_null(&mut self) -> (token: Option<Token>)
        requires
            old(self).position() >= 1,
        ensures
            Self::reads(
                old(self),
                final(self),
                token,
                lex_literal(old(self).text(), old(self).position(), null_tail(), TokenView::Null),
            ),
    {
        let tail: [char; 3] = ['u', 'l', 'l'];
        proof {
            assert(tail@ =~= null_tail());
        }
        self.read_literal(tail.as_slice(), Token::Null)
    }

    /// Reads the rest of a number whose first character `first` was just
    /// read, and checks the lexeme against the number grammar.
    pub fn read_number(&mut self, first: char) -> (token: Option<Token>)
        requires
            old(self).position() >= 1,
        ensures
            Self::reads(
                old(self),
                final(self),
                token,
                lex_number(old(self).text(), first, old(self).position()),
            ),
    {
        proof {
            use_type_invariant(&*self);
        }
        let end = scan_run(&self.chars, self.pos, CharClass::NumberBody);
        let mut lexeme: Vec<char> = Vec::new();
        lexeme.push(first);
        let mut i: usize = self.pos;
        while i < end
            invariant
                self.pos <= i <= end <= self.chars@.len(),
                lexeme@ == seq![first] + self.chars@.subrange(self.pos as int, i as int),
            decreases end - i,
        {
            lexeme.push(self.chars[i]);
            i += 1;
        }
        if check_number(&lexeme) {
            self.pos = end;
            Some(Token::Number(string_of(&lexeme)))
        } else {
            self.set_error();
            None
        }
    }

    /// Skips layout and reads one token. Returns `None` at the end of the
    /// text, and also on a lexical error, which is then recorded.
    pub fn next_token(&mut self) -> (token: Option<Token>)
        ensures
            Self::reads(
                old(self),
                final(self),
                token,
                lex_token(old(self).text(), old(self).position()),
            ),
    {
        proof {
            use_type_invariant(&*self);
            lemma_run_end(self.chars@, self.pos as int, CharClass::Layout);
        }
        let at = scan_run(&self.chars, self.pos, CharClass::Layout);
        self.pos = at;
        match self.next_char() {
            None => None,
            Some(c) => {
                if c == '{' {
                    Some(Token::BraceOpen)
                } else if c == '}' {
                    Some(Token::BraceClose)
                } else if c == '[' {
                    Some(Token::BracketOpen)
                } else if c == ']' {
                    Some(Token::BracketClose)
                } else if c == ':' {
                    Some(Token::Colon)
                } else if c == ',' {
                    Some(Token::Comma)
                } else if c == '"' {
                    self.read_string()
                } else if c == 't' {
                    self.read_bool_true()
                } else if c == 'f' {
                    self.read_bool_false()
                } else if c == 'n' {
                    self.read_null()
                } else if char_is_digit(c) || c == '-' {
                    self.read_number(c)
                } else {
                    self.set_error();
                    None
                }
            },
        }
    }

    /// Reads every token up to the end of the text. Fails with the first
    /// lexical error; an error that was recorded before the call fails the
    /// call too, once the rest of the text has been read.
    pub fn try_collect(self) -> (r: Result<Vec<Token>, TokenError>)
        ensures
            match lex_all(self.text(), self.position()) {
                Err(at) => r matches Err(e) && e.start_pos == at,
                Ok(tokens) => match self.failure() {
                    Some(e) => r == Err::<Vec<Token>, TokenError>(e),
                    None => r matches Ok(v) && token_views(v@) == tokens,
                },
            },
    {
        let mut lexer = self;
        let ghost start = lexer.pos as int;
        let ghost text = lexer.chars@;
        let ghost before = lexer.error;
        proof {
            use_type_invariant(&lexer);
        }
        let mut tokens: Vec<Token> = Vec::new();
        loop
            invariant_except_break
                match lex_all(text, lexer.position()) {
                    Err(at) => lex_all(text, start) == Err::<Seq<TokenView>, int>(at),
                    Ok(rest) => lex_all(text, start) == Ok::<Seq<TokenView>, int>(
                        token_views(tokens@) + rest,
                    ),
                },
                lexer.failure() == before,
            invariant
                lexer.text() == text,
                0 <= lexer.position() <= text.len(),
            ensures
                lexer.text() == text,
                match lex_all(text, start) {
                    Err(at) => lexer.failure() matches Some(e) && e.start_pos == at,
                    Ok(all) => lexer.failure() == before && token_views(tokens@) == all,
                },
            decreases text.len() - lexer.position(),
        {
            proof {
                lemma_lex_token_advances(text, lexer.position());
            }
            match lexer.next_token() {
                Some(token) => {
                    proof {
                        let next = lexer.position();
                        assert(token_views(tokens@.push(token)) =~= token_views(tokens@) + seq![token@]);
                        match lex_all(text, next) {
                            Ok(rest) => {
                                assert((token_views(tokens@) + seq![token@]) + rest =~= token_views(
                                    tokens@,
                                ) + (seq![token@] + rest));
                            },
                            Err(at) => {},
                        }
                    }
                    tokens.push(token);
                },
                None => {
                    proof {
                        assert(token_views(tokens@) + Seq::<TokenView>::empty() =~= token_views(
                            tokens@,
                        ));
                    }
                    break ;
                },
            }
        }
        match lexer.error {
            Some(error) => Err(error),
            None => Ok(tokens),
        }
    }
}

/// The tokens of `text`, or the position of its first lexical error.
pub fn tokenize(text: &str) -> (r: Result<Vec<Token>, TokenError>)
    ensures
        match lex_all(text@, 0) {
            Ok(tokens) => r matches Ok(v) && token_views(v@) == tokens,
            Err(at) => r matches Err(e) && e.start_pos == at,
        },
{
    Tokenizer::new(text).try_collect()
}

} // verus!
