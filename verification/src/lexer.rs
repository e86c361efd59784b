//! Lexical analysis: source text to a token sequence ending in `Eof`.
//!
//! The meaning of the lexer is given by the spec function [`lex`], which
//! scans a character sequence and produces either the token models or a
//! positional error.  `Lexer::tokenize` is proved to agree with it.

use vstd::prelude::*;
use vstd::string::*;
use crate::ast::Token;
use crate::error::{TranspilerError, TranspilerResult};

verus! {

/// A token as the specification sees it: identifier names are character
/// sequences and numbers are unbounded integers.
pub enum TokenModel {
    Identifier(Seq<char>),
    Number(int),
    Let,
    Mut,
    Print,
    If,
    While,
    Assign,
    Plus,
    Minus,
    Multiply,
    Divide,
    Equal,
    NotEqual,
    Less,
    Greater,
    Semicolon,
    LeftBrace,
    RightBrace,
    LeftParen,
    RightParen,
    Exclamation,
    Eof,
}

/// A lexical error as the specification sees it: the offending character
/// or an overlarge number, with the character position reported.
pub enum LexErrModel {
    Unexpected { ch: char, pos: int },
    BadNumber { pos: int },
}

impl LexErrModel {
    /// The character position the error is reported at.
    pub open spec fn pos(self) -> int {
        match self {
            LexErrModel::Unexpected { ch, pos } => pos,
            LexErrModel::BadNumber { pos } => pos,
        }
    }
}

/// The model of an executable token.
pub open spec fn token_model(t: Token) -> TokenModel {
    match t {
        Token::Identifier(name) => TokenModel::Identifier(name@),
        Token::Number(n) => TokenModel::Number(n as int),
        Token::Let => TokenModel::Let,
        Token::Mut => TokenModel::Mut,
        Token::Print => TokenModel::Print,
        Token::If => TokenModel::If,
        Token::While => TokenModel::While,
        Token::Assign => TokenModel::Assign,
        Token::Plus => TokenModel::Plus,
        Token::Minus => TokenModel::Minus,
        Token::Multiply => TokenModel::Multiply,
        Token::Divide => TokenModel::Divide,
        Token::Equal => TokenModel::Equal,
        Token::NotEqual => TokenModel::NotEqual,
        Token::Less => TokenModel::Less,
        Token::Greater => TokenModel::Greater,
        Token::Semicolon => TokenModel::Semicolon,
        Token::LeftBrace => TokenModel::LeftBrace,
        Token::RightBrace => TokenModel::RightBrace,
        Token::LeftParen => TokenModel::LeftParen,
        Token::RightParen => TokenModel::RightParen,
        Token::Exclamation => TokenModel::Exclamation,
        Token::Eof => TokenModel::Eof,
    }
}

/// The models of a token sequence.
pub open spec fn tokens_model(ts: Seq<Token>) -> Seq<TokenModel> {
    ts.map_values(|t: Token| token_model(t))
}

/// Whitespace, as the scanner skips it: any code point with the Unicode
/// `White_Space` property.
pub open spec fn is_ws(c: char) -> bool {
    ||| (9 <= c as u32 <= 13)  // tab, line feed, vertical tab, form feed, carriage return
    ||| c == ' '
    ||| c == '\u{85}'  // next line
    ||| c == '\u{a0}'  // no-break space
    ||| c == '\u{1680}'  // ogham space mark
    ||| (0x2000 <= c as u32 <= 0x200a)  // en quad .. hair space
    ||| c == '\u{2028}'  // line separator
    ||| c == '\u{2029}'  // paragraph separator
    ||| c == '\u{202f}'  // narrow no-break space
    ||| c == '\u{205f}'  // medium mathematical space
    ||| c == '\u{3000}'  // ideographic space
}

/// An ASCII decimal digit.
pub open spec fn is_digit(c: char) -> bool {
    48 <= c as u32 <= 57
}

/// A character that may begin an identifier: an ASCII letter or `_`.
pub open spec fn is_ident_start(c: char) -> bool {
    (65 <= c as u32 <= 90) || (97 <= c as u32 <= 122) || c == '_'
}

/// A character that may continue an identifier.
pub open spec fn is_ident_cont(c: char) -> bool {
    is_ident_start(c) || is_digit(c)
}

/// The numeric value of a digit character.
pub open spec fn digit_val(c: char) -> int {
    c as u32 - 48
}

/// The end of the run of identifier characters starting at `i`.
pub open spec fn ident_end(cs: Seq<char>, i: int) -> int
    decreases cs.len() - i,
{
    if 0 <= i < cs.len() && is_ident_cont(cs[i]) {
        ident_end(cs, i + 1)
    } else {
        i
    }
}

/// The end of the run of digit characters starting at `i`.
pub open spec fn number_end(cs: Seq<char>, i: int) -> int
    decreases cs.len() - i,
{
    if 0 <= i < cs.len() && is_digit(cs[i]) {
        number_end(cs, i + 1)
    } else {
        i
    }
}

/// The value of the decimal digit string `cs[i..j]`.
pub open spec fn digits_val(cs: Seq<char>, i: int, j: int) -> int
    decreases j - i,
{
    if i >= j {
        0
    } else {
        digits_val(cs, i, j - 1) * 10 + digit_val(cs[j - 1])
    }
}

/// The token for an identifier word: a keyword where the word matches one,
/// an `Identifier` otherwise.
pub open spec fn word_token(w: Seq<char>) -> TokenModel {
    if w == "let"@ {
        TokenModel::Let
    } else if w == "mut"@ {
        TokenModel::Mut
    } else if w == "print"@ {
        TokenModel::Print
    } else if w == "if"@ {
        TokenModel::If
    } else if w == "while"@ {
        TokenModel::While
    } else {
        TokenModel::Identifier(w)
    }
}

/// Prepends a token to the result of scanning the rest of the input.
pub open spec fn lex_cons(
    t: TokenModel,
    r: Result<Seq<TokenModel>, LexErrModel>,
) -> Result<Seq<TokenModel>, LexErrModel> {
    match r {
        Ok(toks) => Ok(seq![t] + toks),
        Err(e) => Err(e),
    }
}

/// The token stream of `cs` from position `pos` on: whitespace is skipped,
/// single characters map to their operator and delimiter tokens,
/// `==` and `!=` are two-character operators, digits form a number that
/// must fit in an `i32`, letters and `_` form a keyword or identifier, and
/// any other character is an error at its own position.  The stream always
/// ends in `Eof`.
pub open spec fn lex(cs: Seq<char>, pos: int) -> Result<Seq<TokenModel>, LexErrModel>
    decreases cs.len() - pos,
{
    if pos < 0 || pos >= cs.len() {
        Ok(seq![TokenModel::Eof])
    } else {
        let c = cs[pos];
        if is_ws(c) {
            lex(cs, pos + 1)
        } else if c == '=' {
            if pos + 1 < cs.len() && cs[pos + 1] == '=' {
                lex_cons(TokenModel::Equal, lex(cs, pos + 2))
            } else {
                lex_cons(TokenModel::Assign, lex(cs, pos + 1))
            }
        } else if c == '!' {
            if pos + 1 < cs.len() && cs[pos + 1] == '=' {
                lex_cons(TokenModel::NotEqual, lex(cs, pos + 2))
            } else {
                lex_cons(TokenModel::Exclamation, lex(cs, pos + 1))
            }
        } else if c == '+' {
            lex_cons(TokenModel::Plus, lex(cs, pos + 1))
        } else if c == '-' {
            lex_cons(TokenModel::Minus, lex(cs, pos + 1))
        } else if c == '*' {
            lex_cons(TokenModel::Multiply, lex(cs, pos + 1))
        } else if c == '/' {
            lex_cons(TokenModel::Divide, lex(cs, pos + 1))
        } else if c == '<' {
            lex_cons(TokenModel::Less, lex(cs, pos + 1))
        } else if c == '>' {
            lex_cons(TokenModel::Greater, lex(cs, pos + 1))
        } else if c == ';' {
            lex_cons(TokenModel::Semicolon, lex(cs, pos + 1))
        } else if c == '{' {
            lex_cons(TokenModel::LeftBrace, lex(cs, pos + 1))
        } else if c == '}' {
            lex_cons(TokenModel::RightBrace, lex(cs, pos + 1))
        } else if c == '(' {
            lex_cons(TokenModel::LeftParen, lex(cs, pos + 1))
        } else if c == ')' {
            lex_cons(TokenModel::RightParen, lex(cs, pos + 1))
        } else if is_digit(c) {
            let e = number_end(cs, pos);
            let v = digits_val(cs, pos, e);
            if e <= pos || e > cs.len() {
                Err(LexErrModel::BadNumber { pos: e })  // unreachable: a digit run is nonempty
            } else if v > i32::MAX {
                Err(LexErrModel::BadNumber { pos: e })
            } else {
                lex_cons(TokenModel::Number(v), lex(cs, e))
            }
        } else if is_ident_start(c) {
            let e = ident_end(cs, pos);
            if e <= pos || e > cs.len() {
                Err(LexErrModel::Unexpected { ch: c, pos })  // unreachable: the run is nonempty
            } else {
                lex_cons(word_token(cs.subrange(pos, e)), lex(cs, e))
            }
        } else {
            Err(LexErrModel::Unexpected { ch: c, pos })
        }
    }
}

/// A digit run starting at a digit reaches past its start and no further
/// than the end of the input, covers only digits, and stops at a non-digit.
pub proof fn lemma_number_end(cs: Seq<char>, i: int)
    requires
        0 <= i <= cs.len(),
    ensures
        i <= number_end(cs, i) <= cs.len(),
        forall|j: int| i <= j < number_end(cs, i) ==> is_digit(cs[j]),
        number_end(cs, i) < cs.len() ==> !is_digit(cs[number_end(cs, i)]),
    decreases cs.len() - i,
{
    if i < cs.len() && is_digit(cs[i]) {
        lemma_number_end(cs, i + 1);
    }
}

/// The identifier-run analogue of [`lemma_number_end`].
pub proof fn lemma_ident_end(cs: Seq<char>, i: int)
    requires
        0 <= i <= cs.len(),
    ensures
        i <= ident_end(cs, i) <= cs.len(),
        forall|j: int| i <= j < ident_end(cs, i) ==> is_ident_cont(cs[j]),
        ident_end(cs, i) < cs.len() ==> !is_ident_cont(cs[ident_end(cs, i)]),
    decreases cs.len() - i,
{
    if i < cs.len() && is_ident_cont(cs[i]) {
        lemma_ident_end(cs, i + 1);
    }
}

/// Appending a digit can only grow the value of a digit string.
proof fn lemma_digits_val_grows(cs: Seq<char>, i: int, j: int)
    requires
        forall|k: int| i <= k < j ==> 0 <= #[trigger] digit_val(cs[k]) <= 9,
    ensures
        digits_val(cs, i, j) >= 0,
        i < j ==> digits_val(cs, i, j) >= digits_val(cs, i, j - 1),
    decreases j - i,
{
    if i < j {
        lemma_digits_val_grows(cs, i, j - 1);
    }
}

/// The lexer, a cursor over the characters of one source string.
pub struct Lexer {
    input: String,
    position: usize,
    length: usize,
}

impl Lexer {
    /// The character sequence being scanned.
    pub closed spec fn chars(&self) -> Seq<char> {
        self.input@
    }

    /// The current character position.
    pub closed spec fn pos(&self) -> int {
        self.position as int
    }

    /// The cached length agrees with the input.
    pub closed spec fn wf(&self) -> bool {
        self.length == self.input@.len() && self.position <= self.length
    }

    /// A fresh lexer at the start of `input`.
    pub fn new(input: &str) -> (l: Lexer)
        ensures
            l.wf(),
            l.chars() == input@,
            l.pos() == 0,
    {
        let length = input.unicode_len();
        Lexer { input: input.to_owned(), position: 0, length }
    }

    /// Scans the whole input and returns its tokens, ending in `Eof`, or
    /// the first lexical error.  The result is exactly what [`lex`] gives
    /// on the input from the current position.
    pub fn tokenize(&mut self) -> (r: TranspilerResult<Vec<Token>>)
        requires
            old(self).wf(),
        ensures
            final(self).wf(),
            match r {
                Ok(toks) => Ok::<_, LexErrModel>(
                    tokens_model(toks@),
                ) == lex(old(self).chars(), old(self).pos()),
                Err(e) => {
                    &&& lex(old(self).chars(), old(self).pos()) matches Err(em)
                    &&& e.position == Some(em.pos() as usize)
                },
            },
    {
        let ghost cs = old(self).chars();
        let ghost pos0 = old(self).pos();
        let mut tokens: Vec<Token> = Vec::new();
        proof {
            assert(tokens_model(tokens@) =~= Seq::<TokenModel>::empty());
            if let Ok(toks) = lex(cs, pos0) {
                assert(Seq::<TokenModel>::empty() + toks =~= toks);
            }
        }
        loop
            invariant
                self.wf(),
                cs == old(self).chars(),
                pos0 == old(self).pos(),
                self.chars() == cs,
                0 <= pos0 <= self.pos() <= cs.len(),
                lex(cs, pos0) == lex_prefix(tokens_model(tokens@), lex(cs, self.pos())),
            decreases cs.len() - self.pos(),
        {
            self.skip_whitespace();
            if self.position >= self.length {
                let ghost prev = tokens@;
                tokens.push(Token::Eof);
                proof {
                    assert(lex(cs, self.pos()) == Ok::<Seq<TokenModel>, LexErrModel>(
                        seq![TokenModel::Eof],
                    ));
                    assert(tokens_model(tokens@) =~= tokens_model(prev) + seq![TokenModel::Eof]);
                    assert(lex(cs, pos0) == Ok::<Seq<TokenModel>, LexErrModel>(
                        tokens_model(tokens@),
                    ));
                }
                return Ok(tokens);
            }
            let ghost before = self.pos();
            match self.next_token() {
                Ok(token) => {
                    let ghost tm = token_model(token);
                    let ghost prev = tokens@;
                    tokens.push(token);
                    proof {
                        assert(tokens_model(tokens@) =~= tokens_model(prev).push(tm));
                        lemma_lex_prefix_push(tokens_model(prev), tm, cs, before, self.pos());
                    }
                }
                Err(e) => {
                    return Err(e);
                }
            }
        }
    }

    /// Advances past the whitespace run at the cursor.  The token stream
    /// from the new position is the token stream from the old one.
    fn skip_whitespace(&mut self)
        requires
            old(self).wf(),
        ensures
            final(self).wf(),
            final(self).chars() == old(self).chars(),
            old(self).pos() <= final(self).pos(),
            lex(final(self).chars(), final(self).pos()) == lex(old(self).chars(), old(self).pos()),
            final(self).pos() < final(self).chars().len() ==> !is_ws(
                final(self).chars()[final(self).pos()],
            ),
    {
        while self.position < self.length
            invariant
                self.wf(),
                self.chars() == old(self).chars(),
                old(self).pos() <= self.pos(),
                lex(self.chars(), self.pos()) == lex(old(self).chars(), old(self).pos()),
            decreases self.length - self.position,
        {
            let c = self.input.as_str().get_char(self.position);
            if is_ws_char(c) {
                self.position = self.position + 1;
            } else {
                return;
            }
        }
    }

    /// Scans one token at a non-whitespace cursor position.
    fn next_token(&mut self) -> (r: TranspilerResult<Token>)
        requires
            old(self).wf(),
            old(self).pos() < old(self).chars().len(),
            !is_ws(old(self).chars()[old(self).pos()]),
        ensures
            final(self).wf(),
            final(self).chars() == old(self).chars(),
            match r {
                Ok(t) => {
                    &&& old(self).pos() < final(self).pos()
                    &&& lex(old(self).chars(), old(self).pos()) == lex_cons(
                        token_model(t),
                        lex(final(self).chars(), final(self).pos()),
                    )
                },
                Err(e) => {
                    &&& lex(old(self).chars(), old(self).pos()) matches Err(em)
                    &&& e.position == Some(em.pos() as usize)
                },
            },
    {
        let c = self.input.as_str().get_char(self.position);
        if c == '=' {
            self.position = self.position + 1;
            if self.position < self.length && self.input.as_str().get_char(self.position) == '=' {
                self.position = self.position + 1;
                Ok(Token::Equal)
            } else {
                Ok(Token::Assign)
            }
        } else if c == '!' {
            self.position = self.position + 1;
            if self.position < self.length && self.input.as_str().get_char(self.position) == '=' {
                self.position = self.position + 1;
                Ok(Token::NotEqual)
            } else {
                Ok(Token::Exclamation)
            }
        } else if c == '+' {
            self.position = self.position + 1;
            Ok(Token::Plus)
        } else if c == '-' {
            self.position = self.position + 1;
            Ok(Token::Minus)
        } else if c == '*' {
            self.position = self.position + 1;
            Ok(Token::Multiply)
        } else if c == '/' {
            self.position = self.position + 1;
            Ok(Token::Divide)
        } else if c == '<' {
            self.position = self.position + 1;
            Ok(Token::Less)
        } else if c == '>' {
            self.position = self.position + 1;
            Ok(Token::Greater)
        } else if c == ';' {
            self.position = self.position + 1;
            Ok(Token::Semicolon)
        } else if c == '{' {
            self.position = self.position + 1;
            Ok(Token::LeftBrace)
        } else if c == '}' {
            self.position = self.position + 1;
            Ok(Token::RightBrace)
        } else if c == '(' {
            self.position = self.position + 1;
            Ok(Token::LeftParen)
        } else if c == ')' {
            self.position = self.position + 1;
            Ok(Token::RightParen)
        } else if is_digit_char(c) {
            self.read_number()
        } else if is_ident_start_char(c) {
            Ok(self.read_identifier())
        } else {
            Err(TranspilerError::with_position(
                "Unexpected character".to_owned(),
                self.position,
            ))
        }
    }

    /// Scans the digit run at the cursor into a `Number` token, or reports
    /// a number that does not fit in an `i32`.
    fn read_number(&mut self) -> (r: TranspilerResult<Token>)
        requires
            old(self).wf(),
            old(self).pos() < old(self).chars().len(),
            is_digit(old(self).chars()[old(self).pos()]),
        ensures
            final(self).wf(),
            final(self).chars() == old(self).chars(),
            match r {
                Ok(t) => {
                    &&& old(self).pos() < final(self).pos()
                    &&& lex(old(self).chars(), old(self).pos()) == lex_cons(
                        token_model(t),
                        lex(final(self).chars(), final(self).pos()),
                    )
                },
                Err(e) => {
                    &&& lex(old(self).chars(), old(self).pos()) matches Err(em)
                    &&& e.position == Some(em.pos() as usize)
                },
            },
    {
        let ghost cs = old(self).chars();
        let ghost start = old(self).pos();
        proof {
            lemma_number_end(cs, start);
        }
        let mut acc: u64 = 0;
        while self.position < self.length && is_digit_char(self.input.as_str().get_char(self.position))
            invariant
                self.wf(),
                self.chars() == cs,
                0 <= start <= self.pos() <= cs.len(),
                forall|j: int| start <= j < self.pos() ==> is_digit(cs[j]),
                number_end(cs, start) == number_end(cs, self.pos()),
                digits_val(cs, start, self.pos()) <= i32::MAX ==> acc == digits_val(cs, start, self.pos()),
                digits_val(cs, start, self.pos()) > i32::MAX ==> acc > i32::MAX,
                acc <= 0x7fff_ffff * 10 + 9,
            decreases self.length - self.position,
        {
            let c = self.input.as_str().get_char(self.position);
            let d: u32 = (c as u32) - 48;
            proof {
                lemma_digits_val_digits(cs, start, self.pos() + 1);
            }
            if acc <= 0x7fff_ffff {
                acc = acc * 10 + (d as u64);
            }
            self.position = self.position + 1;
        }
        proof {
            lemma_number_end(cs, start);
            assert(number_end(cs, start) == self.pos());
        }
        if acc > 0x7fff_ffff {
            Err(TranspilerError::with_position("Invalid number".to_owned(), self.position))
        } else {
            Ok(Token::Number(acc as i32))
        }
    }

    /// Scans the identifier run at the cursor into a keyword token or an
    /// `Identifier`.
    fn read_identifier(&mut self) -> (t: Token)
        requires
            old(self).wf(),
            old(self).pos() < old(self).chars().len(),
            is_ident_start(old(self).chars()[old(self).pos()]),
        ensures
            final(self).wf(),
            final(self).chars() == old(self).chars(),
            old(self).pos() < final(self).pos(),
            lex(old(self).chars(), old(self).pos()) == lex_cons(
                token_model(t),
                lex(final(self).chars(), final(self).pos()),
            ),
    {
        let ghost cs = old(self).chars();
        let ghost start = old(self).pos();
        proof {
            lemma_ident_end(cs, start);
        }
        let word_start = self.position;
        while self.position < self.length && is_ident_cont_char(self.input.as_str().get_char(self.position))
            invariant
                self.wf(),
                self.chars() == cs,
                0 <= start <= self.pos() <= cs.len(),
                forall|j: int| start <= j < self.pos() ==> is_ident_cont(cs[j]),
                ident_end(cs, start) == ident_end(cs, self.pos()),
            decreases self.length - self.position,
        {
            self.position = self.position + 1;
        }
        proof {
            lemma_ident_end(cs, start);
            assert(ident_end(cs, start) == self.pos());
        }
        let word = self.input.as_str().substring_char(word_start, self.position).to_owned();
        proof {
            reveal_strlit("let");
            reveal_strlit("mut");
            reveal_strlit("print");
            reveal_strlit("if");
            reveal_strlit("while");
        }
        if str_eq(&word, "let") {
            Token::Let
        } else if str_eq(&word, "mut") {
            Token::Mut
        } else if str_eq(&word, "print") {
            Token::Print
        } else if str_eq(&word, "if") {
            Token::If
        } else if str_eq(&word, "while") {
            Token::While
        } else {
            Token::Identifier(word)
        }
    }
}

/// Prepends already-scanned tokens to the scan of the rest.
pub open spec fn lex_prefix(
    p: Seq<TokenModel>,
    r: Result<Seq<TokenModel>, LexErrModel>,
) -> Result<Seq<TokenModel>, LexErrModel> {
    match r {
        Ok(toks) => Ok(p + toks),
        Err(e) => Err(e),
    }
}

/// Shifts one freshly scanned token from the tail into the prefix.
proof fn lemma_lex_prefix_push(
    p: Seq<TokenModel>,
    t: TokenModel,
    cs: Seq<char>,
    before: int,
    after: int,
)
    requires
        lex(cs, before) == lex_cons(t, lex(cs, after)),
    ensures
        lex_prefix(p, lex(cs, before)) == lex_prefix(p.push(t), lex(cs, after)),
{
    match lex(cs, after) {
        Ok(toks) => {
            assert(p + (seq![t] + toks) =~= p.push(t) + toks);
        }
        Err(_) => {}
    }
}

/// Each digit in a run is a digit, so the value only grows with length.
proof fn lemma_digits_val_digits(cs: Seq<char>, i: int, j: int)
    requires
        0 <= i,
        j <= cs.len(),
        forall|k: int| i <= k < j ==> is_digit(cs[k]),
    ensures
        digits_val(cs, i, j) >= 0,
        i < j ==> digits_val(cs, i, j) >= digits_val(cs, i, j - 1),
{
    assert forall|k: int| i <= k < j implies 0 <= #[trigger] digit_val(cs[k]) <= 9 by {
        assert(is_digit(cs[k]));
    }
    lemma_digits_val_grows(cs, i, j);
}

/// Whitespace test on an executable character.
fn is_ws_char(c: char) -> (b: bool)
    ensures
        b == is_ws(c),
{
    let u: u32 = c as u32;
    (9 <= u && u <= 13) || c == ' ' || c == '\u{85}' || c == '\u{a0}' || c == '\u{1680}'
        || (0x2000 <= u && u <= 0x200a) || c == '\u{2028}' || c == '\u{2029}' || c == '\u{202f}'
        || c == '\u{205f}' || c == '\u{3000}'
}

/// Digit test on an executable character.
fn is_digit_char(c: char) -> (b: bool)
    ensures
        b == is_digit(c),
{
    let u: u32 = c as u32;
    48 <= u && u <= 57
}

/// Identifier-start test on an executable character.
fn is_ident_start_char(c: char) -> (b: bool)
    ensures
        b == is_ident_start(c),
{
    let u: u32 = c as u32;
    (65 <= u && u <= 90) || (97 <= u && u <= 122) || c == '_'
}

/// Identifier-continuation test on an executable character.
fn is_ident_cont_char(c: char) -> (b: bool)
    ensures
        b == is_ident_cont(c),
{
    is_ident_start_char(c) || is_digit_char(c)
}

/// String comparison through the vstd specification of `String` equality.
pub(crate) fn str_eq(a: &String, b: &str) -> (r: bool)
    ensures
        r == (a@ == b@),
{
    a.eq(&b.to_owned())
}

} // verus!
