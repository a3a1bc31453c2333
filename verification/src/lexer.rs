//! Tokenizer: scans source text left to right, once, into a flat sequence of
//! tokens that always ends in exactly one end-of-input token.
//!
//! The scanning rules are stated as the spec function [`spec_lex`]; the
//! executable [`Lexer::tokenize`] is proved to return exactly what that model
//! says, for every input.

use vstd::prelude::*;
use vstd::string::*;

verus! {

/// The closed set of lexical categories.
#[derive(Clone, Copy, Debug, PartialEq, Eq, Structural)]
pub enum TokenType {
    Dot,
    Comma,
    LeftParenthesis,
    RightParenthesis,
    LeftBracket,
    RightBracket,
    LeftBrace,
    RightBrace,
    QuestionMark,
    Semicolon,
    Bang,

    Plus,
    Minus,
    Asterisk,
    Slash,
    Percent,
    Caret,

    If,
    While,
    Do,
    Else,
    For,
    In,
    Let,
    Function,
    Return,
    Use,

    Identifier,
    Number,
    String,
    Boolean,

    Equal,
    EqualEqual,
    Greater,
    Less,
    GreaterEqual,
    LessEqual,
    BangEqual,

    And,
    Or,

    EOF,
}

/// Mathematical model of a token: its kind and, for the literal and name
/// categories, the lexeme text.
pub struct TokenModel {
    pub kind: TokenType,
    pub text: Option<Seq<char>>,
}

/// A token with an optional lexeme payload. The payload is present exactly
/// for identifiers, numbers, strings and boolean literals.
#[derive(Clone, Debug, PartialEq)]
pub struct Token {
    pub token_type: TokenType,
    pub token_name: Option<String>,
}

impl View for Token {
    type V = TokenModel;

    open spec fn view(&self) -> TokenModel {
        TokenModel {
            kind: self.token_type,
            text: match self.token_name {
                Option::Some(s) => Option::Some(s@),
                Option::None => Option::None,
            },
        }
    }
}

/// The token models of a token sequence.
pub open spec fn views(ts: Seq<Token>) -> Seq<TokenModel> {
    ts.map_values(|t: Token| t@)
}

/// A token without payload.
pub open spec fn tok(kind: TokenType) -> TokenModel {
    TokenModel { kind: kind, text: Option::None }
}

/// A lexical error: the offending character and the line/column where
/// scanning stopped (lines count from 1; positions are diagnostic only).
#[derive(Clone, Copy, Debug, PartialEq, Eq)]
pub struct LexError {
    pub row: usize,
    pub col: usize,
    pub ch: char,
}

/// Whether `char::is_alphabetic` holds of `c`. The classification depends on
/// the character alone.
pub uninterp spec fn alphabetic(c: char) -> bool;

/// Whether `char::is_alphanumeric` holds of `c`.
pub uninterp spec fn alphanumeric(c: char) -> bool;

/// Whether `char::is_numeric` holds of `c`.
pub uninterp spec fn numeric(c: char) -> bool;

/// Whether `char::is_whitespace` holds of `c`.
pub uninterp spec fn whitespace(c: char) -> bool;

/// Relies on `char::is_alphabetic`: a pure classification of the character.
pub assume_specification[ char::is_alphabetic ](c: char) -> (r: bool)
    ensures
        r == alphabetic(c),
;

/// Relies on `char::is_alphanumeric`: a pure classification of the character.
pub assume_specification[ char::is_alphanumeric ](c: char) -> (r: bool)
    ensures
        r == alphanumeric(c),
;

/// Relies on `char::is_numeric`: a pure classification of the character.
pub assume_specification[ char::is_numeric ](c: char) -> (r: bool)
    ensures
        r == numeric(c),
;

/// Relies on `char::is_whitespace`: a pure classification of the character.
pub assume_specification[ char::is_whitespace ](c: char) -> (r: bool)
    ensures
        r == whitespace(c),
;

/// Relies on `String::push`: appends exactly the given character.
pub assume_specification[ std::string::String::push ](s: &mut std::string::String, c: char)
    ensures
        final(s)@ == old(s)@.push(c),
;

/// End of an identifier/keyword run that continues at `i`: the first index at
/// or after `i` whose character is neither alphanumeric nor an underscore.
pub open spec fn ident_end(s: Seq<char>, i: int) -> int
    decreases s.len() - i when 0 <= i <= s.len()
{
    if i == s.len() {
        i
    } else if alphanumeric(s[i]) || s[i] == '_' {
        ident_end(s, i + 1)
    } else {
        i
    }
}

/// End of a number run that continues at `i`: digits, with at most one
/// decimal point in the whole literal (`seen_dot` says one was consumed).
pub open spec fn number_end(s: Seq<char>, i: int, seen_dot: bool) -> int
    decreases s.len() - i when 0 <= i <= s.len()
{
    if i == s.len() {
        i
    } else if numeric(s[i]) {
        number_end(s, i + 1, seen_dot)
    } else if s[i] == '.' && !seen_dot {
        number_end(s, i + 1, true)
    } else {
        i
    }
}

/// Index of the closing quote of a string literal whose body starts at `i`,
/// or the end of input if the literal is unterminated.
pub open spec fn string_end(s: Seq<char>, i: int) -> int
    decreases s.len() - i when 0 <= i <= s.len()
{
    if i == s.len() {
        i
    } else if s[i] == '"' {
        i
    } else {
        string_end(s, i + 1)
    }
}

/// First index after the newline that ends a comment whose body starts at
/// `i`, or the end of input.
pub open spec fn comment_end(s: Seq<char>, i: int) -> int
    decreases s.len() - i when 0 <= i <= s.len()
{
    if i == s.len() {
        i
    } else if s[i] == '\n' {
        i + 1
    } else {
        comment_end(s, i + 1)
    }
}

proof fn lemma_ident_end_bounds(s: Seq<char>, i: int)
    requires
        0 <= i <= s.len(),
    ensures
        i <= ident_end(s, i) <= s.len(),
    decreases s.len() - i,
{
    if i < s.len() && (alphanumeric(s[i]) || s[i] == '_') {
        lemma_ident_end_bounds(s, i + 1);
    }
}

proof fn lemma_number_end_bounds(s: Seq<char>, i: int, seen_dot: bool)
    requires
        0 <= i <= s.len(),
    ensures
        i <= number_end(s, i, seen_dot) <= s.len(),
    decreases s.len() - i,
{
    if i < s.len() {
        if numeric(s[i]) {
            lemma_number_end_bounds(s, i + 1, seen_dot);
        } else if s[i] == '.' && !seen_dot {
            lemma_number_end_bounds(s, i + 1, true);
        }
    }
}

proof fn lemma_string_end_bounds(s: Seq<char>, i: int)
    requires
        0 <= i <= s.len(),
    ensures
        i <= string_end(s, i) <= s.len(),
    decreases s.len() - i,
{
    if i < s.len() && s[i] != '"' {
        lemma_string_end_bounds(s, i + 1);
    }
}

proof fn lemma_comment_end_bounds(s: Seq<char>, i: int)
    requires
        0 <= i <= s.len(),
    ensures
        i < comment_end(s, i) <= s.len() || comment_end(s, i) == i == s.len(),
    decreases s.len() - i,
{
    if i < s.len() && s[i] != '\n' {
        lemma_comment_end_bounds(s, i + 1);
    }
}

/// Token kind of a character that maps directly to a one-character token.
pub open spec fn single_char_kind(c: char) -> Option<TokenType> {
    if c == '.' {
        Option::Some(TokenType::Dot)
    } else if c == ',' {
        Option::Some(TokenType::Comma)
    } else if c == '(' {
        Option::Some(TokenType::LeftParenthesis)
    } else if c == ')' {
        Option::Some(TokenType::RightParenthesis)
    } else if c == '[' {
        Option::Some(TokenType::LeftBracket)
    } else if c == ']' {
        Option::Some(TokenType::RightBracket)
    } else if c == '{' {
        Option::Some(TokenType::LeftBrace)
    } else if c == '}' {
        Option::Some(TokenType::RightBrace)
    } else if c == '?' {
        Option::Some(TokenType::QuestionMark)
    } else if c == ';' {
        Option::Some(TokenType::Semicolon)
    } else if c == '+' {
        Option::Some(TokenType::Plus)
    } else if c == '-' {
        Option::Some(TokenType::Minus)
    } else if c == '*' {
        Option::Some(TokenType::Asterisk)
    } else if c == '/' {
        Option::Some(TokenType::Slash)
    } else if c == '%' {
        Option::Some(TokenType::Percent)
    } else if c == '^' {
        Option::Some(TokenType::Caret)
    } else {
        Option::None
    }
}

/// Token for a scanned identifier-shaped word: a keyword, a boolean literal
/// (which keeps its text), or an identifier (which keeps its text).
pub open spec fn word_token(w: Seq<char>) -> TokenModel {
    if w == "let"@ {
        tok(TokenType::Let)
    } else if w == "if"@ {
        tok(TokenType::If)
    } else if w == "else"@ {
        tok(TokenType::Else)
    } else if w == "while"@ {
        tok(TokenType::While)
    } else if w == "do"@ {
        tok(TokenType::Do)
    } else if w == "in"@ {
        tok(TokenType::In)
    } else if w == "for"@ {
        tok(TokenType::For)
    } else if w == "fn"@ {
        tok(TokenType::Function)
    } else if w == "return"@ {
        tok(TokenType::Return)
    } else if w == "use"@ {
        tok(TokenType::Use)
    } else if w == "true"@ || w == "false"@ {
        TokenModel { kind: TokenType::Boolean, text: Option::Some(w) }
    } else {
        TokenModel { kind: TokenType::Identifier, text: Option::Some(w) }
    }
}

/// One scanning step at position `i`: the token it emits (`None` for
/// whitespace, comments, and a lone `&` or `|`, which are discarded), or the
/// offending character, together with the position where scanning continues.
pub open spec fn lex_step(s: Seq<char>, i: int) -> (Result<Option<TokenModel>, char>, int)
    recommends
        0 <= i < s.len(),
{
    let c = s[i];
    if single_char_kind(c) is Some {
        (Ok(Option::Some(tok(single_char_kind(c)->Some_0))), i + 1)
    } else if c == '!' {
        if i + 1 < s.len() && s[i + 1] == '=' {
            (Ok(Option::Some(tok(TokenType::BangEqual))), i + 2)
        } else {
            (Ok(Option::Some(tok(TokenType::Bang))), i + 1)
        }
    } else if c == '=' {
        if i + 1 < s.len() && s[i + 1] == '=' {
            (Ok(Option::Some(tok(TokenType::EqualEqual))), i + 2)
        } else {
            (Ok(Option::Some(tok(TokenType::Equal))), i + 1)
        }
    } else if c == '>' {
        if i + 1 < s.len() && s[i + 1] == '=' {
            (Ok(Option::Some(tok(TokenType::GreaterEqual))), i + 2)
        } else {
            (Ok(Option::Some(tok(TokenType::Greater))), i + 1)
        }
    } else if c == '<' {
        if i + 1 < s.len() && s[i + 1] == '=' {
            (Ok(Option::Some(tok(TokenType::LessEqual))), i + 2)
        } else {
            (Ok(Option::Some(tok(TokenType::Less))), i + 1)
        }
    } else if c == '&' {
        if i + 1 < s.len() && s[i + 1] == '&' {
            (Ok(Option::Some(tok(TokenType::And))), i + 2)
        } else {
            (Ok(Option::None), i + 1)
        }
    } else if c == '|' {
        if i + 1 < s.len() && s[i + 1] == '|' {
            (Ok(Option::Some(tok(TokenType::Or))), i + 2)
        } else {
            (Ok(Option::None), i + 1)
        }
    } else if c == '"' {
        let e = string_end(s, i + 1);
        (
            Ok(Option::Some(TokenModel { kind: TokenType::String, text: Option::Some(s.subrange(i + 1, e)) })),
            if e < s.len() { e + 1 } else { e },
        )
    } else if c == '#' {
        (Ok(Option::None), comment_end(s, i + 1))
    } else if alphabetic(c) || c == '_' {
        let e = ident_end(s, i + 1);
        (Ok(Option::Some(word_token(s.subrange(i, e)))), e)
    } else if numeric(c) {
        let e = number_end(s, i + 1, false);
        (Ok(Option::Some(TokenModel { kind: TokenType::Number, text: Option::Some(s.subrange(i, e)) })), e)
    } else if whitespace(c) {
        (Ok(Option::None), i + 1)
    } else {
        (Err(c), i + 1)
    }
}

/// The token sequence produced from position `i` on, or the first character
/// that matches no scanning rule. The sequence always ends with exactly one
/// end-of-input token.
pub open spec fn spec_lex_from(s: Seq<char>, i: int) -> Result<Seq<TokenModel>, char>
    decreases s.len() - i when 0 <= i <= s.len()
{
    if i == s.len() {
        Ok(seq![tok(TokenType::EOF)])
    } else {
        let (step, next) = lex_step(s, i);
        let j = if i < next <= s.len() { next } else { i + 1 };
        match step {
            Err(c) => Err(c),
            Ok(opt) => match spec_lex_from(s, j) {
                Err(c) => Err(c),
                Ok(rest) => Ok(
                    match opt {
                        Option::Some(t) => seq![t] + rest,
                        Option::None => rest,
                    },
                ),
            },
        }
    }
}

/// What tokenizing a whole source text yields.
pub open spec fn spec_lex(s: Seq<char>) -> Result<Seq<TokenModel>, char> {
    spec_lex_from(s, 0)
}

/// The position a scanning step continues at is strictly beyond the one it
/// read, and within the input.
proof fn lemma_lex_step_next(s: Seq<char>, i: int)
    requires
        0 <= i < s.len(),
    ensures
        i < lex_step(s, i).1 <= s.len(),
{
    lemma_string_end_bounds(s, i + 1);
    lemma_comment_end_bounds(s, i + 1);
    lemma_ident_end_bounds(s, i + 1);
    lemma_number_end_bounds(s, i + 1, false);
}

/// Saturating addition on `usize`, used only for diagnostic positions.
fn sat_add(a: usize, b: usize) -> (r: usize)
    ensures
        r == if a + b <= usize::MAX { a + b } else { usize::MAX as int },
{
    if a <= usize::MAX - b {
        a + b
    } else {
        usize::MAX
    }
}

/// Character-wise string equality, decided on the views.
pub(crate) fn str_eq(a: &str, b: &str) -> (r: bool)
    ensures
        r == (a@ == b@),
{
    let n = a.unicode_len();
    if n != b.unicode_len() {
        return false;
    }
    let mut k: usize = 0;
    while k < n
        invariant
            0 <= k <= n,
            n == a@.len(),
            n == b@.len(),
            forall|m: int| 0 <= m < k ==> a@[m] == b@[m],
        decreases n - k,
    {
        if a.get_char(k) != b.get_char(k) {
            return false;
        }
        k += 1;
    }
    proof {
        assert(a@ =~= b@);
    }
    true
}

/// Whether `c` can start an identifier or keyword.
fn is_word_start(c: char) -> (r: bool)
    ensures
        r == (alphabetic(c) || c == '_'),
{
    c.is_alphabetic() || c == '_'
}

/// Whether `c` can continue an identifier or keyword.
fn is_word_continue(c: char) -> (r: bool)
    ensures
        r == (alphanumeric(c) || c == '_'),
{
    c.is_alphanumeric() || c == '_'
}

/// The one-character token `c` maps to, if any.
fn single_kind(c: char) -> (r: Option<TokenType>)
    ensures
        r == single_char_kind(c),
{
    if c == '.' {
        Option::Some(TokenType::Dot)
    } else if c == ',' {
        Option::Some(TokenType::Comma)
    } else if c == '(' {
        Option::Some(TokenType::LeftParenthesis)
    } else if c == ')' {
        Option::Some(TokenType::RightParenthesis)
    } else if c == '[' {
        Option::Some(TokenType::LeftBracket)
    } else if c == ']' {
        Option::Some(TokenType::RightBracket)
    } else if c == '{' {
        Option::Some(TokenType::LeftBrace)
    } else if c == '}' {
        Option::Some(TokenType::RightBrace)
    } else if c == '?' {
        Option::Some(TokenType::QuestionMark)
    } else if c == ';' {
        Option::Some(TokenType::Semicolon)
    } else if c == '+' {
        Option::Some(TokenType::Plus)
    } else if c == '-' {
        Option::Some(TokenType::Minus)
    } else if c == '*' {
        Option::Some(TokenType::Asterisk)
    } else if c == '/' {
        Option::Some(TokenType::Slash)
    } else if c == '%' {
        Option::Some(TokenType::Percent)
    } else if c == '^' {
        Option::Some(TokenType::Caret)
    } else {
        Option::None
    }
}

/// The scanner: owns the source text and the token sequence it builds.
pub struct Lexer {
    pub tokens: Vec<Token>,
    pub source: Vec<char>,
    pub row: usize,
    pub col: usize,
}

impl Lexer {
    /// The source text, as a character sequence.
    pub open spec fn src(&self) -> Seq<char> {
        self.source@
    }
}

impl Default for Lexer {
    fn default() -> (l: Self)
        ensures
            l.tokens@ == Seq::<Token>::empty(),
            l.src() == Seq::<char>::empty(),
    {
        let l = Lexer { tokens: Vec::new(), source: Vec::new(), row: 1, col: 1 };
        proof {
            assert(l.tokens@ =~= Seq::<Token>::empty());
            assert(l.src() =~= Seq::<char>::empty());
        }
        l
    }
}

impl Lexer {
    /// A fresh scanner over the given source text, with no tokens yet.
    pub fn new(source: &str) -> (l: Lexer)
        ensures
            l.src() == source@,
            l.tokens@ == Seq::<Token>::empty(),
    {
        let n = source.unicode_len();
        let mut chars: Vec<char> = Vec::new();
        let mut k: usize = 0;
        while k < n
            invariant
                0 <= k <= n,
                n == source@.len(),
                chars@ == source@.subrange(0, k as int),
            decreases n - k,
        {
            chars.push(source.get_char(k));
            proof {
                assert(chars@ =~= source@.subrange(0, k + 1));
            }
            k += 1;
        }
        let l = Lexer { tokens: Vec::new(), source: chars, row: 1, col: 1 };
        proof {
            assert(l.src() =~= source@);
            assert(l.tokens@ =~= Seq::<Token>::empty());
        }
        l
    }
}

/// The token models of an optional token.
pub open spec fn opt_view(o: Option<Token>) -> Option<TokenModel> {
    match o {
        Option::Some(t) => Option::Some(t@),
        Option::None => Option::None,
    }
}

/// Scanning has reached position `i` having emitted exactly `done`: whatever
/// the rest of the input yields, the whole input yields `done` followed by it.
pub open spec fn lex_decomposes(s: Seq<char>, done: Seq<TokenModel>, i: int) -> bool {
    match spec_lex_from(s, i) {
        Ok(rest) => spec_lex_from(s, 0) == Ok::<Seq<TokenModel>, char>(done + rest),
        Err(c) => spec_lex_from(s, 0) == Err::<Seq<TokenModel>, char>(c),
    }
}

proof fn lemma_views_push(ts: Seq<Token>, t: Token)
    ensures
        views(ts.push(t)) == views(ts).push(t@),
{
    assert(views(ts.push(t)) =~= views(ts).push(t@));
}

/// Taking one scanning step preserves the decomposition: the emitted token
/// (if any) joins `done`, or the step's error is the whole input's error.
proof fn lemma_lex_advance(s: Seq<char>, done: Seq<TokenModel>, i: int)
    requires
        0 <= i < s.len(),
        lex_decomposes(s, done, i),
    ensures
        ({
            let (st, nx) = lex_step(s, i);
            match st {
                Ok(opt) => lex_decomposes(
                    s,
                    match opt {
                        Option::Some(t) => done.push(t),
                        Option::None => done,
                    },
                    nx,
                ),
                Err(c) => spec_lex_from(s, 0) == Err::<Seq<TokenModel>, char>(c),
            }
        }),
{
    lemma_lex_step_next(s, i);
    let (st, nx) = lex_step(s, i);
    assert(0 <= nx <= s.len());
    match st {
        Ok(opt) => {
            match spec_lex_from(s, nx) {
                Ok(rest) => {
                    match opt {
                        Option::Some(t) => {
                            assert(done + (seq![t] + rest) =~= done.push(t) + rest);
                        },
                        Option::None => {},
                    }
                },
                Err(_) => {},
            }
        },
        Err(_) => {},
    }
}

impl Lexer {
    /// Scan the whole source, appending its tokens (ended by exactly one
    /// end-of-input token) to `tokens`, or report the first character that
    /// matches no scanning rule. The result is exactly what [`spec_lex`]
    /// says of the source text.
    pub fn tokenize(&mut self) -> (r: Result<(), LexError>)
        ensures
            final(self).src() == old(self).src(),
            spec_lex(old(self).src()) matches Ok(ts) ==> (r is Ok
                && views(final(self).tokens@) == views(old(self).tokens@) + ts),
            spec_lex(old(self).src()) matches Err(c) ==> (r matches Err(e) && e.ch == c),
    {
        let ghost src = self.src();
        let ghost init = views(self.tokens@);
        let n = self.source.len();
        let mut i: usize = 0;
        let ghost mut done: Seq<TokenModel> = Seq::<TokenModel>::empty();
        proof {
            assert(init + done =~= init);
        }
        while i < n
            invariant
                src == old(self).src(),
                init == views(old(self).tokens@),
                n == src.len(),
                self.source@ == src,
                0 <= i <= n,
                views(self.tokens@) == init + done,
                lex_decomposes(src, done, i as int),
            decreases n - i,
        {
            let c = self.source[i];
            let tok_opt: Option<Token>;
            let j: usize;
            let sk = single_kind(c);
            if sk.is_some() {
                let k = sk.unwrap();
                tok_opt = Option::Some(Token { token_type: k, token_name: Option::None });
                j = i + 1;
                self.col = sat_add(self.col, 1);
            } else if c == '!' {
                if i + 1 < n && self.source[i + 1] == '=' {
                    tok_opt = Option::Some(Token { token_type: TokenType::BangEqual, token_name: Option::None });
                    j = i + 2;
                } else {
                    tok_opt = Option::Some(Token { token_type: TokenType::Bang, token_name: Option::None });
                    j = i + 1;
                }
                self.col = sat_add(self.col, j - i);
            } else if c == '=' {
                if i + 1 < n && self.source[i + 1] == '=' {
                    tok_opt = Option::Some(Token { token_type: TokenType::EqualEqual, token_name: Option::None });
                    j = i + 2;
                } else {
                    tok_opt = Option::Some(Token { token_type: TokenType::Equal, token_name: Option::None });
                    j = i + 1;
                }
                self.col = sat_add(self.col, j - i);
            } else if c == '>' {
                if i + 1 < n && self.source[i + 1] == '=' {
                    tok_opt = Option::Some(Token { token_type: TokenType::GreaterEqual, token_name: Option::None });
                    j = i + 2;
                } else {
                    tok_opt = Option::Some(Token { token_type: TokenType::Greater, token_name: Option::None });
                    j = i + 1;
                }
                self.col = sat_add(self.col, j - i);
            } else if c == '<' {
                if i + 1 < n && self.source[i + 1] == '=' {
                    tok_opt = Option::Some(Token { token_type: TokenType::LessEqual, token_name: Option::None });
                    j = i + 2;
                } else {
                    tok_opt = Option::Some(Token { token_type: TokenType::Less, token_name: Option::None });
                    j = i + 1;
                }
                self.col = sat_add(self.col, j - i);
            } else if c == '&' {
                // A lone `&` is silently discarded, as the scanning rules say.
                if i + 1 < n && self.source[i + 1] == '&' {
                    tok_opt = Option::Some(Token { token_type: TokenType::And, token_name: Option::None });
                    j = i + 2;
                } else {
                    tok_opt = Option::None;
                    j = i + 1;
                }
                self.col = sat_add(self.col, j - i);
            } else if c == '|' {
                // A lone `|` is silently discarded, as the scanning rules say.
                if i + 1 < n && self.source[i + 1] == '|' {
                    tok_opt = Option::Some(Token { token_type: TokenType::Or, token_name: Option::None });
                    j = i + 2;
                } else {
                    tok_opt = Option::None;
                    j = i + 1;
                }
                self.col = sat_add(self.col, j - i);
            } else if c == '"' {
                let mut j2: usize = i + 1;
                let mut buffer = String::new();
                while j2 < n && self.source[j2] != '"'
                    invariant
                        i + 1 <= j2 <= n,
                        n == src.len(),
                        self.source@ == src,
                        string_end(src, i + 1) == string_end(src, j2 as int),
                        buffer@ == src.subrange(i + 1, j2 as int),
                    decreases n - j2,
                {
                    proof {
                        assert(string_end(src, j2 as int) == string_end(src, j2 + 1));
                    }
                    buffer.push(self.source[j2]);
                    proof {
                        assert(buffer@ =~= src.subrange(i + 1, j2 + 1));
                    }
                    j2 += 1;
                }
                proof {
                    assert(string_end(src, j2 as int) == j2);
                }
                tok_opt = Option::Some(Token { token_type: TokenType::String, token_name: Option::Some(buffer) });
                j = if j2 < n { j2 + 1 } else { j2 };
                self.col = sat_add(self.col, j - i);
            } else if c == '#' {
                let mut j2: usize = i + 1;
                while j2 < n && self.source[j2] != '\n'
                    invariant
                        i + 1 <= j2 <= n,
                        n == src.len(),
                        self.source@ == src,
                        comment_end(src, i + 1) == comment_end(src, j2 as int),
                    decreases n - j2,
                {
                    proof {
                        assert(comment_end(src, j2 as int) == comment_end(src, j2 + 1));
                    }
                    j2 += 1;
                }
                tok_opt = Option::None;
                j = if j2 < n { j2 + 1 } else { j2 };
                proof {
                    assert(comment_end(src, j2 as int) == j as int);
                }
                self.row = sat_add(self.row, 1);
                self.col = 1;
            } else if is_word_start(c) {
                let mut j2: usize = i + 1;
                while j2 < n && is_word_continue(self.source[j2])
                    invariant
                        i + 1 <= j2 <= n,
                        n == src.len(),
                        self.source@ == src,
                        ident_end(src, i + 1) == ident_end(src, j2 as int),
                    decreases n - j2,
                {
                    proof {
                        assert(ident_end(src, j2 as int) == ident_end(src, j2 + 1));
                    }
                    j2 += 1;
                }
                proof {
                    assert(ident_end(src, j2 as int) == j2);
                }
                let mut buffer = String::new();
                let mut k: usize = i;
                while k < j2
                    invariant
                        i <= k <= j2 <= n,
                        n == src.len(),
                        self.source@ == src,
                        buffer@ == src.subrange(i as int, k as int),
                    decreases j2 - k,
                {
                    buffer.push(self.source[k]);
                    proof {
                        assert(buffer@ =~= src.subrange(i as int, k + 1));
                    }
                    k += 1;
                }
                let t: Token = if str_eq(buffer.as_str(), "let") {
                    Token { token_type: TokenType::Let, token_name: Option::None }
                } else if str_eq(buffer.as_str(), "if") {
                    Token { token_type: TokenType::If, token_name: Option::None }
                } else if str_eq(buffer.as_str(), "else") {
                    Token { token_type: TokenType::Else, token_name: Option::None }
                } else if str_eq(buffer.as_str(), "while") {
                    Token { token_type: TokenType::While, token_name: Option::None }
                } else if str_eq(buffer.as_str(), "do") {
                    Token { token_type: TokenType::Do, token_name: Option::None }
                } else if str_eq(buffer.as_str(), "in") {
                    Token { token_type: TokenType::In, token_name: Option::None }
                } else if str_eq(buffer.as_str(), "for") {
                    Token { token_type: TokenType::For, token_name: Option::None }
                } else if str_eq(buffer.as_str(), "fn") {
                    Token { token_type: TokenType::Function, token_name: Option::None }
                } else if str_eq(buffer.as_str(), "return") {
                    Token { token_type: TokenType::Return, token_name: Option::None }
                } else if str_eq(buffer.as_str(), "use") {
                    Token { token_type: TokenType::Use, token_name: Option::None }
                } else if str_eq(buffer.as_str(), "true") || str_eq(buffer.as_str(), "false") {
                    Token { token_type: TokenType::Boolean, token_name: Option::Some(buffer) }
                } else {
                    Token { token_type: TokenType::Identifier, token_name: Option::Some(buffer) }
                };
                proof {
                    assert(t@ == word_token(src.subrange(i as int, j2 as int)));
                }
                tok_opt = Option::Some(t);
                j = j2;
                self.col = sat_add(self.col, j - i);
            } else if c.is_numeric() {
                let mut j2: usize = i + 1;
                let mut seen_dot = false;
                while j2 < n && (self.source[j2].is_numeric() || (self.source[j2] == '.' && !seen_dot))
                    invariant
                        i + 1 <= j2 <= n,
                        n == src.len(),
                        self.source@ == src,
                        number_end(src, i + 1, false) == number_end(src, j2 as int, seen_dot),
                    decreases n - j2,
                {
                    let d = self.source[j2];
                    proof {
                        if numeric(d) {
                            assert(number_end(src, j2 as int, seen_dot) == number_end(src, j2 + 1, seen_dot));
                        } else {
                            assert(number_end(src, j2 as int, seen_dot) == number_end(src, j2 + 1, true));
                        }
                    }
                    if !d.is_numeric() {
                        seen_dot = true;
                    }
                    j2 += 1;
                }
                proof {
                    assert(number_end(src, j2 as int, seen_dot) == j2);
                }
                let mut buffer = String::new();
                let mut k: usize = i;
                while k < j2
                    invariant
                        i <= k <= j2 <= n,
                        n == src.len(),
                        self.source@ == src,
                        buffer@ == src.subrange(i as int, k as int),
                    decreases j2 - k,
                {
                    buffer.push(self.source[k]);
                    proof {
                        assert(buffer@ =~= src.subrange(i as int, k + 1));
                    }
                    k += 1;
                }
                tok_opt = Option::Some(Token { token_type: TokenType::Number, token_name: Option::Some(buffer) });
                j = j2;
                self.col = sat_add(self.col, j - i);
            } else if c.is_whitespace() {
                tok_opt = Option::None;
                j = i + 1;
                if c == '\n' {
                    self.row = sat_add(self.row, 1);
                    self.col = 1;
                } else {
                    self.col = sat_add(self.col, 1);
                }
            } else {
                proof {
                    assert(lex_step(src, i as int).0 == Err::<Option<TokenModel>, char>(c));
                    lemma_lex_advance(src, done, i as int);
                    assert(spec_lex(src) == Err::<Seq<TokenModel>, char>(c));
                }
                return Err(LexError { row: self.row, col: self.col, ch: c });
            }
            proof {
                assert(lex_step(src, i as int) == (
                    Ok::<Option<TokenModel>, char>(opt_view(tok_opt)),
                    j as int,
                ));
                lemma_lex_advance(src, done, i as int);
            }
            match tok_opt {
                Option::Some(t) => {
                    proof {
                        lemma_views_push(self.tokens@, t);
                        done = done.push(t@);
                        assert(views(self.tokens@).push(t@) =~= init + done);
                    }
                    self.tokens.push(t);
                },
                Option::None => {},
            }
            i = j;
        }
        let eof_token = Token { token_type: TokenType::EOF, token_name: Option::None };
        proof {
            assert(spec_lex_from(src, n as int) == Ok::<Seq<TokenModel>, char>(seq![tok(TokenType::EOF)]));
            assert(spec_lex(src) == Ok::<Seq<TokenModel>, char>(done + seq![tok(TokenType::EOF)]));
            lemma_views_push(self.tokens@, eof_token);
            assert(views(self.tokens@).push(tok(TokenType::EOF)) =~= init + (done + seq![tok(TokenType::EOF)]));
        }
        self.tokens.push(eof_token);
        Ok(())
    }
}

/// The printable text of a token kind: the operator or punctuation itself,
/// the keyword, or the name of a literal category.
pub open spec fn spec_symbol(k: TokenType) -> Seq<char> {
    match k {
        TokenType::Dot => "."@,
        TokenType::Comma => ","@,
        TokenType::LeftParenthesis => "("@,
        TokenType::RightParenthesis => ")"@,
        TokenType::LeftBracket => "["@,
        TokenType::RightBracket => "]"@,
        TokenType::LeftBrace => "{"@,
        TokenType::RightBrace => "}"@,
        TokenType::QuestionMark => "?"@,
        TokenType::Semicolon => ";"@,
        TokenType::Bang => "!"@,
        TokenType::Plus => "+"@,
        TokenType::Minus => "-"@,
        TokenType::Asterisk => "*"@,
        TokenType::Slash => "/"@,
        TokenType::Percent => "%"@,
        TokenType::Caret => "^"@,
        TokenType::If => "if"@,
        TokenType::While => "while"@,
        TokenType::Do => "do"@,
        TokenType::Else => "else"@,
        TokenType::For => "for"@,
        TokenType::In => "in"@,
        TokenType::Let => "let"@,
        TokenType::Function => "function"@,
        TokenType::Return => "return"@,
        TokenType::Use => "use"@,
        TokenType::Identifier => "identifier"@,
        TokenType::Number => "number"@,
        TokenType::String => "string"@,
        TokenType::Boolean => "boolean"@,
        TokenType::Equal => "="@,
        TokenType::EqualEqual => "=="@,
        TokenType::Greater => ">"@,
        TokenType::Less => "<"@,
        TokenType::GreaterEqual => ">="@,
        TokenType::LessEqual => "<="@,
        TokenType::BangEqual => "!="@,
        TokenType::And => "&&"@,
        TokenType::Or => "||"@,
        TokenType::EOF => "EOF"@,
    }
}

impl TokenType {
    /// The printable text of this kind, for diagnostics.
    pub fn symbol(&self) -> (r: String)
        ensures
            r@ == spec_symbol(*self),
    {
        match self {
            TokenType::Dot => String::from_str("."),
            TokenType::Comma => String::from_str(","),
            TokenType::LeftParenthesis => String::from_str("("),
            TokenType::RightParenthesis => String::from_str(")"),
            TokenType::LeftBracket => String::from_str("["),
            TokenType::RightBracket => String::from_str("]"),
            TokenType::LeftBrace => String::from_str("{"),
            TokenType::RightBrace => String::from_str("}"),
            TokenType::QuestionMark => String::from_str("?"),
            TokenType::Semicolon => String::from_str(";"),
            TokenType::Bang => String::from_str("!"),
            TokenType::Plus => String::from_str("+"),
            TokenType::Minus => String::from_str("-"),
            TokenType::Asterisk => String::from_str("*"),
            TokenType::Slash => String::from_str("/"),
            TokenType::Percent => String::from_str("%"),
            TokenType::Caret => String::from_str("^"),
            TokenType::If => String::from_str("if"),
            TokenType::While => String::from_str("while"),
            TokenType::Do => String::from_str("do"),
            TokenType::Else => String::from_str("else"),
            TokenType::For => String::from_str("for"),
            TokenType::In => String::from_str("in"),
            TokenType::Let => String::from_str("let"),
            TokenType::Function => String::from_str("function"),
            TokenType::Return => String::from_str("return"),
            TokenType::Use => String::from_str("use"),
            TokenType::Identifier => String::from_str("identifier"),
            TokenType::Number => String::from_str("number"),
            TokenType::String => String::from_str("string"),
            TokenType::Boolean => String::from_str("boolean"),
            TokenType::Equal => String::from_str("="),
            TokenType::EqualEqual => String::from_str("=="),
            TokenType::Greater => String::from_str(">"),
            TokenType::Less => String::from_str("<"),
            TokenType::GreaterEqual => String::from_str(">="),
            TokenType::LessEqual => String::from_str("<="),
            TokenType::BangEqual => String::from_str("!="),
            TokenType::And => String::from_str("&&"),
            TokenType::Or => String::from_str("||"),
            TokenType::EOF => String::from_str("EOF"),
        }
    }
}

/// A token of a literal or name category carries its lexeme.
pub open spec fn token_has_payload(t: TokenModel) -> bool {
    (t.kind == TokenType::Identifier || t.kind == TokenType::Number || t.kind == TokenType::String
        || t.kind == TokenType::Boolean) ==> t.text is Some
}

/// Shape of every successful scan: at least one token, the last and only the
/// last is end-of-input, and every literal or name token carries its lexeme.
pub open spec fn token_seq_wf(ts: Seq<TokenModel>) -> bool {
    &&& ts.len() >= 1
    &&& ts[ts.len() - 1].kind == TokenType::EOF
    &&& forall|k: int| 0 <= k < ts.len() - 1 ==> (#[trigger] ts[k]).kind != TokenType::EOF
    &&& forall|k: int| 0 <= k < ts.len() ==> token_has_payload(#[trigger] ts[k])
}

/// Law: whatever the input, a successful scan ends in exactly one
/// end-of-input token and gives every literal and name token its lexeme.
pub proof fn lemma_lex_wf(s: Seq<char>, i: int)
    requires
        0 <= i <= s.len(),
    ensures
        spec_lex_from(s, i) matches Ok(ts) ==> token_seq_wf(ts),
    decreases s.len() - i,
{
    if i < s.len() {
        lemma_lex_step_next(s, i);
        let (st, nx) = lex_step(s, i);
        match st {
            Ok(opt) => {
                lemma_lex_wf(s, nx);
                match spec_lex_from(s, nx) {
                    Ok(rest) => {
                        match opt {
                            Option::Some(t) => {
                                assert(t.kind != TokenType::EOF && token_has_payload(t));
                                let all = seq![t] + rest;
                                assert(all[0] == t);
                                assert(forall|k: int| 1 <= k < all.len() ==> #[trigger] all[k] == rest[k - 1]);
                                assert(token_seq_wf(all));
                            },
                            Option::None => {},
                        }
                    },
                    Err(_) => {},
                }
            },
            Err(_) => {},
        }
    }
}

/// Kind of the token that a lone character yields, if it yields one.
pub open spec fn lone_token_kind(c: char) -> Option<TokenType> {
    if single_char_kind(c) is Some {
        single_char_kind(c)
    } else if c == '!' {
        Option::Some(TokenType::Bang)
    } else if c == '=' {
        Option::Some(TokenType::Equal)
    } else if c == '>' {
        Option::Some(TokenType::Greater)
    } else if c == '<' {
        Option::Some(TokenType::Less)
    } else {
        Option::None
    }
}

/// Law: a valid one-character punctuation or operator input tokenizes to
/// exactly one token of the matching kind, plus end-of-input.
pub proof fn lemma_single_char_input(c: char)
    requires
        lone_token_kind(c) is Some,
    ensures
        spec_lex(seq![c]) == Ok::<Seq<TokenModel>, char>(
            seq![tok(lone_token_kind(c)->Some_0), tok(TokenType::EOF)],
        ),
{
    let s = seq![c];
    assert(s.len() == 1 && s[0] == c);
    assert(spec_lex_from(s, 1) == Ok::<Seq<TokenModel>, char>(seq![tok(TokenType::EOF)]));
    assert(seq![tok(lone_token_kind(c)->Some_0)] + seq![tok(TokenType::EOF)] =~= seq![
        tok(lone_token_kind(c)->Some_0),
        tok(TokenType::EOF),
    ]);
}

/// Law: the empty input tokenizes to exactly one end-of-input token.
pub proof fn lemma_empty_input()
    ensures
        spec_lex(Seq::<char>::empty()) == Ok::<Seq<TokenModel>, char>(seq![tok(TokenType::EOF)]),
{
}

/// Kind of the combined token that a two-character operator yields.
pub open spec fn pair_token_kind(a: char, b: char) -> Option<TokenType> {
    if a == '=' && b == '=' {
        Option::Some(TokenType::EqualEqual)
    } else if a == '!' && b == '=' {
        Option::Some(TokenType::BangEqual)
    } else if a == '>' && b == '=' {
        Option::Some(TokenType::GreaterEqual)
    } else if a == '<' && b == '=' {
        Option::Some(TokenType::LessEqual)
    } else if a == '&' && b == '&' {
        Option::Some(TokenType::And)
    } else if a == '|' && b == '|' {
        Option::Some(TokenType::Or)
    } else {
        Option::None
    }
}

/// Law: a two-character operator input tokenizes to exactly one combined
/// token, not two one-character tokens, plus end-of-input.
pub proof fn lemma_two_char_operator(a: char, b: char)
    requires
        pair_token_kind(a, b) is Some,
    ensures
        spec_lex(seq![a, b]) == Ok::<Seq<TokenModel>, char>(
            seq![tok(pair_token_kind(a, b)->Some_0), tok(TokenType::EOF)],
        ),
{
    let s = seq![a, b];
    assert(s.len() == 2 && s[0] == a && s[1] == b);
    assert(spec_lex_from(s, 2) == Ok::<Seq<TokenModel>, char>(seq![tok(TokenType::EOF)]));
    assert(seq![tok(pair_token_kind(a, b)->Some_0)] + seq![tok(TokenType::EOF)] =~= seq![
        tok(pair_token_kind(a, b)->Some_0),
        tok(TokenType::EOF),
    ]);
}

} // verus!
