//! Turns source text into tokens.
//!
//! The lexer is [`tokenize_chars`], which works on the source's characters
//! together with what the Unicode tables say of each ([`CharInfo`]) and is
//! specified by [`spec_tokenize`]. [`tokenize`] reads a `String`, asks the
//! tables, and hands both to it.

use vstd::prelude::*;
use crate::chars::{alphabetic, char_width, char_is_whitespace, char_is_alphabetic, push_char, table_width, white_space};

verus! {

/// A literal as written in the source.
#[derive(Debug, PartialEq)]
pub enum Literal {
    Identifier(String),
    String(String),
    /// A number, kept as the text that spells it: digits, optionally followed
    /// by a `.` and more digits.
    Number(String),
    Boolean(bool),
    Nil,
}

/// The kind of a token.
#[derive(Debug, PartialEq)]
pub enum TokenType {
    // Single-character tokens.
    LeftParenthesis,
    RightParenthesis,
    LeftBrace,
    RightBrace,
    Comma,
    Dot,
    Minus,
    Plus,
    Semicolon,
    Slash,
    Star,
    // One or two character tokens.
    Bang,
    BangEqual,
    Equal,
    EqualEqual,
    Greater,
    GreaterEqual,
    Less,
    LessEqual,
    // Literals.
    Literal(Literal),
    // Keywords.
    And,
    Class,
    Else,
    Fun,
    For,
    If,
    Or,
    Print,
    Return,
    Super,
    This,
    Var,
    While,
    // End of input.
    Eof,
}

/// Why the source could not be tokenized; the two numbers are the line and
/// the column where the offending token starts.
#[derive(Debug, PartialEq)]
pub enum TokenizerError {
    BadChar(char, usize, usize),
    UnterminatedStringLiteral(usize, usize),
    UnterminatedBlockComment(usize, usize),
    InvalidNumberLiteral(String, usize, usize),
}

/// A token: its kind, the source text it was read from, and the line and
/// column where it starts.
#[derive(Debug, PartialEq)]
pub struct Token {
    pub token_type: TokenType,
    pub lexeme: String,
    pub line: usize,
    pub col: usize,
}

// ---------------------------------------------------------------------------
// Mathematical models of the token types: strings become sequences of chars.
// ---------------------------------------------------------------------------

/// A literal, its strings taken as sequences of characters.
pub enum LiteralModel {
    Identifier(Seq<char>),
    String(Seq<char>),
    Number(Seq<char>),
    Boolean(bool),
    Nil,
}

/// A token kind, its literal's strings taken as sequences of characters.
pub enum TokenTypeModel {
    LeftParenthesis,
    RightParenthesis,
    LeftBrace,
    RightBrace,
    Comma,
    Dot,
    Minus,
    Plus,
    Semicolon,
    Slash,
    Star,
    Bang,
    BangEqual,
    Equal,
    EqualEqual,
    Greater,
    GreaterEqual,
    Less,
    LessEqual,
    Literal(LiteralModel),
    And,
    Class,
    Else,
    Fun,
    For,
    If,
    Or,
    Print,
    Return,
    Super,
    This,
    Var,
    While,
    Eof,
}

/// A tokenizer error, with its text as a sequence of characters.
pub enum TokenizerErrorModel {
    BadChar(char, nat, nat),
    UnterminatedStringLiteral(nat, nat),
    UnterminatedBlockComment(nat, nat),
    InvalidNumberLiteral(Seq<char>, nat, nat),
}

/// A token, its text as a sequence of characters.
pub struct TokenModel {
    pub token_type: TokenTypeModel,
    pub lexeme: Seq<char>,
    pub line: nat,
    pub col: nat,
}

impl View for Literal {
    type V = LiteralModel;

    open spec fn view(&self) -> LiteralModel {
        match self {
            Literal::Identifier(s) => LiteralModel::Identifier(s@),
            Literal::String(s) => LiteralModel::String(s@),
            Literal::Number(s) => LiteralModel::Number(s@),
            Literal::Boolean(b) => LiteralModel::Boolean(*b),
            Literal::Nil => LiteralModel::Nil,
        }
    }
}

impl View for TokenType {
    type V = TokenTypeModel;

    open spec fn view(&self) -> TokenTypeModel {
        match self {
            TokenType::LeftParenthesis => TokenTypeModel::LeftParenthesis,
            TokenType::RightParenthesis => TokenTypeModel::RightParenthesis,
            TokenType::LeftBrace => TokenTypeModel::LeftBrace,
            TokenType::RightBrace => TokenTypeModel::RightBrace,
            TokenType::Comma => TokenTypeModel::Comma,
            TokenType::Dot => TokenTypeModel::Dot,
            TokenType::Minus => TokenTypeModel::Minus,
            TokenType::Plus => TokenTypeModel::Plus,
            TokenType::Semicolon => TokenTypeModel::Semicolon,
            TokenType::Slash => TokenTypeModel::Slash,
            TokenType::Star => TokenTypeModel::Star,
            TokenType::Bang => TokenTypeModel::Bang,
            TokenType::BangEqual => TokenTypeModel::BangEqual,
            TokenType::Equal => TokenTypeModel::Equal,
            TokenType::EqualEqual => TokenTypeModel::EqualEqual,
            TokenType::Greater => TokenTypeModel::Greater,
            TokenType::GreaterEqual => TokenTypeModel::GreaterEqual,
            TokenType::Less => TokenTypeModel::Less,
            TokenType::LessEqual => TokenTypeModel::LessEqual,
            TokenType::Literal(l) => TokenTypeModel::Literal(l@),
            TokenType::And => TokenTypeModel::And,
            TokenType::Class => TokenTypeModel::Class,
            TokenType::Else => TokenTypeModel::Else,
            TokenType::Fun => TokenTypeModel::Fun,
            TokenType::For => TokenTypeModel::For,
            TokenType::If => TokenTypeModel::If,
            TokenType::Or => TokenTypeModel::Or,
            TokenType::Print => TokenTypeModel::Print,
            TokenType::Return => TokenTypeModel::Return,
            TokenType::Super => TokenTypeModel::Super,
            TokenType::This => TokenTypeModel::This,
            TokenType::Var => TokenTypeModel::Var,
            TokenType::While => TokenTypeModel::While,
            TokenType::Eof => TokenTypeModel::Eof,
        }
    }
}

impl View for TokenizerError {
    type V = TokenizerErrorModel;

    open spec fn view(&self) -> TokenizerErrorModel {
        match self {
            TokenizerError::BadChar(c, l, k) => TokenizerErrorModel::BadChar(*c, *l as nat, *k as nat),
            TokenizerError::UnterminatedStringLiteral(l, k) =>
                TokenizerErrorModel::UnterminatedStringLiteral(*l as nat, *k as nat),
            TokenizerError::UnterminatedBlockComment(l, k) =>
                TokenizerErrorModel::UnterminatedBlockComment(*l as nat, *k as nat),
            TokenizerError::InvalidNumberLiteral(s, l, k) =>
                TokenizerErrorModel::InvalidNumberLiteral(s@, *l as nat, *k as nat),
        }
    }
}

impl View for Token {
    type V = TokenModel;

    open spec fn view(&self) -> TokenModel {
        TokenModel {
            token_type: self.token_type@,
            lexeme: self.lexeme@,
            line: self.line as nat,
            col: self.col as nat,
        }
    }
}

/// The models of a sequence of tokens.
pub open spec fn tokens_model(ts: Seq<Token>) -> Seq<TokenModel> {
    ts.map_values(|t: Token| t@)
}

impl Clone for Literal {
    fn clone(&self) -> (r: Self)
        ensures
            r == *self,
    {
        match self {
            Literal::Identifier(s) => Literal::Identifier(s.clone()),
            Literal::String(s) => Literal::String(s.clone()),
            Literal::Number(s) => Literal::Number(s.clone()),
            Literal::Boolean(b) => Literal::Boolean(*b),
            Literal::Nil => Literal::Nil,
        }
    }
}

impl Clone for TokenType {
    fn clone(&self) -> (r: Self)
        ensures
            r == *self,
    {
        match self {
            TokenType::LeftParenthesis => TokenType::LeftParenthesis,
            TokenType::RightParenthesis => TokenType::RightParenthesis,
            TokenType::LeftBrace => TokenType::LeftBrace,
            TokenType::RightBrace => TokenType::RightBrace,
            TokenType::Comma => TokenType::Comma,
            TokenType::Dot => TokenType::Dot,
            TokenType::Minus => TokenType::Minus,
            TokenType::Plus => TokenType::Plus,
            TokenType::Semicolon => TokenType::Semicolon,
            TokenType::Slash => TokenType::Slash,
            TokenType::Star => TokenType::Star,
            TokenType::Bang => TokenType::Bang,
            TokenType::BangEqual => TokenType::BangEqual,
            TokenType::Equal => TokenType::Equal,
            TokenType::EqualEqual => TokenType::EqualEqual,
            TokenType::Greater => TokenType::Greater,
            TokenType::GreaterEqual => TokenType::GreaterEqual,
            TokenType::Less => TokenType::Less,
            TokenType::LessEqual => TokenType::LessEqual,
            TokenType::Literal(l) => TokenType::Literal(l.clone()),
            TokenType::And => TokenType::And,
            TokenType::Class => TokenType::Class,
            TokenType::Else => TokenType::Else,
            TokenType::Fun => TokenType::Fun,
            TokenType::For => TokenType::For,
            TokenType::If => TokenType::If,
            TokenType::Or => TokenType::Or,
            TokenType::Print => TokenType::Print,
            TokenType::Return => TokenType::Return,
            TokenType::Super => TokenType::Super,
            TokenType::This => TokenType::This,
            TokenType::Var => TokenType::Var,
            TokenType::While => TokenType::While,
            TokenType::Eof => TokenType::Eof,
        }
    }
}

impl Clone for Token {
    fn clone(&self) -> (r: Self)
        ensures
            r == *self,
    {
        Token {
            token_type: self.token_type.clone(),
            lexeme: self.lexeme.clone(),
            line: self.line,
            col: self.col,
        }
    }
}


// ---------------------------------------------------------------------------
// The lexer's specification.
// ---------------------------------------------------------------------------

/// What the lexer needs to know of a character beyond the character itself,
/// all of it read from Unicode's tables.
#[derive(Clone, Copy, Debug, PartialEq, Eq)]
pub struct CharInfo {
    /// `char::is_whitespace`: the source is trimmed of such characters.
    pub whitespace: bool,
    /// `unicode_width` gives the character no width (`None` or `Some(0)`):
    /// such a character is skipped, unless it is a newline.
    pub zero_width: bool,
    /// `char::is_alphabetic`: the character may continue an identifier.
    pub alphabetic: bool,
}

/// Whether `unicode_width` gives `c` no width.
pub open spec fn has_zero_width(c: char) -> bool {
    if ' ' > c {
        true
    } else if '\x7f' > c {
        false
    } else if '\u{a0}' > c {
        true
    } else {
        table_width(c) == 0
    }
}

/// What the Unicode tables say of `c`.
pub open spec fn char_info(c: char) -> CharInfo {
    CharInfo {
        whitespace: white_space(c),
        zero_width: has_zero_width(c),
        alphabetic: alphabetic(c),
    }
}

pub open spec fn is_digit(c: char) -> bool {
    '0' <= c && c <= '9'
}

/// A character that starts an identifier or a keyword.
pub open spec fn starts_word(c: char) -> bool {
    ('a' <= c && c <= 'z') || ('A' <= c && c <= 'Z') || c == '_'
}

/// A character that continues an identifier or a keyword.
pub open spec fn continues_word(c: char, ci: CharInfo) -> bool {
    ci.alphabetic || c == '_'
}

/// A character that takes no room: it is skipped between tokens and does not
/// move the column inside one.
pub open spec fn is_skipped(c: char, ci: CharInfo) -> bool {
    c != '\n' && ci.zero_width
}

/// The line and column after one character of a token's text.
pub open spec fn step_pos(c: char, ci: CharInfo, line: nat, col: nat) -> (nat, nat) {
    if is_skipped(c, ci) {
        (line, col)
    } else if c == '\n' {
        (line + 1, 1)
    } else if c == '\t' {
        (line, col + 4)
    } else {
        (line, col + 1)
    }
}

/// The line and column after the text `s[a..b]`, starting from `line`, `col`.
pub open spec fn pos_after(s: Seq<char>, info: Seq<CharInfo>, a: int, b: int, line: nat, col: nat) -> (nat, nat)
    decreases b - a,
{
    if a >= b {
        (line, col)
    } else {
        let p = step_pos(s[a], info[a], line, col);
        pos_after(s, info, a + 1, b, p.0, p.1)
    }
}

/// The end of the run of digits that starts at `j`.
pub open spec fn digits_end(s: Seq<char>, j: int) -> int
    decreases s.len() - j,
{
    if 0 <= j < s.len() && is_digit(s[j]) {
        digits_end(s, j + 1)
    } else {
        j
    }
}

/// The end of the run of word characters that starts at `j`.
pub open spec fn word_end(s: Seq<char>, info: Seq<CharInfo>, j: int) -> int
    decreases s.len() - j,
{
    if 0 <= j < s.len() && continues_word(s[j], info[j]) {
        word_end(s, info, j + 1)
    } else {
        j
    }
}

/// The position of the first newline at or after `j` (or the end of the text).
pub open spec fn line_end(s: Seq<char>, j: int) -> int
    decreases s.len() - j,
{
    if 0 <= j < s.len() && s[j] != '\n' {
        line_end(s, j + 1)
    } else {
        j
    }
}

/// The position of the first `"` at or after `j`, if there is one.
pub open spec fn quote_at_or_after(s: Seq<char>, j: int) -> Option<int>
    decreases s.len() - j,
{
    if j < 0 || j >= s.len() {
        None
    } else if s[j] == '"' {
        Some(j)
    } else {
        quote_at_or_after(s, j + 1)
    }
}

/// The position just past the first `*/` that starts at or after `j`, if there
/// is one.
pub open spec fn comment_close_after(s: Seq<char>, j: int) -> Option<int>
    decreases s.len() - j,
{
    if j < 0 || j >= s.len() {
        None
    } else if s[j] == '*' && j + 1 < s.len() && s[j + 1] == '/' {
        Some(j + 2)
    } else {
        comment_close_after(s, j + 1)
    }
}

/// The keyword spelled by `w`, if it is one.
pub open spec fn keyword(w: Seq<char>) -> Option<TokenTypeModel> {
    if w =~= seq!['a', 'n', 'd'] {
        Some(TokenTypeModel::And)
    } else if w =~= seq!['c', 'l', 'a', 's', 's'] {
        Some(TokenTypeModel::Class)
    } else if w =~= seq!['e', 'l', 's', 'e'] {
        Some(TokenTypeModel::Else)
    } else if w =~= seq!['f', 'a', 'l', 's', 'e'] {
        Some(TokenTypeModel::Literal(LiteralModel::Boolean(false)))
    } else if w =~= seq!['f', 'u', 'n'] {
        Some(TokenTypeModel::Fun)
    } else if w =~= seq!['f', 'o', 'r'] {
        Some(TokenTypeModel::For)
    } else if w =~= seq!['i', 'f'] {
        Some(TokenTypeModel::If)
    } else if w =~= seq!['n', 'i', 'l'] {
        Some(TokenTypeModel::Literal(LiteralModel::Nil))
    } else if w =~= seq!['o', 'r'] {
        Some(TokenTypeModel::Or)
    } else if w =~= seq!['p', 'r', 'i', 'n', 't'] {
        Some(TokenTypeModel::Print)
    } else if w =~= seq!['r', 'e', 't', 'u', 'r', 'n'] {
        Some(TokenTypeModel::Return)
    } else if w =~= seq!['s', 'u', 'p', 'e', 'r'] {
        Some(TokenTypeModel::Super)
    } else if w =~= seq!['t', 'h', 'i', 's'] {
        Some(TokenTypeModel::This)
    } else if w =~= seq!['t', 'r', 'u', 'e'] {
        Some(TokenTypeModel::Literal(LiteralModel::Boolean(true)))
    } else if w =~= seq!['v', 'a', 'r'] {
        Some(TokenTypeModel::Var)
    } else if w =~= seq!['w', 'h', 'i', 'l', 'e'] {
        Some(TokenTypeModel::While)
    } else {
        None
    }
}

/// The token that the word `w` makes: a keyword, or else an identifier.
pub open spec fn word_token(w: Seq<char>) -> TokenTypeModel {
    match keyword(w) {
        Some(t) => t,
        None => TokenTypeModel::Literal(LiteralModel::Identifier(w)),
    }
}

/// The kind of a token made of `c` alone, if `c` is one of the characters
/// that always stand alone.
pub open spec fn single_char_token(c: char) -> Option<TokenTypeModel> {
    if c == '(' {
        Some(TokenTypeModel::LeftParenthesis)
    } else if c == ')' {
        Some(TokenTypeModel::RightParenthesis)
    } else if c == '{' {
        Some(TokenTypeModel::LeftBrace)
    } else if c == '}' {
        Some(TokenTypeModel::RightBrace)
    } else if c == ',' {
        Some(TokenTypeModel::Comma)
    } else if c == '.' {
        Some(TokenTypeModel::Dot)
    } else if c == '-' {
        Some(TokenTypeModel::Minus)
    } else if c == '+' {
        Some(TokenTypeModel::Plus)
    } else if c == ';' {
        Some(TokenTypeModel::Semicolon)
    } else if c == '*' {
        Some(TokenTypeModel::Star)
    } else {
        None
    }
}

/// For the characters that may be followed by `=` (`!`, `=`, `<`, `>`): the
/// kind of the token made of `c` alone and of `c` followed by `=`.
pub open spec fn pair_char_token(c: char) -> Option<(TokenTypeModel, TokenTypeModel)> {
    if c == '!' {
        Some((TokenTypeModel::Bang, TokenTypeModel::BangEqual))
    } else if c == '=' {
        Some((TokenTypeModel::Equal, TokenTypeModel::EqualEqual))
    } else if c == '<' {
        Some((TokenTypeModel::Less, TokenTypeModel::LessEqual))
    } else if c == '>' {
        Some((TokenTypeModel::Greater, TokenTypeModel::GreaterEqual))
    } else {
        None
    }
}

/// `t` in front of the tokens of `rest`, or the error of `rest`.
pub open spec fn prepend(
    pre: Seq<TokenModel>,
    rest: Result<Seq<TokenModel>, TokenizerErrorModel>,
) -> Result<Seq<TokenModel>, TokenizerErrorModel> {
    match rest {
        Ok(ts) => Ok(pre + ts),
        Err(e) => Err(e),
    }
}

/// The token of kind `tt` read from `s[a..b]`, starting at `line`, `col`.
pub open spec fn token_at(tt: TokenTypeModel, s: Seq<char>, a: int, b: int, line: nat, col: nat) -> TokenModel {
    TokenModel { token_type: tt, lexeme: s.subrange(a, b), line, col }
}

/// A run of digits ends within the text, and holds only digits.
pub proof fn lemma_digits_end(s: Seq<char>, j: int)
    requires
        0 <= j <= s.len(),
    ensures
        j <= digits_end(s, j) <= s.len(),
        forall|k: int| j <= k < digits_end(s, j) ==> is_digit(#[trigger] s[k]),
        digits_end(s, j) < s.len() ==> !is_digit(s[digits_end(s, j)]),
    decreases s.len() - j,
{
    if j < s.len() && is_digit(s[j]) {
        lemma_digits_end(s, j + 1);
    }
}

/// A run of word characters ends within the text, holds only characters that
/// are alphabetic or `_`, and stops before the first one that is neither.
pub proof fn lemma_word_end(s: Seq<char>, info: Seq<CharInfo>, j: int)
    requires
        0 <= j <= s.len(),
    ensures
        j <= word_end(s, info, j) <= s.len(),
        forall|k: int| j <= k < word_end(s, info, j) ==> (#[trigger] info[k]).alphabetic || s[k] == '_',
        word_end(s, info, j) < s.len() ==> !info[word_end(s, info, j)].alphabetic && s[word_end(s, info, j)] != '_',
    decreases s.len() - j,
{
    if j < s.len() && continues_word(s[j], info[j]) {
        lemma_word_end(s, info, j + 1);
    }
}

/// A line ends within the text, at its first newline.
pub proof fn lemma_line_end(s: Seq<char>, j: int)
    requires
        0 <= j <= s.len(),
    ensures
        j <= line_end(s, j) <= s.len(),
        forall|k: int| j <= k < line_end(s, j) ==> #[trigger] s[k] != '\n',
        line_end(s, j) < s.len() ==> s[line_end(s, j)] == '\n',
    decreases s.len() - j,
{
    if j < s.len() && s[j] != '\n' {
        lemma_line_end(s, j + 1);
    }
}

/// A closing quote, when there is one, lies within the text and is the first
/// quote from `j` on; when there is none, no quote follows.
pub proof fn lemma_quote_at_or_after(s: Seq<char>, j: int)
    requires
        0 <= j,
    ensures
        quote_at_or_after(s, j) matches Some(k) ==> j <= k < s.len() && s[k] == '"' && forall|m: int|
            j <= m < k ==> #[trigger] s[m] != '"',
        quote_at_or_after(s, j) is None ==> forall|m: int| j <= m < s.len() ==> #[trigger] s[m] != '"',
    decreases s.len() - j,
{
    if j < s.len() && s[j] != '"' {
        lemma_quote_at_or_after(s, j + 1);
    }
}

/// The end of a block comment, when there is one, lies within the text,
/// just past the first `*/` from `j` on; when there is none, no `*/` follows.
pub proof fn lemma_comment_close_after(s: Seq<char>, j: int)
    requires
        0 <= j,
    ensures
        comment_close_after(s, j) matches Some(k) ==> j + 2 <= k <= s.len() && s[k - 2] == '*' && s[k - 1] == '/'
            && forall|m: int| j <= m < k - 2 ==> !(#[trigger] s[m] == '*' && s[m + 1] == '/'),
        comment_close_after(s, j) is None ==> forall|m: int|
            j <= m < s.len() - 1 ==> !(#[trigger] s[m] == '*' && s[m + 1] == '/'),
    decreases s.len() - j,
{
    if 0 <= j < s.len() && !(s[j] == '*' && j + 1 < s.len() && s[j + 1] == '/') {
        lemma_comment_close_after(s, j + 1);
    }
}

/// The tokens of `s[i..]`, the lexer being at line `line`, column `col` when it
/// reaches position `i`; `info[k]` is what the Unicode tables say of `s[k]`.
pub open spec fn lex(s: Seq<char>, info: Seq<CharInfo>, i: int, line: nat, col: nat) -> Result<
    Seq<TokenModel>,
    TokenizerErrorModel,
>
    decreases s.len() - i,
{
    if i < 0 || i >= s.len() {
        Ok(seq![TokenModel { token_type: TokenTypeModel::Eof, lexeme: seq![], line, col }])
    } else {
        let c = s[i];
        if is_skipped(c, info[i]) {
            lex(s, info, i + 1, line, col)
        } else if c == '\n' {
            lex(s, info, i + 1, line + 1, 1)
        } else if c == '\t' {
            lex(s, info, i + 1, line, col + 4)
        } else if c == ' ' {
            lex(s, info, i + 1, line, col + 1)
        } else if c == '/' && i + 1 < s.len() && s[i + 1] == '/' {
            proof {
                lemma_line_end(s, i + 1);
            }
            lex(s, info, line_end(s, i + 1), line, col)
        } else if c == '/' && i + 1 < s.len() && s[i + 1] == '*' {
            proof {
                lemma_comment_close_after(s, i + 1);
            }
            match comment_close_after(s, i + 1) {
                None => Err(TokenizerErrorModel::UnterminatedBlockComment(line, col)),
                Some(k) => lex(s, info, k, line, col),
            }
        } else if c == '"' {
            proof {
                lemma_quote_at_or_after(s, i + 1);
            }
            match quote_at_or_after(s, i + 1) {
                None => Err(TokenizerErrorModel::UnterminatedStringLiteral(line, col)),
                Some(k) => {
                    let tt = TokenTypeModel::Literal(LiteralModel::String(s.subrange(i + 1, k)));
                    let p = pos_after(s, info, i, k + 1, line, col);
                    prepend(seq![token_at(tt, s, i, k + 1, line, col)], lex(s, info, k + 1, p.0, p.1))
                },
            }
        } else if is_digit(c) {
            proof {
                lemma_digits_end(s, i + 1);
            }
            let j = digits_end(s, i + 1);
            if j < s.len() && s[j] == '.' {
                if j + 1 < s.len() && is_digit(s[j + 1]) {
                    proof {
                        lemma_digits_end(s, j + 1);
                    }
                    let k = digits_end(s, j + 1);
                    let tt = TokenTypeModel::Literal(LiteralModel::Number(s.subrange(i, k)));
                    let p = pos_after(s, info, i, k, line, col);
                    prepend(seq![token_at(tt, s, i, k, line, col)], lex(s, info, k, p.0, p.1))
                } else {
                    Err(TokenizerErrorModel::InvalidNumberLiteral(s.subrange(i, j + 1), line, col))
                }
            } else {
                let tt = TokenTypeModel::Literal(LiteralModel::Number(s.subrange(i, j)));
                let p = pos_after(s, info, i, j, line, col);
                prepend(seq![token_at(tt, s, i, j, line, col)], lex(s, info, j, p.0, p.1))
            }
        } else if starts_word(c) {
            proof {
                lemma_word_end(s, info, i + 1);
            }
            let j = word_end(s, info, i + 1);
            let tt = word_token(s.subrange(i, j));
            let p = pos_after(s, info, i, j, line, col);
            prepend(seq![token_at(tt, s, i, j, line, col)], lex(s, info, j, p.0, p.1))
        } else if c == '/' {
            let p = pos_after(s, info, i, i + 1, line, col);
            prepend(
                seq![token_at(TokenTypeModel::Slash, s, i, i + 1, line, col)],
                lex(s, info, i + 1, p.0, p.1),
            )
        } else if single_char_token(c) is Some {
            let p = pos_after(s, info, i, i + 1, line, col);
            prepend(
                seq![token_at(single_char_token(c)->0, s, i, i + 1, line, col)],
                lex(s, info, i + 1, p.0, p.1),
            )
        } else if pair_char_token(c) is Some {
            let kinds = pair_char_token(c)->0;
            if i + 1 < s.len() && s[i + 1] == '=' {
                let p = pos_after(s, info, i, i + 2, line, col);
                prepend(seq![token_at(kinds.1, s, i, i + 2, line, col)], lex(s, info, i + 2, p.0, p.1))
            } else {
                let p = pos_after(s, info, i, i + 1, line, col);
                prepend(seq![token_at(kinds.0, s, i, i + 1, line, col)], lex(s, info, i + 1, p.0, p.1))
            }
        } else {
            Err(TokenizerErrorModel::BadChar(c, line, col))
        }
    }
}

/// The first position in `info` that is not whitespace (or its length).
pub open spec fn trim_start(info: Seq<CharInfo>, j: int) -> int
    decreases info.len() - j,
{
    if 0 <= j < info.len() && info[j].whitespace {
        trim_start(info, j + 1)
    } else {
        j
    }
}

/// The position just past the last character before `j` that is not
/// whitespace (or 0).
pub open spec fn trim_end(info: Seq<CharInfo>, j: int) -> int
    decreases j,
{
    if 0 < j <= info.len() && info[j - 1].whitespace {
        trim_end(info, j - 1)
    } else {
        j
    }
}

/// Where the source's text starts and ends once it is trimmed of whitespace
/// at both ends.
pub open spec fn trimmed_range(info: Seq<CharInfo>) -> (int, int) {
    let a = trim_start(info, 0);
    let b = trim_end(info, info.len() as int);
    if a < b {
        (a, b)
    } else {
        (0, 0)
    }
}

/// The tokens of the characters `s`, where `info[k]` is what the Unicode tables
/// say of `s[k]`: the text is trimmed of whitespace at both ends and lexed from
/// line 1, column 1.
pub open spec fn spec_tokenize(s: Seq<char>, info: Seq<CharInfo>) -> Result<
    Seq<TokenModel>,
    TokenizerErrorModel,
> {
    let (a, b) = trimmed_range(info);
    lex(s.subrange(a, b), info.subrange(a, b), 0, 1, 1)
}

/// The model of what the lexer returns.
pub open spec fn lex_result_model(r: Result<Vec<Token>, TokenizerError>) -> Result<
    Seq<TokenModel>,
    TokenizerErrorModel,
> {
    match r {
        Ok(ts) => Ok(tokens_model(ts@)),
        Err(e) => Err(e@),
    }
}


/// A word takes in every character after it that is alphabetic or `_`: the
/// token that the lexer reads at a letter or `_` is the longest run of such
/// characters from there (so `my_var` is one identifier), and it is the
/// keyword or identifier that the run spells, at the lexer's line and column.
pub proof fn lemma_word_is_longest(s: Seq<char>, info: Seq<CharInfo>, i: int, line: nat, col: nat)
    requires
        s.len() == info.len(),
        0 <= i < s.len(),
        starts_word(s[i]),
        !info[i].zero_width,
        lex(s, info, i, line, col) is Ok,
    ensures
        ({
            let t = lex(s, info, i, line, col)->Ok_0[0];
            let n = i + t.lexeme.len();
            &&& n <= s.len()
            &&& t.lexeme == s.subrange(i, n)
            &&& forall|k: int| i < k < n ==> (#[trigger] info[k]).alphabetic || s[k] == '_'
            &&& n < s.len() ==> !info[n].alphabetic && s[n] != '_'
            &&& t.token_type == word_token(t.lexeme)
            &&& t.line == line
            &&& t.col == col
        }),
{
    lemma_word_end(s, info, i + 1);
    let j = word_end(s, info, i + 1);
    let t = lex(s, info, i, line, col)->Ok_0[0];
    assert(t.lexeme == s.subrange(i, j));
    assert(t.lexeme.len() == j - i);
}

/// Between tokens the lexer skips layout: a newline starts the next line at
/// column 1, a space moves one column on, a tab four, and a character that
/// takes no room none.
pub proof fn lemma_layout_between_tokens(s: Seq<char>, info: Seq<CharInfo>, i: int, line: nat, col: nat)
    requires
        s.len() == info.len(),
        0 <= i < s.len(),
    ensures
        s[i] == '\n' ==> lex(s, info, i, line, col) == lex(s, info, i + 1, line + 1, 1),
        !info[i].zero_width && s[i] == ' ' ==> lex(s, info, i, line, col) == lex(s, info, i + 1, line, col + 1),
        !info[i].zero_width && s[i] == '\t' ==> lex(s, info, i, line, col) == lex(s, info, i + 1, line, col + 4),
        info[i].zero_width && s[i] != '\n' ==> lex(s, info, i, line, col) == lex(s, info, i + 1, line, col),
{
}

/// A `//` comment runs to the end of its line: the lexer goes on at the next
/// newline (or the end of the text), at the same line and column.
pub proof fn lemma_line_comment(s: Seq<char>, info: Seq<CharInfo>, i: int, j: int, line: nat, col: nat)
    requires
        s.len() == info.len(),
        0 <= i,
        i + 1 < s.len(),
        s[i] == '/',
        s[i + 1] == '/',
        !info[i].zero_width,
        i + 1 <= j <= s.len(),
        forall|k: int| i + 1 <= k < j ==> #[trigger] s[k] != '\n',
        j < s.len() ==> s[j] == '\n',
    ensures
        lex(s, info, i, line, col) == lex(s, info, j, line, col),
{
    lemma_line_end(s, i + 1);
    let e = line_end(s, i + 1);
    if e < j {
        assert(s[e] != '\n');
    }
    if j < e {
        assert(s[j] != '\n');
    }
}

/// A `/*` comment runs through the first `*/` after its `/*`: the lexer goes
/// on just past it, at the same line and column; with no `*/` after it, the
/// comment is unterminated.
pub proof fn lemma_block_comment(s: Seq<char>, info: Seq<CharInfo>, i: int, line: nat, col: nat)
    requires
        s.len() == info.len(),
        0 <= i,
        i + 1 < s.len(),
        s[i] == '/',
        s[i + 1] == '*',
        !info[i].zero_width,
    ensures
        forall|k: int|
            #![trigger s[k], s[k + 1]]
            i + 1 <= k < s.len() - 1 && s[k] == '*' && s[k + 1] == '/' && (forall|m: int|
                i + 1 <= m < k ==> !(#[trigger] s[m] == '*' && s[m + 1] == '/')) ==> lex(s, info, i, line, col)
                == lex(s, info, k + 2, line, col),
        (forall|m: int| i + 1 <= m < s.len() - 1 ==> !(#[trigger] s[m] == '*' && s[m + 1] == '/')) ==> lex(
            s,
            info,
            i,
            line,
            col,
        ) == Err::<Seq<TokenModel>, TokenizerErrorModel>(TokenizerErrorModel::UnterminatedBlockComment(line, col)),
{
    lemma_comment_close_after(s, i + 1);
    assert forall|k: int|
        #![trigger s[k], s[k + 1]]
        i + 1 <= k < s.len() - 1 && s[k] == '*' && s[k + 1] == '/' && (forall|m: int|
            i + 1 <= m < k ==> !(#[trigger] s[m] == '*' && s[m + 1] == '/')) implies lex(s, info, i, line, col)
            == lex(s, info, k + 2, line, col) by {
        match comment_close_after(s, i + 1) {
            Some(c) => {
                if c - 2 < k {
                    assert(!(s[c - 2] == '*' && s[c - 1] == '/'));
                }
                if k < c - 2 {
                    assert(!(s[k] == '*' && s[k + 1] == '/'));
                }
            },
            None => {
                assert(!(s[k] == '*' && s[k + 1] == '/'));
            },
        }
    }
    if forall|m: int| i + 1 <= m < s.len() - 1 ==> !(#[trigger] s[m] == '*' && s[m + 1] == '/') {
        if let Some(c) = comment_close_after(s, i + 1) {
            assert(!(s[c - 2] == '*' && s[c - 2 + 1] == '/'));
        }
    }
}

/// The one- and two-character operators: each of `( ) { } , . - + ; *`
/// stands alone, `/` stands alone when no comment starts there, and each of
/// `! = < >` joins a `=` right after it into one token (`!=`, `==`, `<=`,
/// `>=`) and otherwise stands alone; the token is at the lexer's line and
/// column.
pub proof fn lemma_operator_tokens(s: Seq<char>, info: Seq<CharInfo>, i: int, line: nat, col: nat)
    requires
        s.len() == info.len(),
        0 <= i < s.len(),
        !info[i].zero_width,
        lex(s, info, i, line, col) is Ok,
    ensures
        ({
            let t = lex(s, info, i, line, col)->Ok_0[0];
            let eq_next = i + 1 < s.len() && s[i + 1] == '=';
            &&& s[i] == '(' ==> t.token_type == TokenTypeModel::LeftParenthesis && t.lexeme == seq!['(']
            &&& s[i] == ')' ==> t.token_type == TokenTypeModel::RightParenthesis && t.lexeme == seq![')']
            &&& s[i] == '{' ==> t.token_type == TokenTypeModel::LeftBrace && t.lexeme == seq!['{']
            &&& s[i] == '}' ==> t.token_type == TokenTypeModel::RightBrace && t.lexeme == seq!['}']
            &&& s[i] == ',' ==> t.token_type == TokenTypeModel::Comma && t.lexeme == seq![',']
            &&& s[i] == '.' ==> t.token_type == TokenTypeModel::Dot && t.lexeme == seq!['.']
            &&& s[i] == '-' ==> t.token_type == TokenTypeModel::Minus && t.lexeme == seq!['-']
            &&& s[i] == '+' ==> t.token_type == TokenTypeModel::Plus && t.lexeme == seq!['+']
            &&& s[i] == ';' ==> t.token_type == TokenTypeModel::Semicolon && t.lexeme == seq![';']
            &&& s[i] == '*' ==> t.token_type == TokenTypeModel::Star && t.lexeme == seq!['*']
            &&& s[i] == '/' && !(i + 1 < s.len() && (s[i + 1] == '/' || s[i + 1] == '*')) ==> t.token_type
                == TokenTypeModel::Slash && t.lexeme == seq!['/']
            &&& s[i] == '!' && eq_next ==> t.token_type == TokenTypeModel::BangEqual && t.lexeme == seq!['!', '=']
            &&& s[i] == '!' && !eq_next ==> t.token_type == TokenTypeModel::Bang && t.lexeme == seq!['!']
            &&& s[i] == '=' && eq_next ==> t.token_type == TokenTypeModel::EqualEqual && t.lexeme == seq!['=', '=']
            &&& s[i] == '=' && !eq_next ==> t.token_type == TokenTypeModel::Equal && t.lexeme == seq!['=']
            &&& s[i] == '<' && eq_next ==> t.token_type == TokenTypeModel::LessEqual && t.lexeme == seq!['<', '=']
            &&& s[i] == '<' && !eq_next ==> t.token_type == TokenTypeModel::Less && t.lexeme == seq!['<']
            &&& s[i] == '>' && eq_next ==> t.token_type == TokenTypeModel::GreaterEqual && t.lexeme == seq!['>', '=']
            &&& s[i] == '>' && !eq_next ==> t.token_type == TokenTypeModel::Greater && t.lexeme == seq!['>']
            &&& (s[i] == '(' || s[i] == ')' || s[i] == '{' || s[i] == '}' || s[i] == ',' || s[i] == '.'
                || s[i] == '-' || s[i] == '+' || s[i] == ';' || s[i] == '*' || s[i] == '!' || s[i] == '='
                || s[i] == '<' || s[i] == '>') ==> t.line == line && t.col == col
        }),
{
    if i + 1 < s.len() {
        assert(s.subrange(i, i + 2) =~= seq![s[i], s[i + 1]]);
    }
    assert(s.subrange(i, i + 1) =~= seq![s[i]]);
}

/// A character that starts no token and is no layout is an error at the
/// lexer's line and column.
pub proof fn lemma_bad_character(s: Seq<char>, info: Seq<CharInfo>, i: int, line: nat, col: nat)
    requires
        s.len() == info.len(),
        0 <= i < s.len(),
        !info[i].zero_width,
        !(s[i] == '\n' || s[i] == ' ' || s[i] == '\t' || s[i] == '/' || s[i] == '"' || s[i] == '_'),
        !('0' <= s[i] <= '9' || 'a' <= s[i] <= 'z' || 'A' <= s[i] <= 'Z'),
        !(s[i] == '(' || s[i] == ')' || s[i] == '{' || s[i] == '}' || s[i] == ',' || s[i] == '.' || s[i] == '-'
            || s[i] == '+' || s[i] == ';' || s[i] == '*' || s[i] == '!' || s[i] == '=' || s[i] == '<' || s[i]
            == '>'),
    ensures
        lex(s, info, i, line, col) == Err::<Seq<TokenModel>, TokenizerErrorModel>(
            TokenizerErrorModel::BadChar(s[i], line, col),
        ),
{
}

/// A string literal runs from its `"` to the next `"`: its token's text is
/// both quotes and what is between them, and its value what is between them;
/// with no `"` after the first, the literal is unterminated.
pub proof fn lemma_string_token(s: Seq<char>, info: Seq<CharInfo>, i: int, line: nat, col: nat)
    requires
        s.len() == info.len(),
        0 <= i < s.len(),
        s[i] == '"',
        !info[i].zero_width,
    ensures
        (forall|m: int| i + 1 <= m < s.len() ==> #[trigger] s[m] != '"') ==> lex(s, info, i, line, col) == Err::<
            Seq<TokenModel>,
            TokenizerErrorModel,
        >(TokenizerErrorModel::UnterminatedStringLiteral(line, col)),
        lex(s, info, i, line, col) is Ok ==> ({
            let t = lex(s, info, i, line, col)->Ok_0[0];
            let n = i + t.lexeme.len();
            &&& i + 2 <= n <= s.len()
            &&& t.lexeme == s.subrange(i, n)
            &&& s[n - 1] == '"'
            &&& forall|m: int| i < m < n - 1 ==> #[trigger] s[m] != '"'
            &&& t.token_type == TokenTypeModel::Literal(LiteralModel::String(s.subrange(i + 1, n - 1)))
            &&& t.line == line
            &&& t.col == col
        }),
{
    lemma_quote_at_or_after(s, i + 1);
    if let Some(k) = quote_at_or_after(s, i + 1) {
        if lex(s, info, i, line, col) is Ok {
            let t = lex(s, info, i, line, col)->Ok_0[0];
            assert(t.lexeme == s.subrange(i, k + 1));
        }
    } else {
        assert(quote_at_or_after(s, i + 1) is None);
    }
}

/// A number literal is a run of digits, optionally followed by `.` and a
/// run of digits, taken as long as it goes: its token's text is that run and
/// its value is that text; a `.` after the digits that no digit follows is
/// an invalid number literal.
pub proof fn lemma_number_token(s: Seq<char>, info: Seq<CharInfo>, i: int, line: nat, col: nat)
    requires
        s.len() == info.len(),
        0 <= i < s.len(),
        '0' <= s[i] <= '9',
        !info[i].zero_width,
    ensures
        lex(s, info, i, line, col) is Ok ==> ({
            let t = lex(s, info, i, line, col)->Ok_0[0];
            let n = i + t.lexeme.len();
            &&& i < n <= s.len()
            &&& t.lexeme == s.subrange(i, n)
            &&& t.token_type == TokenTypeModel::Literal(LiteralModel::Number(t.lexeme))
            &&& t.line == line
            &&& t.col == col
            &&& forall|k: int| i <= k < n ==> ('0' <= #[trigger] s[k] <= '9') || (s[k] == '.' && k + 1 < n)
            &&& forall|k1: int, k2: int|
                i <= k1 < n && i <= k2 < n && #[trigger] s[k1] == '.' && #[trigger] s[k2] == '.' ==> k1 == k2
            &&& n < s.len() ==> !('0' <= s[n] <= '9')
            &&& n < s.len() && s[n] == '.' ==> exists|k: int| i < k < n && #[trigger] s[k] == '.'
        }),
        forall|j: int|
            #![trigger s[j]]
            i < j < s.len() && s[j] == '.' && (forall|k: int| i <= k < j ==> '0' <= #[trigger] s[k] <= '9') && !(j
                + 1 < s.len() && '0' <= s[j + 1] <= '9') ==> lex(s, info, i, line, col) == Err::<
                Seq<TokenModel>,
                TokenizerErrorModel,
            >(TokenizerErrorModel::InvalidNumberLiteral(s.subrange(i, j + 1), line, col)),
{
    lemma_digits_end(s, i + 1);
    let j = digits_end(s, i + 1);
    assert forall|j2: int|
        #![trigger s[j2]]
        i < j2 < s.len() && s[j2] == '.' && (forall|k: int| i <= k < j2 ==> '0' <= #[trigger] s[k] <= '9') && !(j2
            + 1 < s.len() && '0' <= s[j2 + 1] <= '9') implies lex(s, info, i, line, col) == Err::<
            Seq<TokenModel>,
            TokenizerErrorModel,
        >(TokenizerErrorModel::InvalidNumberLiteral(s.subrange(i, j2 + 1), line, col)) by {
        if j < j2 {
            assert('0' <= s[j] <= '9');
        }
        if j2 < j {
            assert(is_digit(s[j2]));
        }
    }
    if lex(s, info, i, line, col) is Ok {
        let t = lex(s, info, i, line, col)->Ok_0[0];
        if j < s.len() && s[j] == '.' {
            lemma_digits_end(s, j + 1);
            let k = digits_end(s, j + 1);
            assert(t.lexeme == s.subrange(i, k));
            assert(s[j] == '.');
            assert forall|k1: int, k2: int|
                i <= k1 < k && i <= k2 < k && #[trigger] s[k1] == '.' && #[trigger] s[k2] == '.' implies k1 == k2 by {
                if k1 != j {
                    assert(is_digit(s[k1]));
                }
                if k2 != j {
                    assert(is_digit(s[k2]));
                }
            }
        } else {
            assert(t.lexeme == s.subrange(i, j));
        }
    }
}

/// The keywords: each of the sixteen words below makes its own kind of
/// token (`true`, `false` and `nil` their literal values), and every other
/// word is an identifier with that name.
pub proof fn lemma_keywords(w: Seq<char>)
    ensures
        w == "and"@ ==> word_token(w) == TokenTypeModel::And,
        w == "class"@ ==> word_token(w) == TokenTypeModel::Class,
        w == "else"@ ==> word_token(w) == TokenTypeModel::Else,
        w == "false"@ ==> word_token(w) == TokenTypeModel::Literal(LiteralModel::Boolean(false)),
        w == "fun"@ ==> word_token(w) == TokenTypeModel::Fun,
        w == "for"@ ==> word_token(w) == TokenTypeModel::For,
        w == "if"@ ==> word_token(w) == TokenTypeModel::If,
        w == "nil"@ ==> word_token(w) == TokenTypeModel::Literal(LiteralModel::Nil),
        w == "or"@ ==> word_token(w) == TokenTypeModel::Or,
        w == "print"@ ==> word_token(w) == TokenTypeModel::Print,
        w == "return"@ ==> word_token(w) == TokenTypeModel::Return,
        w == "super"@ ==> word_token(w) == TokenTypeModel::Super,
        w == "this"@ ==> word_token(w) == TokenTypeModel::This,
        w == "true"@ ==> word_token(w) == TokenTypeModel::Literal(LiteralModel::Boolean(true)),
        w == "var"@ ==> word_token(w) == TokenTypeModel::Var,
        w == "while"@ ==> word_token(w) == TokenTypeModel::While,
        !(w == "and"@ || w == "class"@ || w == "else"@ || w == "false"@ || w == "fun"@ || w == "for"@ || w
            == "if"@ || w == "nil"@ || w == "or"@ || w == "print"@ || w == "return"@ || w == "super"@ || w
            == "this"@ || w == "true"@ || w == "var"@ || w == "while"@) ==> word_token(w)
            == TokenTypeModel::Literal(LiteralModel::Identifier(w)),
{
    reveal_strlit("and");
    reveal_strlit("class");
    reveal_strlit("else");
    reveal_strlit("false");
    reveal_strlit("fun");
    reveal_strlit("for");
    reveal_strlit("if");
    reveal_strlit("nil");
    reveal_strlit("or");
    reveal_strlit("print");
    reveal_strlit("return");
    reveal_strlit("super");
    reveal_strlit("this");
    reveal_strlit("true");
    reveal_strlit("var");
    reveal_strlit("while");
    assert("and"@ =~= seq!['a', 'n', 'd']);
    assert("class"@ =~= seq!['c', 'l', 'a', 's', 's']);
    assert("else"@ =~= seq!['e', 'l', 's', 'e']);
    assert("false"@ =~= seq!['f', 'a', 'l', 's', 'e']);
    assert("fun"@ =~= seq!['f', 'u', 'n']);
    assert("for"@ =~= seq!['f', 'o', 'r']);
    assert("if"@ =~= seq!['i', 'f']);
    assert("nil"@ =~= seq!['n', 'i', 'l']);
    assert("or"@ =~= seq!['o', 'r']);
    assert("print"@ =~= seq!['p', 'r', 'i', 'n', 't']);
    assert("return"@ =~= seq!['r', 'e', 't', 'u', 'r', 'n']);
    assert("super"@ =~= seq!['s', 'u', 'p', 'e', 'r']);
    assert("this"@ =~= seq!['t', 'h', 'i', 's']);
    assert("true"@ =~= seq!['t', 'r', 'u', 'e']);
    assert("var"@ =~= seq!['v', 'a', 'r']);
    assert("while"@ =~= seq!['w', 'h', 'i', 'l', 'e']);
}

/// The position after one more character is one step on from the position
/// after the text before it.
proof fn lemma_pos_after_snoc(s: Seq<char>, info: Seq<CharInfo>, a: int, b: int, line: nat, col: nat)
    requires
        a <= b,
    ensures
        pos_after(s, info, a, b + 1, line, col) == ({
            let p = pos_after(s, info, a, b, line, col);
            step_pos(s[b], info[b], p.0, p.1)
        }),
    decreases b - a,
{
    let p = step_pos(s[a], info[a], line, col);
    if a < b {
        lemma_pos_after_snoc(s, info, a + 1, b, p.0, p.1);
    } else {
        assert(pos_after(s, info, a + 1, b + 1, p.0, p.1) == (p.0, p.1));
    }
}

/// Positions inside a token's text: on one line, each character that takes
/// room and is no tab moves one column on; a newline moves to column 1 of the
/// next line; a tab moves four columns on; a character that takes no room
/// does not move.
pub proof fn lemma_positions_in_text(s: Seq<char>, info: Seq<CharInfo>, a: int, b: int, line: nat, col: nat)
    requires
        0 <= a <= b < s.len(),
        s.len() == info.len(),
    ensures
        (forall|k: int| a <= k < b ==> #[trigger] s[k] != '\n' && s[k] != '\t' && !info[k].zero_width)
            ==> pos_after(s, info, a, b, line, col) == (line, (col + (b - a)) as nat),
        s[b] == '\n' ==> pos_after(s, info, a, b + 1, line, col) == (pos_after(s, info, a, b, line, col).0 + 1, 1nat),
        s[b] == '\t' && !info[b].zero_width ==> pos_after(s, info, a, b + 1, line, col) == (
            pos_after(s, info, a, b, line, col).0,
            (pos_after(s, info, a, b, line, col).1 + 4) as nat,
        ),
        s[b] != '\n' && info[b].zero_width ==> pos_after(s, info, a, b + 1, line, col) == pos_after(
            s,
            info,
            a,
            b,
            line,
            col,
        ),
    decreases b - a,
{
    lemma_pos_after_snoc(s, info, a, b, line, col);
    if a < b {
        lemma_positions_in_text(s, info, a, b - 1, line, col);
        lemma_pos_after_snoc(s, info, a, b - 1, line, col);
    }
}

/// Whether `ts` ends with an `Eof` token and has no other.
pub open spec fn ends_with_single_eof(ts: Seq<TokenModel>) -> bool {
    &&& ts.len() > 0
    &&& ts[ts.len() - 1].token_type == TokenTypeModel::Eof
    &&& forall|k: int| 0 <= k < ts.len() - 1 ==> (#[trigger] ts[k]).token_type != TokenTypeModel::Eof
}

proof fn lemma_prepend_keeps_single_eof(t: TokenModel, r: Result<Seq<TokenModel>, TokenizerErrorModel>)
    requires
        t.token_type != TokenTypeModel::Eof,
        r matches Ok(ts) ==> ends_with_single_eof(ts),
    ensures
        prepend(seq![t], r) matches Ok(ts) ==> ends_with_single_eof(ts),
{
    if let Ok(ts) = r {
        let all = seq![t] + ts;
        assert forall|k: int| 0 <= k < all.len() - 1 implies (#[trigger] all[k]).token_type != TokenTypeModel::Eof by {
            if k > 0 {
                assert(all[k] == ts[k - 1]);
            }
        }
        assert(all[all.len() - 1] == ts[ts.len() - 1]);
    }
}

proof fn lemma_word_token_not_eof(w: Seq<char>)
    ensures
        word_token(w) != TokenTypeModel::Eof,
{
}

proof fn lemma_lex_ends_with_eof(s: Seq<char>, info: Seq<CharInfo>, i: int, line: nat, col: nat)
    ensures
        lex(s, info, i, line, col) matches Ok(ts) ==> ends_with_single_eof(ts),
    decreases s.len() - i,
{
    if i < 0 || i >= s.len() {
    } else {
        let c = s[i];
        if is_skipped(c, info[i]) {
            lemma_lex_ends_with_eof(s, info, i + 1, line, col);
        } else if c == '\n' {
            lemma_lex_ends_with_eof(s, info, i + 1, line + 1, 1);
        } else if c == '\t' {
            lemma_lex_ends_with_eof(s, info, i + 1, line, col + 4);
        } else if c == ' ' {
            lemma_lex_ends_with_eof(s, info, i + 1, line, col + 1);
        } else if c == '/' && i + 1 < s.len() && s[i + 1] == '/' {
            lemma_line_end(s, i + 1);
            lemma_lex_ends_with_eof(s, info, line_end(s, i + 1), line, col);
        } else if c == '/' && i + 1 < s.len() && s[i + 1] == '*' {
            lemma_comment_close_after(s, i + 1);
            if let Some(k) = comment_close_after(s, i + 1) {
                lemma_lex_ends_with_eof(s, info, k, line, col);
            }
        } else if c == '"' {
            lemma_quote_at_or_after(s, i + 1);
            if let Some(k) = quote_at_or_after(s, i + 1) {
                let tt = TokenTypeModel::Literal(LiteralModel::String(s.subrange(i + 1, k)));
                let p = pos_after(s, info, i, k + 1, line, col);
                lemma_lex_ends_with_eof(s, info, k + 1, p.0, p.1);
                lemma_prepend_keeps_single_eof(token_at(tt, s, i, k + 1, line, col), lex(s, info, k + 1, p.0, p.1));
            }
        } else if is_digit(c) {
            lemma_digits_end(s, i + 1);
            let j = digits_end(s, i + 1);
            if j < s.len() && s[j] == '.' {
                if j + 1 < s.len() && is_digit(s[j + 1]) {
                    lemma_digits_end(s, j + 1);
                    let k = digits_end(s, j + 1);
                    let tt = TokenTypeModel::Literal(LiteralModel::Number(s.subrange(i, k)));
                    let p = pos_after(s, info, i, k, line, col);
                    lemma_lex_ends_with_eof(s, info, k, p.0, p.1);
                    lemma_prepend_keeps_single_eof(token_at(tt, s, i, k, line, col), lex(s, info, k, p.0, p.1));
                }
            } else {
                let tt = TokenTypeModel::Literal(LiteralModel::Number(s.subrange(i, j)));
                let p = pos_after(s, info, i, j, line, col);
                lemma_lex_ends_with_eof(s, info, j, p.0, p.1);
                lemma_prepend_keeps_single_eof(token_at(tt, s, i, j, line, col), lex(s, info, j, p.0, p.1));
            }
        } else if starts_word(c) {
            lemma_word_end(s, info, i + 1);
            let j = word_end(s, info, i + 1);
            let tt = word_token(s.subrange(i, j));
            lemma_word_token_not_eof(s.subrange(i, j));
            let p = pos_after(s, info, i, j, line, col);
            lemma_lex_ends_with_eof(s, info, j, p.0, p.1);
            lemma_prepend_keeps_single_eof(token_at(tt, s, i, j, line, col), lex(s, info, j, p.0, p.1));
        } else if c == '/' {
            let p = pos_after(s, info, i, i + 1, line, col);
            lemma_lex_ends_with_eof(s, info, i + 1, p.0, p.1);
            lemma_prepend_keeps_single_eof(
                token_at(TokenTypeModel::Slash, s, i, i + 1, line, col),
                lex(s, info, i + 1, p.0, p.1),
            );
        } else if single_char_token(c) is Some {
            let p = pos_after(s, info, i, i + 1, line, col);
            lemma_lex_ends_with_eof(s, info, i + 1, p.0, p.1);
            lemma_prepend_keeps_single_eof(
                token_at(single_char_token(c)->0, s, i, i + 1, line, col),
                lex(s, info, i + 1, p.0, p.1),
            );
        } else if pair_char_token(c) is Some {
            let kinds = pair_char_token(c)->0;
            if i + 1 < s.len() && s[i + 1] == '=' {
                let p = pos_after(s, info, i, i + 2, line, col);
                lemma_lex_ends_with_eof(s, info, i + 2, p.0, p.1);
                lemma_prepend_keeps_single_eof(token_at(kinds.1, s, i, i + 2, line, col), lex(s, info, i + 2, p.0, p.1));
            } else {
                let p = pos_after(s, info, i, i + 1, line, col);
                lemma_lex_ends_with_eof(s, info, i + 1, p.0, p.1);
                lemma_prepend_keeps_single_eof(token_at(kinds.0, s, i, i + 1, line, col), lex(s, info, i + 1, p.0, p.1));
            }
        }
    }
}

/// Tokenizing always ends with an `Eof` token, and with no other: when it
/// succeeds, the last token is `Eof` and no token before it is.
pub proof fn lemma_tokenize_ends_with_eof(s: Seq<char>, info: Seq<CharInfo>)
    ensures
        spec_tokenize(s, info) matches Ok(ts) ==> ends_with_single_eof(ts),
{
    let (a, b) = trimmed_range(info);
    lemma_lex_ends_with_eof(s.subrange(a, b), info.subrange(a, b), 0, 1, 1);
}


proof fn lemma_trim_start_bounds(info: Seq<CharInfo>, j: int)
    requires
        0 <= j <= info.len(),
    ensures
        j <= trim_start(info, j) <= info.len(),
        trim_start(info, j) < info.len() ==> !info[trim_start(info, j)].whitespace,
        forall|k: int| j <= k < trim_start(info, j) ==> (#[trigger] info[k]).whitespace,
    decreases info.len() - j,
{
    if j < info.len() && info[j].whitespace {
        lemma_trim_start_bounds(info, j + 1);
    }
}

proof fn lemma_trim_end_bounds(info: Seq<CharInfo>, j: int)
    requires
        0 <= j <= info.len(),
    ensures
        0 <= trim_end(info, j) <= j,
        trim_end(info, j) > 0 ==> !info[trim_end(info, j) - 1].whitespace,
        forall|k: int| trim_end(info, j) <= k < j ==> (#[trigger] info[k]).whitespace,
    decreases j,
{
    if j > 0 && info[j - 1].whitespace {
        lemma_trim_end_bounds(info, j - 1);
    }
}

/// Skipping a run of whitespace at the front.
proof fn lemma_trim_start_skip(info: Seq<CharInfo>, j: int, m: int)
    requires
        0 <= j <= m <= info.len(),
        forall|k: int| j <= k < m ==> (#[trigger] info[k]).whitespace,
    ensures
        trim_start(info, j) == trim_start(info, m),
    decreases m - j,
{
    if j < m {
        lemma_trim_start_skip(info, j + 1, m);
    }
}

/// Skipping a run of whitespace at the back.
proof fn lemma_trim_end_skip(info: Seq<CharInfo>, m: int, j: int)
    requires
        0 <= m <= j <= info.len(),
        forall|k: int| m <= k < j ==> (#[trigger] info[k]).whitespace,
    ensures
        trim_end(info, j) == trim_end(info, m),
    decreases j - m,
{
    if m < j {
        lemma_trim_end_skip(info, m, j - 1);
    }
}

/// `trim_start` inside a sequence that holds `info` at offset `off`.
proof fn lemma_trim_start_embedded(big: Seq<CharInfo>, info: Seq<CharInfo>, off: int, j: int)
    requires
        0 <= off,
        off + info.len() <= big.len(),
        forall|k: int| 0 <= k < info.len() ==> big[off + k] == #[trigger] info[k],
        0 <= j <= info.len(),
    ensures
        trim_start(info, j) < info.len() ==> trim_start(big, off + j) == off + trim_start(info, j),
        trim_start(info, j) == info.len() ==> trim_start(big, off + j) == trim_start(
            big,
            off + info.len(),
        ),
    decreases info.len() - j,
{
    if j < info.len() {
        assert(big[off + j] == info[j]);
        if info[j].whitespace {
            lemma_trim_start_embedded(big, info, off, j + 1);
        }
    }
}

/// `trim_end` inside a sequence that holds `info` at offset `off`.
proof fn lemma_trim_end_embedded(big: Seq<CharInfo>, info: Seq<CharInfo>, off: int, j: int)
    requires
        0 <= off,
        off + info.len() <= big.len(),
        forall|k: int| 0 <= k < info.len() ==> big[off + k] == #[trigger] info[k],
        0 <= j <= info.len(),
    ensures
        trim_end(info, j) > 0 ==> trim_end(big, off + j) == off + trim_end(info, j),
        trim_end(info, j) == 0 ==> trim_end(big, off + j) == trim_end(big, off),
    decreases j,
{
    if j > 0 {
        assert(big[off + j - 1] == info[j - 1]);
        if info[j - 1].whitespace {
            lemma_trim_end_embedded(big, info, off, j - 1);
        }
    }
}

/// Whitespace around the source does not change its tokens: the source is
/// trimmed before it is read, so lines and columns count from its first
/// character that is not whitespace.
pub proof fn lemma_tokenize_ignores_surrounding_whitespace(
    s: Seq<char>,
    info: Seq<CharInfo>,
    pre: Seq<char>,
    pre_info: Seq<CharInfo>,
    post: Seq<char>,
    post_info: Seq<CharInfo>,
)
    requires
        s.len() == info.len(),
        pre.len() == pre_info.len(),
        post.len() == post_info.len(),
        forall|k: int| 0 <= k < pre_info.len() ==> (#[trigger] pre_info[k]).whitespace,
        forall|k: int| 0 <= k < post_info.len() ==> (#[trigger] post_info[k]).whitespace,
    ensures
        spec_tokenize(pre + s + post, pre_info + info + post_info) == spec_tokenize(s, info),
{
    let big_s = pre + s + post;
    let big = pre_info + info + post_info;
    let off = pre.len() as int;
    let mid = off + info.len();
    let n = big.len() as int;
    assert forall|k: int| 0 <= k < info.len() implies big[off + k] == #[trigger] info[k] by {}
    assert forall|k: int| 0 <= k < off implies (#[trigger] big[k]).whitespace by {
        assert(big[k] == pre_info[k]);
    }
    assert forall|k: int| mid <= k < n implies (#[trigger] big[k]).whitespace by {
        assert(big[k] == post_info[k - mid]);
    }
    lemma_trim_start_skip(big, 0, off);
    lemma_trim_start_skip(big, mid, n);
    lemma_trim_end_skip(big, mid, n);
    lemma_trim_end_skip(big, 0, off);
    lemma_trim_start_embedded(big, info, off, 0);
    lemma_trim_end_embedded(big, info, off, info.len() as int);
    lemma_trim_start_bounds(info, 0);
    lemma_trim_end_bounds(info, info.len() as int);
    let a = trim_start(info, 0);
    let b = trim_end(info, info.len() as int);
    if a < info.len() {
        assert(b > a) by {
            if b <= a {
                assert(info[a].whitespace);
            }
        }
        assert(trimmed_range(big) == (off + a, off + b));
        assert(big_s.subrange(off + a, off + b) =~= s.subrange(a, b));
        assert(big.subrange(off + a, off + b) =~= info.subrange(a, b));
    } else {
        assert(b == 0) by {
            if b > 0 {
                assert(!info[b - 1].whitespace);
            }
        }
        assert(trimmed_range(big) == (0int, 0int));
        assert(big_s.subrange(0, 0) =~= s.subrange(0, 0));
        assert(big.subrange(0, 0) =~= info.subrange(0, 0));
    }
}

// ---------------------------------------------------------------------------
// The lexer.
// ---------------------------------------------------------------------------

proof fn lemma_prepend_assoc(
    a: Seq<TokenModel>,
    b: Seq<TokenModel>,
    r: Result<Seq<TokenModel>, TokenizerErrorModel>,
)
    ensures
        prepend(a + b, r) == prepend(a, prepend(b, r)),
{
    match r {
        Ok(ts) => {
            assert((a + b) + ts =~= a + (b + ts));
        },
        Err(_) => {},
    }
}

fn digits_end_exec(s: &Vec<char>, j: usize) -> (k: usize)
    requires
        j <= s.len(),
    ensures
        k == digits_end(s@, j as int),
{
    let mut k = j;
    while k < s.len() && '0' <= s[k] && s[k] <= '9'
        invariant
            j <= k <= s.len(),
            digits_end(s@, k as int) == digits_end(s@, j as int),
        decreases s.len() - k,
    {
        k = k + 1;
    }
    k
}

fn word_end_exec(s: &Vec<char>, info: &Vec<CharInfo>, j: usize) -> (k: usize)
    requires
        j <= s.len(),
        info.len() == s.len(),
    ensures
        k == word_end(s@, info@, j as int),
{
    let mut k = j;
    while k < s.len() && (info[k].alphabetic || s[k] == '_')
        invariant
            j <= k <= s.len(),
            info.len() == s.len(),
            word_end(s@, info@, k as int) == word_end(s@, info@, j as int),
        decreases s.len() - k,
    {
        k = k + 1;
    }
    k
}

fn line_end_exec(s: &Vec<char>, j: usize) -> (k: usize)
    requires
        j <= s.len(),
    ensures
        k == line_end(s@, j as int),
{
    let mut k = j;
    while k < s.len() && s[k] != '\n'
        invariant
            j <= k <= s.len(),
            line_end(s@, k as int) == line_end(s@, j as int),
        decreases s.len() - k,
    {
        k = k + 1;
    }
    k
}

fn quote_exec(s: &Vec<char>, j: usize) -> (r: Option<usize>)
    requires
        j <= s.len(),
    ensures
        r matches Some(k) ==> quote_at_or_after(s@, j as int) == Some(k as int),
        r is None ==> quote_at_or_after(s@, j as int) is None,
{
    let mut k = j;
    while k < s.len()
        invariant
            j <= k <= s.len(),
            quote_at_or_after(s@, k as int) == quote_at_or_after(s@, j as int),
        decreases s.len() - k,
    {
        if s[k] == '"' {
            return Some(k);
        }
        k = k + 1;
    }
    None
}

fn comment_close_exec(s: &Vec<char>, j: usize) -> (r: Option<usize>)
    requires
        j <= s.len(),
    ensures
        r matches Some(k) ==> comment_close_after(s@, j as int) == Some(k as int),
        r is None ==> comment_close_after(s@, j as int) is None,
{
    let mut k = j;
    while k < s.len()
        invariant
            j <= k <= s.len(),
            comment_close_after(s@, k as int) == comment_close_after(s@, j as int),
        decreases s.len() - k,
    {
        if s[k] == '*' && k + 1 < s.len() && s[k + 1] == '/' {
            return Some(k + 2);
        }
        k = k + 1;
    }
    None
}

/// The text `s[a..b]` as a `String`.
fn substring(s: &Vec<char>, a: usize, b: usize) -> (r: String)
    requires
        a <= b <= s.len(),
    ensures
        r@ == s@.subrange(a as int, b as int),
{
    let mut r = String::new();
    let mut k = a;
    while k < b
        invariant
            a <= k <= b <= s.len(),
            r@ == s@.subrange(a as int, k as int),
        decreases b - k,
    {
        push_char(&mut r, s[k]);
        assert(s@.subrange(a as int, k + 1) =~= s@.subrange(a as int, k as int).push(s@[k as int]));
        k = k + 1;
    }
    r
}

/// Whether `s[a..b]` spells `w`.
fn span_eq(s: &Vec<char>, a: usize, b: usize, w: &Vec<char>) -> (r: bool)
    requires
        a <= b <= s.len(),
    ensures
        r == (s@.subrange(a as int, b as int) =~= w@),
{
    if b - a != w.len() {
        return false;
    }
    let mut k: usize = 0;
    while k < w.len()
        invariant
            a <= b <= s.len(),
            b - a == w.len(),
            0 <= k <= w.len(),
            forall|m: int| 0 <= m < k ==> s@[a + m] == w@[m],
        decreases w.len() - k,
    {
        if s[a + k] != w[k] {
            assert(s@.subrange(a as int, b as int)[k as int] != w@[k as int]);
            return false;
        }
        k = k + 1;
    }
    true
}

/// The token that the word `s[a..b]` makes.
fn word_token_exec(s: &Vec<char>, a: usize, b: usize) -> (t: TokenType)
    requires
        a <= b <= s.len(),
    ensures
        t@ == word_token(s@.subrange(a as int, b as int)),
{
    if span_eq(s, a, b, &vec!['a', 'n', 'd']) {
        TokenType::And
    } else if span_eq(s, a, b, &vec!['c', 'l', 'a', 's', 's']) {
        TokenType::Class
    } else if span_eq(s, a, b, &vec!['e', 'l', 's', 'e']) {
        TokenType::Else
    } else if span_eq(s, a, b, &vec!['f', 'a', 'l', 's', 'e']) {
        TokenType::Literal(Literal::Boolean(false))
    } else if span_eq(s, a, b, &vec!['f', 'u', 'n']) {
        TokenType::Fun
    } else if span_eq(s, a, b, &vec!['f', 'o', 'r']) {
        TokenType::For
    } else if span_eq(s, a, b, &vec!['i', 'f']) {
        TokenType::If
    } else if span_eq(s, a, b, &vec!['n', 'i', 'l']) {
        TokenType::Literal(Literal::Nil)
    } else if span_eq(s, a, b, &vec!['o', 'r']) {
        TokenType::Or
    } else if span_eq(s, a, b, &vec!['p', 'r', 'i', 'n', 't']) {
        TokenType::Print
    } else if span_eq(s, a, b, &vec!['r', 'e', 't', 'u', 'r', 'n']) {
        TokenType::Return
    } else if span_eq(s, a, b, &vec!['s', 'u', 'p', 'e', 'r']) {
        TokenType::Super
    } else if span_eq(s, a, b, &vec!['t', 'h', 'i', 's']) {
        TokenType::This
    } else if span_eq(s, a, b, &vec!['t', 'r', 'u', 'e']) {
        TokenType::Literal(Literal::Boolean(true))
    } else if span_eq(s, a, b, &vec!['v', 'a', 'r']) {
        TokenType::Var
    } else if span_eq(s, a, b, &vec!['w', 'h', 'i', 'l', 'e']) {
        TokenType::While
    } else {
        TokenType::Literal(Literal::Identifier(substring(s, a, b)))
    }
}

fn single_char_exec(c: char) -> (r: Option<TokenType>)
    ensures
        r is Some == single_char_token(c) is Some,
        r matches Some(t) ==> t@ == single_char_token(c)->0,
{
    if c == '(' {
        Some(TokenType::LeftParenthesis)
    } else if c == ')' {
        Some(TokenType::RightParenthesis)
    } else if c == '{' {
        Some(TokenType::LeftBrace)
    } else if c == '}' {
        Some(TokenType::RightBrace)
    } else if c == ',' {
        Some(TokenType::Comma)
    } else if c == '.' {
        Some(TokenType::Dot)
    } else if c == '-' {
        Some(TokenType::Minus)
    } else if c == '+' {
        Some(TokenType::Plus)
    } else if c == ';' {
        Some(TokenType::Semicolon)
    } else if c == '*' {
        Some(TokenType::Star)
    } else {
        None
    }
}

fn pair_char_exec(c: char) -> (r: Option<(TokenType, TokenType)>)
    ensures
        r is Some == pair_char_token(c) is Some,
        r matches Some(p) ==> p.0@ == (pair_char_token(c)->0).0 && p.1@ == (pair_char_token(c)->0).1,
{
    if c == '!' {
        Some((TokenType::Bang, TokenType::BangEqual))
    } else if c == '=' {
        Some((TokenType::Equal, TokenType::EqualEqual))
    } else if c == '<' {
        Some((TokenType::Less, TokenType::LessEqual))
    } else if c == '>' {
        Some((TokenType::Greater, TokenType::GreaterEqual))
    } else {
        None
    }
}

/// The line and column after the text `s[a..b]`.
fn pos_after_exec(s: &Vec<char>, info: &Vec<CharInfo>, a: usize, b: usize, line: usize, col: usize) -> (r: (usize, usize))
    requires
        a <= b <= s.len(),
        info.len() == s.len(),
        line + (b - a) <= usize::MAX,
        col + 4 * (b - a) <= usize::MAX,
    ensures
        (r.0 as nat, r.1 as nat) == pos_after(s@, info@, a as int, b as int, line as nat, col as nat),
        line <= r.0 <= line + (b - a),
        r.1 <= col + 4 * (b - a),
{
    let mut k = a;
    let mut l = line;
    let mut c = col;
    while k < b
        invariant
            a <= k <= b <= s.len(),
            info.len() == s.len(),
            line + (b - a) <= usize::MAX,
            col + 4 * (b - a) <= usize::MAX,
            line <= l <= line + (k - a),
            c <= col + 4 * (k - a),
            pos_after(s@, info@, k as int, b as int, l as nat, c as nat) == pos_after(
                s@,
                info@,
                a as int,
                b as int,
                line as nat,
                col as nat,
            ),
        decreases b - k,
    {
        let ch = s[k];
        if ch != '\n' && info[k].zero_width {
        } else if ch == '\n' {
            c = 1;
            l = l + 1;
        } else if ch == '\t' {
            c = c + 4;
        } else {
            c = c + 1;
        }
        k = k + 1;
    }
    (l, c)
}

/// Appends the token of kind `tt` read from `s[a..b]` at `line`, `col`, and
/// returns the line and column after it.
fn emit(
    tokens: &mut Vec<Token>,
    tt: TokenType,
    s: &Vec<char>,
    info: &Vec<CharInfo>,
    a: usize,
    b: usize,
    line: usize,
    col: usize,
) -> (r: (usize, usize))
    requires
        a <= b <= s.len(),
        info.len() == s.len(),
        line + (b - a) <= usize::MAX,
        col + 4 * (b - a) <= usize::MAX,
    ensures
        tokens_model(final(tokens)@) == tokens_model(old(tokens)@) + seq![
            token_at(tt@, s@, a as int, b as int, line as nat, col as nat),
        ],
        (r.0 as nat, r.1 as nat) == pos_after(s@, info@, a as int, b as int, line as nat, col as nat),
        line <= r.0 <= line + (b - a),
        r.1 <= col + 4 * (b - a),
{
    let lexeme = substring(s, a, b);
    let ghost old_tokens = tokens@;
    tokens.push(Token { token_type: tt, lexeme, line, col });
    assert(tokens_model(tokens@) =~= tokens_model(old_tokens) + seq![
        token_at(tt@, s@, a as int, b as int, line as nat, col as nat),
    ]);
    pos_after_exec(s, info, a, b, line, col)
}

/// Lexes the characters `s`, where `info[k]` is what the Unicode tables say of
/// `s[k]`, from line 1, column 1.
fn lex_exec(s: &Vec<char>, info: &Vec<CharInfo>) -> (r: Result<Vec<Token>, TokenizerError>)
    requires
        info.len() == s.len(),
        s.len() < usize::MAX / 4,
    ensures
        lex_result_model(r) == lex(s@, info@, 0, 1, 1),
{
    let n = s.len();
    let mut tokens: Vec<Token> = Vec::new();
    let mut i: usize = 0;
    let mut line: usize = 1;
    let mut col: usize = 1;
    assert(tokens_model(tokens@) =~= Seq::<TokenModel>::empty());
    assert(prepend(tokens_model(tokens@), lex(s@, info@, 0, 1, 1)) == lex(s@, info@, 0, 1, 1)) by {
        match lex(s@, info@, 0, 1, 1) {
            Ok(ts) => {
                assert(Seq::<TokenModel>::empty() + ts =~= ts);
            },
            Err(_) => {},
        }
    }
    while i < n
        invariant
            n == s.len(),
            info.len() == s.len(),
            s.len() < usize::MAX / 4,
            i <= n,
            1 <= line <= i + 1,
            col <= 4 * i + 1,
            prepend(tokens_model(tokens@), lex(s@, info@, i as int, line as nat, col as nat)) == lex(
                s@,
                info@,
                0,
                1,
                1,
            ),
        decreases n - i,
    {
        let c = s[i];
        let ghost pre = tokens_model(tokens@);
        let ghost (gi, gline, gcol) = (i as int, line as nat, col as nat);
        if c != '\n' && info[i].zero_width {
            i = i + 1;
        } else if c == '\n' {
            i = i + 1;
            line = line + 1;
            col = 1;
        } else if c == '\t' {
            i = i + 1;
            col = col + 4;
        } else if c == ' ' {
            i = i + 1;
            col = col + 1;
        } else if c == '/' && i + 1 < n && s[i + 1] == '/' {
            proof {
                lemma_line_end(s@, i + 1);
            }
            i = line_end_exec(s, i + 1);
        } else if c == '/' && i + 1 < n && s[i + 1] == '*' {
            proof {
                lemma_comment_close_after(s@, i + 1);
            }
            match comment_close_exec(s, i + 1) {
                None => {
                    return Err(TokenizerError::UnterminatedBlockComment(line, col));
                },
                Some(k) => {
                    i = k;
                },
            }
        } else if c == '"' {
            proof {
                lemma_quote_at_or_after(s@, i + 1);
            }
            match quote_exec(s, i + 1) {
                None => {
                    return Err(TokenizerError::UnterminatedStringLiteral(line, col));
                },
                Some(k) => {
                    let val = substring(s, i + 1, k);
                    let tt = TokenType::Literal(Literal::String(val));
                    let p = emit(&mut tokens, tt, s, info, i, k + 1, line, col);
                    proof {
                        lemma_prepend_assoc(pre, seq![token_at(tt@, s@, gi, k + 1, gline, gcol)], lex(s@, info@, k + 1, p.0 as nat, p.1 as nat));
                    }
                    i = k + 1;
                    line = p.0;
                    col = p.1;
                },
            }
        } else if '0' <= c && c <= '9' {
            proof {
                lemma_digits_end(s@, i + 1);
            }
            let j = digits_end_exec(s, i + 1);
            if j < n && s[j] == '.' {
                if j + 1 < n && '0' <= s[j + 1] && s[j + 1] <= '9' {
                    proof {
                        lemma_digits_end(s@, j + 1);
                    }
                    let k = digits_end_exec(s, j + 1);
                    let tt = TokenType::Literal(Literal::Number(substring(s, i, k)));
                    let p = emit(&mut tokens, tt, s, info, i, k, line, col);
                    proof {
                        lemma_prepend_assoc(pre, seq![token_at(tt@, s@, gi, k as int, gline, gcol)], lex(s@, info@, k as int, p.0 as nat, p.1 as nat));
                    }
                    i = k;
                    line = p.0;
                    col = p.1;
                } else {
                    return Err(TokenizerError::InvalidNumberLiteral(substring(s, i, j + 1), line, col));
                }
            } else {
                let tt = TokenType::Literal(Literal::Number(substring(s, i, j)));
                let p = emit(&mut tokens, tt, s, info, i, j, line, col);
                proof {
                    lemma_prepend_assoc(pre, seq![token_at(tt@, s@, gi, j as int, gline, gcol)], lex(s@, info@, j as int, p.0 as nat, p.1 as nat));
                }
                i = j;
                line = p.0;
                col = p.1;
            }
        } else if ('a' <= c && c <= 'z') || ('A' <= c && c <= 'Z') || c == '_' {
            proof {
                lemma_word_end(s@, info@, i + 1);
            }
            let j = word_end_exec(s, info, i + 1);
            let tt = word_token_exec(s, i, j);
            let p = emit(&mut tokens, tt, s, info, i, j, line, col);
            proof {
                lemma_prepend_assoc(pre, seq![token_at(tt@, s@, gi, j as int, gline, gcol)], lex(s@, info@, j as int, p.0 as nat, p.1 as nat));
            }
            i = j;
            line = p.0;
            col = p.1;
        } else if c == '/' {
            let tt = TokenType::Slash;
            let p = emit(&mut tokens, tt, s, info, i, i + 1, line, col);
            proof {
                lemma_prepend_assoc(pre, seq![token_at(tt@, s@, gi, gi + 1, gline, gcol)], lex(s@, info@, gi + 1, p.0 as nat, p.1 as nat));
            }
            i = i + 1;
            line = p.0;
            col = p.1;
        } else {
            match single_char_exec(c) {
                Some(tt) => {
                    let p = emit(&mut tokens, tt, s, info, i, i + 1, line, col);
                    proof {
                        lemma_prepend_assoc(pre, seq![token_at(tt@, s@, gi, gi + 1, gline, gcol)], lex(s@, info@, gi + 1, p.0 as nat, p.1 as nat));
                    }
                    i = i + 1;
                    line = p.0;
                    col = p.1;
                },
                None => {
                    match pair_char_exec(c) {
                        Some((single, double)) => {
                            if i + 1 < n && s[i + 1] == '=' {
                                let p = emit(&mut tokens, double, s, info, i, i + 2, line, col);
                                proof {
                                    lemma_prepend_assoc(pre, seq![token_at(double@, s@, gi, gi + 2, gline, gcol)], lex(s@, info@, gi + 2, p.0 as nat, p.1 as nat));
                                }
                                i = i + 2;
                                line = p.0;
                                col = p.1;
                            } else {
                                let p = emit(&mut tokens, single, s, info, i, i + 1, line, col);
                                proof {
                                    lemma_prepend_assoc(pre, seq![token_at(single@, s@, gi, gi + 1, gline, gcol)], lex(s@, info@, gi + 1, p.0 as nat, p.1 as nat));
                                }
                                i = i + 1;
                                line = p.0;
                                col = p.1;
                            }
                        },
                        None => {
                            return Err(TokenizerError::BadChar(c, line, col));
                        },
                    }
                },
            }
        }
    }
    let ghost pre = tokens_model(tokens@);
    let eof = Token { token_type: TokenType::Eof, lexeme: String::new(), line, col };
    tokens.push(eof);
    assert(tokens_model(tokens@) =~= pre + seq![eof@]);
    Ok(tokens)
}

/// The tokens of the characters `chars`, where `info[k]` is what the Unicode
/// tables say of `chars[k]` (see [`tokenize`], which asks them).
pub fn tokenize_chars(chars: &Vec<char>, info: &Vec<CharInfo>) -> (r: Result<Vec<Token>, TokenizerError>)
    requires
        info.len() == chars.len(),
        chars.len() < usize::MAX / 4,
    ensures
        lex_result_model(r) == spec_tokenize(chars@, info@),
{
    let n = chars.len();
    let mut a: usize = 0;
    while a < n && info[a].whitespace
        invariant
            a <= n == info.len(),
            trim_start(info@, a as int) == trim_start(info@, 0),
        decreases n - a,
    {
        a = a + 1;
    }
    let mut b: usize = n;
    while b > 0 && info[b - 1].whitespace
        invariant
            b <= n == info.len(),
            trim_end(info@, b as int) == trim_end(info@, n as int),
        decreases b,
    {
        b = b - 1;
    }
    if a >= b {
        a = 0;
        b = 0;
    }
    let mut s: Vec<char> = Vec::new();
    let mut si: Vec<CharInfo> = Vec::new();
    let mut k = a;
    while k < b
        invariant
            a <= k <= b <= n == chars.len() == info.len(),
            s@ == chars@.subrange(a as int, k as int),
            si@ == info@.subrange(a as int, k as int),
        decreases b - k,
    {
        s.push(chars[k]);
        si.push(info[k]);
        k = k + 1;
    }
    lex_exec(&s, &si)
}

/// What the Unicode tables say of `c`.
fn char_info_exec(c: char) -> (ci: CharInfo)
    ensures
        ci == char_info(c),
{
    let zero_width = match char_width(c) {
        Some(w) => w == 0,
        None => true,
    };
    CharInfo {
        whitespace: char_is_whitespace(c),
        zero_width,
        alphabetic: char_is_alphabetic(c),
    }
}

/// The tokens of `source`.
///
/// The source is trimmed of whitespace at both ends and read from line 1,
/// column 1; the last token is always `Eof`.
pub fn tokenize(source: &String) -> (r: Result<Vec<Token>, TokenizerError>)
    requires
        source@.len() < usize::MAX / 4,
    ensures
        lex_result_model(r) == spec_tokenize(source@, source@.map_values(|c: char| char_info(c))),
{
    let mut chars: Vec<char> = Vec::new();
    let mut info: Vec<CharInfo> = Vec::new();
    broadcast use vstd::string::group_string_axioms;
    for c in it: source.chars()
        invariant
            it.seq() == source@,
            chars@ == source@.subrange(0, it.index()),
            info@ == source@.subrange(0, it.index()).map_values(|c: char| char_info(c)),
    {
        chars.push(c);
        info.push(char_info_exec(c));
        assert(source@.subrange(0, it.index() + 1) =~= source@.subrange(0, it.index()).push(c));
        assert(info@ =~= source@.subrange(0, it.index() + 1).map_values(|c: char| char_info(c)));
    }
    assert(source@.subrange(0, source@.len() as int) =~= source@);
    tokenize_chars(&chars, &info)
}

} // verus!
