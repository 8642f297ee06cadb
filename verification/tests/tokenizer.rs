use lox_rs::tokenizer::{tokenize, tokenize_chars, CharInfo, Literal, Token, TokenType, TokenizerError};

fn tok(token_type: TokenType, lexeme: &str, line: usize, col: usize) -> Token {
    Token { token_type, lexeme: lexeme.to_string(), line, col }
}

fn lex(source: &str) -> Result<Vec<Token>, TokenizerError> {
    tokenize(&source.to_string())
}

fn types(source: &str) -> Vec<TokenType> {
    lex(source).unwrap().into_iter().map(|t| t.token_type).collect()
}

fn ident(name: &str) -> TokenType {
    TokenType::Literal(Literal::Identifier(name.to_string()))
}

fn number(text: &str) -> TokenType {
    TokenType::Literal(Literal::Number(text.to_string()))
}

#[test]
fn empty_source_gives_only_eof() {
    assert_eq!(lex(""), Ok(vec![tok(TokenType::Eof, "", 1, 1)]));
}

#[test]
fn single_character_tokens_and_columns() {
    assert_eq!(
        lex("(){},.-+;*/"),
        Ok(vec![
            tok(TokenType::LeftParenthesis, "(", 1, 1),
            tok(TokenType::RightParenthesis, ")", 1, 2),
            tok(TokenType::LeftBrace, "{", 1, 3),
            tok(TokenType::RightBrace, "}", 1, 4),
            tok(TokenType::Comma, ",", 1, 5),
            tok(TokenType::Dot, ".", 1, 6),
            tok(TokenType::Minus, "-", 1, 7),
            tok(TokenType::Plus, "+", 1, 8),
            tok(TokenType::Semicolon, ";", 1, 9),
            tok(TokenType::Star, "*", 1, 10),
            tok(TokenType::Slash, "/", 1, 11),
            tok(TokenType::Eof, "", 1, 12),
        ])
    );
}

#[test]
fn one_or_two_character_tokens() {
    assert_eq!(
        lex("! != = == < <= > >="),
        Ok(vec![
            tok(TokenType::Bang, "!", 1, 1),
            tok(TokenType::BangEqual, "!=", 1, 3),
            tok(TokenType::Equal, "=", 1, 6),
            tok(TokenType::EqualEqual, "==", 1, 8),
            tok(TokenType::Less, "<", 1, 11),
            tok(TokenType::LessEqual, "<=", 1, 13),
            tok(TokenType::Greater, ">", 1, 16),
            tok(TokenType::GreaterEqual, ">=", 1, 18),
            tok(TokenType::Eof, "", 1, 20),
        ])
    );
}

#[test]
fn keywords_and_identifiers() {
    assert_eq!(
        types("and class else false fun for if nil or print return super this true var while foo _bar"),
        vec![
            TokenType::And,
            TokenType::Class,
            TokenType::Else,
            TokenType::Literal(Literal::Boolean(false)),
            TokenType::Fun,
            TokenType::For,
            TokenType::If,
            TokenType::Literal(Literal::Nil),
            TokenType::Or,
            TokenType::Print,
            TokenType::Return,
            TokenType::Super,
            TokenType::This,
            TokenType::Literal(Literal::Boolean(true)),
            TokenType::Var,
            TokenType::While,
            ident("foo"),
            ident("_bar"),
            TokenType::Eof,
        ]
    );
}

#[test]
fn keyword_prefixes_and_extensions_are_identifiers() {
    assert_eq!(types("an andy printx Print"), vec![ident("an"), ident("andy"), ident("printx"), ident("Print"), TokenType::Eof]);
}

#[test]
fn digits_end_an_identifier() {
    assert_eq!(types("a1"), vec![ident("a"), number("1"), TokenType::Eof]);
}

#[test]
fn number_literals_keep_their_text() {
    assert_eq!(
        lex("12 3.45"),
        Ok(vec![
            tok(number("12"), "12", 1, 1),
            tok(number("3.45"), "3.45", 1, 4),
            tok(TokenType::Eof, "", 1, 8),
        ])
    );
}

#[test]
fn number_without_fraction_digits_is_invalid() {
    assert_eq!(lex("12."), Err(TokenizerError::InvalidNumberLiteral("12.".to_string(), 1, 1)));
    assert_eq!(lex("x 1.a"), Err(TokenizerError::InvalidNumberLiteral("1.".to_string(), 1, 3)));
}

#[test]
fn string_literal() {
    assert_eq!(
        lex("\"hi\" x"),
        Ok(vec![
            tok(TokenType::Literal(Literal::String("hi".to_string())), "\"hi\"", 1, 1),
            tok(ident("x"), "x", 1, 6),
            tok(TokenType::Eof, "", 1, 7),
        ])
    );
}

#[test]
fn string_literal_over_two_lines_moves_the_line() {
    assert_eq!(
        lex("\"a\nb\" c"),
        Ok(vec![
            tok(TokenType::Literal(Literal::String("a\nb".to_string())), "\"a\nb\"", 1, 1),
            tok(ident("c"), "c", 2, 4),
            tok(TokenType::Eof, "", 2, 5),
        ])
    );
}

#[test]
fn unterminated_string() {
    assert_eq!(lex("1 \"abc"), Err(TokenizerError::UnterminatedStringLiteral(1, 3)));
}

#[test]
fn line_comment() {
    assert_eq!(
        lex("1 // c\n2"),
        Ok(vec![tok(number("1"), "1", 1, 1), tok(number("2"), "2", 2, 1), tok(TokenType::Eof, "", 2, 2)])
    );
}

#[test]
fn block_comment_does_not_move_the_column() {
    assert_eq!(lex("/* x */3"), Ok(vec![tok(number("3"), "3", 1, 1), tok(TokenType::Eof, "", 1, 2)]));
}

#[test]
fn slash_star_slash_closes_a_block_comment() {
    assert_eq!(lex("/*/"), Ok(vec![tok(TokenType::Eof, "", 1, 1)]));
}

#[test]
fn unterminated_block_comment() {
    assert_eq!(lex("/* abc"), Err(TokenizerError::UnterminatedBlockComment(1, 1)));
    assert_eq!(lex("1 /**"), Err(TokenizerError::UnterminatedBlockComment(1, 3)));
}

#[test]
fn bad_character() {
    assert_eq!(lex("@"), Err(TokenizerError::BadChar('@', 1, 1)));
    assert_eq!(lex("1 @"), Err(TokenizerError::BadChar('@', 1, 3)));
}

#[test]
fn newlines_move_the_line() {
    assert_eq!(
        lex("x\n\ny"),
        Ok(vec![tok(ident("x"), "x", 1, 1), tok(ident("y"), "y", 3, 1), tok(TokenType::Eof, "", 3, 2)])
    );
}

#[test]
fn surrounding_whitespace_is_trimmed() {
    assert_eq!(lex("\n\n  x  \n"), Ok(vec![tok(ident("x"), "x", 1, 1), tok(TokenType::Eof, "", 1, 2)]));
    assert_eq!(lex("\n\n  x  \n"), lex("x"));
}

#[test]
fn unicode_whitespace_is_trimmed() {
    assert_eq!(lex("\u{3000}1\u{3000}"), Ok(vec![tok(number("1"), "1", 1, 1), tok(TokenType::Eof, "", 1, 2)]));
}

#[test]
fn control_characters_take_no_room() {
    // A tab inside the text has no width, so it is skipped and the column stays.
    assert_eq!(
        lex("1\t2"),
        Ok(vec![tok(number("1"), "1", 1, 1), tok(number("2"), "2", 1, 2), tok(TokenType::Eof, "", 1, 3)])
    );
    assert_eq!(
        lex("a\r\nb"),
        Ok(vec![tok(ident("a"), "a", 1, 1), tok(ident("b"), "b", 2, 1), tok(TokenType::Eof, "", 2, 2)])
    );
}

#[test]
fn zero_width_characters_are_skipped() {
    assert_eq!(lex("1\u{301}"), Ok(vec![tok(number("1"), "1", 1, 1), tok(TokenType::Eof, "", 1, 2)]));
}

#[test]
fn unicode_letters_continue_identifiers() {
    assert_eq!(lex("a\u{e9}"), Ok(vec![tok(ident("a\u{e9}"), "a\u{e9}", 1, 1), tok(TokenType::Eof, "", 1, 3)]));
    assert_eq!(lex("a\u{4e2d} b"), Ok(vec![tok(ident("a\u{4e2d}"), "a\u{4e2d}", 1, 1), tok(ident("b"), "b", 1, 4), tok(TokenType::Eof, "", 1, 5)]));
}

#[test]
fn unicode_letters_do_not_start_identifiers() {
    assert_eq!(lex("\u{e9}"), Err(TokenizerError::BadChar('\u{e9}', 1, 1)));
}

#[test]
fn tokens_always_end_with_a_single_eof() {
    for source in ["", "1", "print 1 + 2;", "(\"a\" != \"b\") // x", "x\ny\nz"] {
        let tokens = lex(source).unwrap();
        assert_eq!(tokens.last().unwrap().token_type, TokenType::Eof);
        assert!(tokens[..tokens.len() - 1].iter().all(|t| t.token_type != TokenType::Eof));
    }
}

#[test]
fn tokenize_chars_uses_the_given_character_information() {
    let plain = CharInfo { whitespace: false, zero_width: false, alphabetic: false };
    let letter = CharInfo { whitespace: false, zero_width: false, alphabetic: true };
    let space = CharInfo { whitespace: true, zero_width: false, alphabetic: false };
    let chars = vec![' ', 'a', 'b', '1', ' '];
    let info = vec![space, letter, letter, plain, space];
    assert_eq!(
        tokenize_chars(&chars, &info),
        Ok(vec![tok(ident("ab"), "ab", 1, 1), tok(number("1"), "1", 1, 3), tok(TokenType::Eof, "", 1, 4)])
    );
    // The same characters, where `b` is said not to continue a word and `1` to take no room.
    let info = vec![space, letter, plain, CharInfo { zero_width: true, ..plain }, space];
    assert_eq!(
        tokenize_chars(&chars, &info),
        Ok(vec![tok(ident("a"), "a", 1, 1), tok(ident("b"), "b", 1, 2), tok(TokenType::Eof, "", 1, 3)])
    );
}
