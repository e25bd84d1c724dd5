use kaleido_lexer::lexer::{tokenize, KeywordType, Token};

fn ident(s: &str) -> Token {
    Token::Identifier(s.to_string())
}

fn num(s: &str) -> Token {
    Token::Number(s.to_string())
}

fn op(s: &str) -> Token {
    Token::Operator(s.to_string())
}

fn number_value(t: &Token) -> f64 {
    match t {
        Token::Number(text) => text.parse::<f64>().unwrap(),
        _ => panic!("not a number token"),
    }
}

#[test]
fn it_works() {
    let input = "
            # Compute the x'th finbonnaci number.
            def fib(x)
                if x < 3 then
                    1
                else
                    fib(x-1) + fib(x-2);

            # This expression will compute the 40th fibonacci number.
            fib(40);

            # Import standard library functions.
            extern sin(arg);
            extern cos(arg);
            extern atan2(arg1, arg2);

            # Call imported functions.
            atan2(sin(.4), cos(42));
            ";
    let expected = vec![
        // Compute the x'th finbonnaci number.
        Token::Keyword(KeywordType::Definition),
        ident("fib"),
        Token::OpenParenthesis,
        ident("x"),
        Token::CloseParenthesis,
        Token::Keyword(KeywordType::If),
        ident("x"),
        op("<"),
        num("3"),
        Token::Keyword(KeywordType::Then),
        num("1"),
        Token::Keyword(KeywordType::Else),
        ident("fib"),
        Token::OpenParenthesis,
        ident("x"),
        op("-"),
        num("1"),
        Token::CloseParenthesis,
        op("+"),
        ident("fib"),
        Token::OpenParenthesis,
        ident("x"),
        op("-"),
        num("2"),
        Token::CloseParenthesis,
        Token::Semicolon,
        // This expression will compute the 40th fibonacci number.
        ident("fib"),
        Token::OpenParenthesis,
        num("40"),
        Token::CloseParenthesis,
        Token::Semicolon,
        // Import standard library functions.
        Token::Keyword(KeywordType::Extern),
        ident("sin"),
        Token::OpenParenthesis,
        ident("arg"),
        Token::CloseParenthesis,
        Token::Semicolon,
        Token::Keyword(KeywordType::Extern),
        ident("cos"),
        Token::OpenParenthesis,
        ident("arg"),
        Token::CloseParenthesis,
        Token::Semicolon,
        Token::Keyword(KeywordType::Extern),
        ident("atan2"),
        Token::OpenParenthesis,
        ident("arg1"),
        Token::Comma,
        ident("arg2"),
        Token::CloseParenthesis,
        Token::Semicolon,
        // Call imported functions.
        ident("atan2"),
        Token::OpenParenthesis,
        ident("sin"),
        Token::OpenParenthesis,
        num(".4"),
        Token::CloseParenthesis,
        Token::Comma,
        ident("cos"),
        Token::OpenParenthesis,
        num("42"),
        Token::CloseParenthesis,
        Token::CloseParenthesis,
        Token::Semicolon,
    ];

    let result = tokenize(input);
    result.iter().zip(expected.iter()).for_each(|(a, b)| {
        assert_eq!(a, b);
    });
    assert_eq!(result, expected);
}

#[test]
fn whitespace_and_comments_yield_nothing() {
    assert_eq!(tokenize(""), vec![]);
    assert_eq!(tokenize("   \t\t \r\n  "), vec![]);
    assert_eq!(tokenize("# only a comment\n"), vec![]);
    assert_eq!(tokenize("  # one\n\t# two\n   \n"), vec![]);
    // a comment left open at the end of the input is honoured to the end
    assert_eq!(tokenize("# no trailing newline"), vec![]);
    assert_eq!(tokenize("x # trailing words def 12"), vec![ident("x")]);
}

#[test]
fn keywords_alone() {
    assert_eq!(tokenize("def"), vec![Token::Keyword(KeywordType::Definition)]);
    assert_eq!(tokenize("extern"), vec![Token::Keyword(KeywordType::Extern)]);
    assert_eq!(tokenize("if"), vec![Token::Keyword(KeywordType::If)]);
    assert_eq!(tokenize("then"), vec![Token::Keyword(KeywordType::Then)]);
    assert_eq!(tokenize("else"), vec![Token::Keyword(KeywordType::Else)]);
}

#[test]
fn identifiers_alone() {
    assert_eq!(tokenize("x"), vec![ident("x")]);
    assert_eq!(tokenize("fib2"), vec![ident("fib2")]);
    assert_eq!(tokenize("Atan2"), vec![ident("Atan2")]);
    // a keyword inside a word, but not at its start, stays one identifier
    assert_eq!(tokenize("xif"), vec![ident("xif")]);
}

#[test]
fn keyword_prefix_splits_a_word() {
    // the keyword-first rule splits a word that begins with a reserved word
    assert_eq!(
        tokenize("define"),
        vec![Token::Keyword(KeywordType::Definition), ident("ine")]
    );
    assert_eq!(tokenize("iffy"), vec![Token::Keyword(KeywordType::If), ident("fy")]);
}

#[test]
fn digit_strings_alone() {
    let tokens = tokenize("40");
    assert_eq!(tokens, vec![num("40")]);
    assert_eq!(number_value(&tokens[0]), 40.0);

    let tokens = tokenize("0070");
    assert_eq!(tokens, vec![num("0070")]);
    assert_eq!(number_value(&tokens[0]), 70.0);
}

#[test]
fn number_shapes() {
    let tokens = tokenize("3.14");
    assert_eq!(tokens, vec![num("3.14")]);
    assert_eq!(number_value(&tokens[0]), 3.14);

    let tokens = tokenize(".4");
    assert_eq!(tokens, vec![num(".4")]);
    assert_eq!(number_value(&tokens[0]), 0.4);

    // a second decimal point starts a new literal
    assert_eq!(tokenize("3.14.5"), vec![num("3.14"), num(".5")]);
    // a dot with no digit after it is dropped, the digits before it stand
    assert_eq!(tokenize("3."), vec![num("3")]);
    // a bare dot matches no rule and is silently dropped
    assert_eq!(tokenize("."), vec![]);
}

#[test]
fn operators_and_unrecognized_characters() {
    assert_eq!(
        tokenize("+ - * / < > ="),
        vec![op("+"), op("-"), op("*"), op("/"), op("<"), op(">"), op("=")]
    );
    // no multi-character operators: `==` is two single-character tokens
    assert_eq!(tokenize("=="), vec![op("="), op("=")]);
    // characters that match no rule are silently dropped
    assert_eq!(tokenize("@ x ! ?"), vec![ident("x")]);
}

#[test]
fn concatenation_with_a_newline_appends_token_sequences() {
    let a = "def fib(x)";
    let b = "fib(40);";
    let joined = format!("{}\n{}", a, b);
    let mut expected = tokenize(a);
    expected.extend(tokenize(b));
    assert_eq!(tokenize(&joined), expected);

    // also when the first fragment ends in an open comment
    let a = "x # open comment";
    let joined = format!("{}\n{}", a, b);
    let mut expected = tokenize(a);
    expected.extend(tokenize(b));
    assert_eq!(tokenize(&joined), expected);
}

#[test]
fn scenario_definition_header() {
    assert_eq!(
        tokenize("def fib(x)"),
        vec![
            Token::Keyword(KeywordType::Definition),
            ident("fib"),
            Token::OpenParenthesis,
            ident("x"),
            Token::CloseParenthesis,
        ]
    );
}

#[test]
fn scenario_call_statement() {
    let tokens = tokenize("fib(40);");
    assert_eq!(
        tokens,
        vec![
            ident("fib"),
            Token::OpenParenthesis,
            num("40"),
            Token::CloseParenthesis,
            Token::Semicolon,
        ]
    );
    assert_eq!(number_value(&tokens[2]), 40.0);
}

#[test]
fn scenario_comment_then_extern() {
    assert_eq!(
        tokenize("# a comment\nextern sin(arg);"),
        vec![
            Token::Keyword(KeywordType::Extern),
            ident("sin"),
            Token::OpenParenthesis,
            ident("arg"),
            Token::CloseParenthesis,
            Token::Semicolon,
        ]
    );
}

#[test]
fn scenario_comparison() {
    let tokens = tokenize("x < 3");
    assert_eq!(tokens, vec![ident("x"), op("<"), num("3")]);
    assert_eq!(number_value(&tokens[2]), 3.0);
}

#[test]
fn scenario_conditional() {
    let tokens = tokenize("if x then 1 else 2");
    assert_eq!(
        tokens,
        vec![
            Token::Keyword(KeywordType::If),
            ident("x"),
            Token::Keyword(KeywordType::Then),
            num("1"),
            Token::Keyword(KeywordType::Else),
            num("2"),
        ]
    );
    assert_eq!(number_value(&tokens[3]), 1.0);
    assert_eq!(number_value(&tokens[5]), 2.0);
}
