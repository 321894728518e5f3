use csv_viewer::command::{parse, parse_tokens, string_tokenizer, tokenizer, Expr, ParseError, Token};

#[test]
fn inputting() {
    let expr: Vec<Token> = vec![Token::StringLiteral("h".to_string())];
    assert_eq!(expr, tokenizer("h"));
}

#[test]
fn inputting_with_equal() {
    let expr = vec![Token::Identifier("h".to_string()), Token::Equal];
    assert_eq!(expr, tokenizer("h="));
}

#[test]
fn single() {
    let expr = vec![
        Token::Identifier("hoge".to_string()),
        Token::Equal,
        Token::StringLiteral("foo".to_string()),
    ];
    assert_eq!(expr, tokenizer("hoge=foo"))
}

#[test]
fn multi_clause() {
    let expr = vec![
        Token::Identifier("hoge".to_string()),
        Token::Equal,
        Token::StringLiteral("foo".to_string()),
        Token::Identifier("piyo".to_string()),
        Token::Equal,
        Token::StringLiteral("bar".to_string()),
    ];
    assert_eq!(expr, tokenizer("hoge=foo piyo=bar"))
}

#[test]
fn multi_args() {
    let expr = vec![
        Token::Identifier("hoge".to_string()),
        Token::Equal,
        Token::StringLiteral("foo".to_string()),
        Token::Comma,
        Token::StringLiteral("bar".to_string()),
    ];
    assert_eq!(expr, tokenizer("hoge=foo,bar"))
}

#[test]
fn command_inputting() {
    let tokens = vec![Token::StringLiteral("h".to_string())];
    let result = parse_tokens(tokens);
    assert_eq!(Err(ParseError::UnexpectedToken), result);
    assert_eq!(
        "Invalid token not match",
        result.unwrap_err().message().as_str()
    );
}

#[test]
fn command_inputting_with_equal() {
    let tokens = vec![Token::Identifier("h".to_string()), Token::Equal];
    let result = parse_tokens(tokens);
    assert_eq!(Err(ParseError::UnknownIdentifier("h".to_string())), result);
    assert_eq!("Not found h", result.unwrap_err().message().as_str());
}

#[test]
fn command_single() {
    let tokens = vec![
        Token::Identifier("column".to_string()),
        Token::Equal,
        Token::StringLiteral("foo".to_string()),
    ];

    assert_eq!(
        Ok(vec![Expr::ColumnFilter(Box::new(Expr::ArgList(vec![
            Expr::Arg("foo".to_string())
        ])))]),
        parse_tokens(tokens)
    );
}

#[test]
fn double() {
    let tokens = vec![
        Token::Identifier("column".to_string()),
        Token::Equal,
        Token::StringLiteral("foo".to_string()),
        Token::Identifier("column".to_string()),
        Token::Equal,
        Token::StringLiteral("bar".to_string()),
    ];

    assert_eq!(
        Ok(vec![
            Expr::ColumnFilter(Box::new(Expr::ArgList(vec![Expr::Arg("foo".to_string())]))),
            Expr::ColumnFilter(Box::new(Expr::ArgList(vec![Expr::Arg("bar".to_string())]))),
        ]),
        parse_tokens(tokens)
    );
}

#[test]
fn command_multi_args() {
    let expect = vec![Expr::ColumnFilter(Box::new(Expr::ArgList(vec![
        Expr::Arg("foo".to_string()),
        Expr::Arg("bar".to_string()),
    ])))];

    let tokens = vec![
        Token::Identifier("column".to_string()),
        Token::Equal,
        Token::StringLiteral("foo".to_string()),
        Token::Comma,
        Token::StringLiteral("bar".to_string()),
    ];

    assert_eq!(Ok(expect), parse_tokens(tokens));
}

#[test]
fn miss_equal() {
    let tokens = vec![
        Token::Identifier("column".to_string()),
        Token::StringLiteral("foo".to_string()),
    ];

    let result = parse_tokens(tokens);
    assert_eq!(Err(ParseError::MissingEqual), result);
    assert_eq!("Invalid token", result.unwrap_err().message().as_str());
}

#[test]
fn tokenize_is_total_and_deterministic() {
    for s in ["", "   ", "a=b,c d=e", "=,=", "a==b", "日本=語", "x,\ty\nz"] {
        assert_eq!(tokenizer(s), tokenizer(s));
    }
    assert_eq!(tokenizer(""), vec![]);
}

#[test]
fn tokenize_multiple_equals_in_one_word() {
    let expr = vec![
        Token::Identifier("a".to_string()),
        Token::Equal,
        Token::Identifier("b".to_string()),
        Token::Equal,
        Token::StringLiteral("c".to_string()),
    ];
    assert_eq!(expr, tokenizer("a=b=c"));
}

#[test]
fn string_tokenizer_splits_on_commas() {
    let expr = vec![
        Token::StringLiteral("foo".to_string()),
        Token::Comma,
        Token::StringLiteral("bar".to_string()),
    ];
    assert_eq!(expr, string_tokenizer("foo,bar"));

    let leading = vec![Token::Comma, Token::StringLiteral("a".to_string())];
    assert_eq!(leading, string_tokenizer(",a"));
    assert_eq!(Vec::<Token>::new(), string_tokenizer(""));
}

#[test]
fn parse_single_clause() {
    assert_eq!(
        Ok(vec![Expr::ColumnFilter(Box::new(Expr::ArgList(vec![
            Expr::Arg("foo".to_string())
        ])))]),
        parse("column=foo")
    );
}

#[test]
fn parse_multi_arg_clause() {
    assert_eq!(
        Ok(vec![Expr::ColumnFilter(Box::new(Expr::ArgList(vec![
            Expr::Arg("foo".to_string()),
            Expr::Arg("bar".to_string()),
        ])))]),
        parse("column=foo,bar")
    );
}

#[test]
fn parse_two_clauses() {
    assert_eq!(
        Ok(vec![
            Expr::ColumnFilter(Box::new(Expr::ArgList(vec![Expr::Arg("foo".to_string())]))),
            Expr::ColumnFilter(Box::new(Expr::ArgList(vec![Expr::Arg("bar".to_string())]))),
        ]),
        parse("column=foo column=bar")
    );
}

#[test]
fn parse_unknown_identifier() {
    let result = parse("hoge=foo");
    assert_eq!(Err(ParseError::UnknownIdentifier("hoge".to_string())), result);
    assert_eq!("Not found hoge", result.unwrap_err().message().as_str());
}

#[test]
fn parse_word_without_equal_is_rejected() {
    // The lexer emits an `Identifier` only at a `=`, so a bare word becomes
    // a string literal and the parser rejects it where an identifier was
    // required; `MissingEqual` arises only from token sequences built
    // directly (see `miss_equal`).
    assert_eq!(Err(ParseError::UnexpectedToken), parse("column foo"));
}

#[test]
fn parse_unexpected_token() {
    assert_eq!(Err(ParseError::UnexpectedToken), parse("foo,bar"));
}

#[test]
fn parse_empty_query() {
    assert_eq!(Ok(vec![]), parse(""));
}

#[test]
fn parse_trailing_comma_stops_run() {
    assert_eq!(
        Ok(vec![Expr::ColumnFilter(Box::new(Expr::ArgList(vec![
            Expr::Arg("foo".to_string())
        ])))]),
        parse("column=foo,")
    );
}
