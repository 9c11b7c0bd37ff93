use yangfmt::lexing::scan;
use yangfmt::node::{NodeValue, Statement};
use yangfmt::parsing::{parse_statement, ParseError};

fn parse_one(text: &str) -> Result<(Statement, bool), ParseError> {
    let bytes: Vec<u8> = text.bytes().collect();
    let mut token_stream = scan(&bytes);
    parse_statement(&mut token_stream)
}

#[test]
fn parse_keyword_only() {
    let (statement, opens_block) = parse_one("foo;").unwrap();

    assert_eq!(statement, Statement::new("foo"));
    assert_eq!(opens_block, false);
}

#[test]
fn parse_keyword_and_value() {
    let (statement, opens_block) = parse_one("foo 123;").unwrap();

    assert_eq!(
        Statement::new("foo").with_value(NodeValue::Number("123".to_string())),
        statement,
    );
    assert_eq!(opens_block, false);

    let (statement, opens_block) = parse_one("foo \"bar\";").unwrap();

    assert_eq!(
        Statement::new("foo").with_value(NodeValue::String("\"bar\"".to_string())),
        statement,
    );
    assert_eq!(opens_block, false);

    let (statement, opens_block) = parse_one("foo bar;").unwrap();

    assert_eq!(
        Statement::new("foo").with_value(NodeValue::Other("bar".to_string())),
        statement,
    );
    assert_eq!(opens_block, false);
}

#[test]
fn parse_string_concatenation() {
    let (statement, opens_block) = parse_one(r#"pattern "foo" + "bar";"#).unwrap();

    assert_eq!(
        Statement::new("pattern").with_value(NodeValue::StringConcatenation(vec![
            ("\"foo\"".to_string(), vec![],),
            ("\"bar\"".to_string(), vec![],),
        ],),),
        statement,
    );
    assert_eq!(opens_block, false);

    let (statement, opens_block) = parse_one(r#"pattern "foo" + "bar" {"#).unwrap();

    assert_eq!(
        Statement::new("pattern").with_value(NodeValue::StringConcatenation(vec![
            ("\"foo\"".to_string(), vec![],),
            ("\"bar\"".to_string(), vec![],),
        ],),),
        statement,
    );
    assert_eq!(opens_block, true);
}

#[test]
fn parse_string_concatenation_comments() {
    let (statement, opens_block) = parse_one(
        r#"pattern "foo"  // Comment here
              + "bar"// Another comments here
              + "baz" /* several */ /* comments *//*here*/
              ; // Semicolon on separate line because why not"#,
    )
    .unwrap();

    assert_eq!(
        Statement::new("pattern")
            .with_value(NodeValue::StringConcatenation(vec![
                ("\"foo\"".to_string(), vec!["// Comment here".to_string(),],),
                (
                    "\"bar\"".to_string(),
                    vec!["// Another comments here".to_string(),],
                ),
                (
                    "\"baz\"".to_string(),
                    vec![
                        "/* several */".to_string(),
                        "/* comments */".to_string(),
                        "/*here*/".to_string(),
                    ],
                ),
            ]))
            .with_post_comments(vec![
                "// Semicolon on separate line because why not".to_string()
            ]),
        statement,
    );
    assert_eq!(opens_block, false);
}

#[test]
fn parse_keyword_and_value_comments() {
    let (statement, opens_block) =
        parse_one("foo //bar  \n/* baz */123 // test\n  /*ouch*/ ;").unwrap();

    assert_eq!(
        Statement::new("foo")
            .with_keyword_comments(vec!["//bar  ".to_string(), "/* baz */".to_string()])
            .with_value(NodeValue::Number("123".to_string()))
            .with_value_comments(vec!["// test".to_string(), "/*ouch*/".to_string()]),
        statement
    );
    assert_eq!(opens_block, false);
}

#[test]
fn opens_block() {
    let (statement, opens_block) = parse_one("foo {").unwrap();

    assert_eq!(Statement::new("foo"), statement);
    assert_eq!(true, opens_block);
}

#[test]
fn post_comments() {
    let (statement, opens_block) =
        parse_one("foo; // post comment\n// not post comment").unwrap();

    assert_eq!(
        Statement::new("foo").with_post_comments(vec!["// post comment".to_string()]),
        statement
    );
    assert_eq!(false, opens_block);

    let (statement, opens_block) =
        parse_one("foo { // post comment\n// not post comment").unwrap();

    assert_eq!(
        Statement::new("foo").with_post_comments(vec!["// post comment".to_string()]),
        statement
    );
    assert_eq!(true, opens_block);
}
