use yangfmt::canonical_order::{is_sorted, sort_statements};
use yangfmt::formatting::{format_yang, Error, FormatConfig, Indent};
use yangfmt::lexing::{scan, LexError, TextPosition, TokenType};
use yangfmt::node::{Node, NodeHelpers, NodeValue, Statement, StatementKeyword};
use yangfmt::parsing::{parse, ParseError};
use yangfmt::parsing_dbg::format_tree;

fn config(indent: u8, width: u16) -> FormatConfig {
    FormatConfig {
        indent: Indent::Spaces(indent),
        line_length: width,
        fix_canonical_order: false,
    }
}

fn format_str(input: &str, config: &FormatConfig) -> String {
    format_yang(input.as_bytes(), config).expect("formatting failed")
}

fn comments_in(nodes: &[Node], out: &mut Vec<String>) {
    for node in nodes {
        match node {
            Node::Comment(text) => out.push(text.clone()),
            Node::EmptyLine(_) => {}
            Node::Statement(st) => {
                out.extend(st.keyword_comments.iter().cloned());
                if let Some(NodeValue::StringConcatenation(parts)) = &st.value {
                    for (_, comments) in parts {
                        out.extend(comments.iter().cloned());
                    }
                }
                out.extend(st.value_comments.iter().cloned());
                out.extend(st.post_comments.iter().cloned());
                if let Some(children) = &st.children {
                    comments_in(children, out);
                }
            }
        }
    }
}

fn shape_of(nodes: &[Node], out: &mut Vec<String>) {
    for node in nodes {
        if let Node::Statement(st) = node {
            let kind = match &st.value {
                None => "-",
                Some(NodeValue::String(_)) | Some(NodeValue::StringConcatenation(_)) => "string",
                Some(NodeValue::Number(_)) => "number",
                Some(NodeValue::Date(_)) => "date",
                Some(NodeValue::Other(_)) => "other",
            };
            out.push(format!("{} {}", st.keyword.text(), kind));
            if let Some(children) = &st.children {
                out.push("{".to_string());
                shape_of(children, out);
                out.push("}".to_string());
            }
        }
    }
}

const SAMPLE: &str = "// head\nmodule   foo /* a */ {\n\n\n  bar 'x' ; // b\n      leaf l { type string; description\n 'd'; }\n\n\n\n  pattern 'a' /* c */ + \"b\";\n\n}\n// tail\n";

#[test]
fn concrete_scenario() {
    assert_eq!(
        format_str("module foo { bar 'x' ; }", &config(2, 79)),
        "module foo {\n  bar \"x\";\n}\n"
    );
}

#[test]
fn unterminated_constructs_fail() {
    match parse(b"foo \"bar") {
        Err(ParseError::Lex(LexError::UnterminatedString { start })) => assert_eq!(start, 4),
        other => panic!("unexpected result: {:?}", other),
    }
    assert!(matches!(
        parse(b"foo { bar;"),
        Err(ParseError::UnclosedBlock { .. })
    ));
    assert!(matches!(
        format_yang(b"foo \"bar", &config(2, 79)),
        Err(Error::ParseError(ParseError::Lex(LexError::UnterminatedString { start: 4 })))
    ));
}

#[test]
fn string_concatenation_is_aligned() {
    assert_eq!(
        format_str("pattern 'a' + 'b' + 'c';", &config(2, 79)),
        "pattern \"a\"\n      + \"b\"\n      + \"c\";\n"
    );
}

#[test]
fn long_values_wrap_short_ones_stay() {
    let config = config(4, 70);
    let long = "m { description \"I should be wrapped to the next line <------------->\"; }";
    assert_eq!(
        format_str(long, &config),
        "m {\n    description\n        \"I should be wrapped to the next line <------------->\";\n}\n"
    );
    assert_eq!(
        format_str("m { description \"short\"; }", &config),
        "m {\n    description \"short\";\n}\n"
    );
    // keyword + value + space + semicolon exactly at the width stays on the line
    assert_eq!(format_str("abcd efgh;", &self::config(2, 10)), "abcd efgh;\n");
    assert_eq!(format_str("abcd efghi;", &self::config(2, 10)), "abcd\n  efghi;\n");
}

#[test]
fn single_quotes_become_double_unless_unsafe() {
    let config = config(2, 79);
    assert_eq!(format_str("a 'b c';", &config), "a \"b c\";\n");
    assert_eq!(format_str("a 'say \"hi\"';", &config), "a 'say \"hi\"';\n");
    assert_eq!(format_str("a \"it's\";", &config), "a \"it's\";\n");
}

#[test]
fn blank_lines_are_trimmed_and_squashed() {
    let out = format_str("\n\n\na;\n\n\n\nb;\n\n\n", &config(2, 79));
    assert_eq!(out, "a;\n\nb;\n");
    let out = format_str("x {\n\n\n  a;\n\n\n  b;\n\n}\n", &config(2, 79));
    assert_eq!(out, "x {\n  a;\n\n  b;\n}\n");
}

#[test]
fn comments_are_conserved() {
    let before = parse(SAMPLE.as_bytes()).unwrap();
    let out = format_str(SAMPLE, &config(2, 79));
    let after = parse(out.as_bytes()).unwrap();
    let mut a = vec![];
    let mut b = vec![];
    comments_in(&before.children, &mut a);
    comments_in(&after.children, &mut b);
    a.sort();
    b.sort();
    assert_eq!(a, b);
    assert_eq!(a.len(), 5);
}

#[test]
fn formatting_is_idempotent() {
    let config = config(2, 79);
    let once = format_str(SAMPLE, &config);
    let twice = format_str(&once, &config);
    assert_eq!(once, twice);
}

#[test]
fn structure_survives_formatting() {
    let before = parse(SAMPLE.as_bytes()).unwrap();
    let out = format_str(SAMPLE, &config(4, 30));
    let after = parse(out.as_bytes()).unwrap();
    let mut a = vec![];
    let mut b = vec![];
    shape_of(&before.children, &mut a);
    shape_of(&after.children, &mut b);
    assert_eq!(a, b);
}

#[test]
fn multi_line_strings_are_dedented_and_realigned() {
    let input = "x {\n  description \"first\n        second\n\n          third\";\n}\n";
    assert_eq!(
        format_str(input, &config(2, 79)),
        "x {\n  description\n    \"first\n     second\n\n       third\";\n}\n"
    );
}

#[test]
fn strings_are_stripped() {
    assert_eq!(format_str("d \"  hi  \";", &config(2, 79)), "d \"hi\";\n");
    assert_eq!(format_str("d '   ';", &config(2, 79)), "d \"\";\n");
}

#[test]
fn each_parse_error_variant() {
    assert!(matches!(parse(b"{"), Err(ParseError::UnexpectedToken { position: 0, .. })));
    assert!(matches!(parse(b"foo"), Err(ParseError::UnexpectedEndOfInput { position: 0 })));
    assert!(matches!(parse(b"}"), Err(ParseError::UnexpectedClosingBrace { position: 0 })));
    assert!(matches!(
        parse(b"foo 1 + 'a';"),
        Err(ParseError::InvalidConcatenation { position: 6 })
    ));
    assert!(matches!(
        parse(b"foo 'a' + ;"),
        Err(ParseError::UnexpectedToken { position: 10, .. })
    ));
    assert!(matches!(
        parse(b"/* open"),
        Err(ParseError::Lex(LexError::UnterminatedComment { start: 0 }))
    ));
    assert!(matches!(
        parse(b"foo\r;"),
        Err(ParseError::Lex(LexError::UnexpectedCharacter { position: 3, character: '\r' }))
    ));
    assert!(matches!(
        parse(b"foo \xff;"),
        Err(ParseError::Lex(LexError::InvalidUtf8 { position: 4 }))
    ));
    assert_eq!(ParseError::UnclosedBlock { position: 7 }.position(), 7);
}

#[test]
fn crlf_line_breaks() {
    let mut stream = scan(b"a;\r\nb;");
    let tokens = stream.collect_tokens().unwrap();
    assert_eq!(tokens[2].token_type, TokenType::LineBreak);
    assert_eq!(tokens[2].span, (2, 3));
    assert_eq!(format_str("a;\r\n\r\n\r\nb;", &config(2, 79)), "a;\n\nb;\n");
}

#[test]
fn text_positions() {
    let buffer = b"ab\ncd\n";
    let p = TextPosition::from_buffer_index(buffer, 4);
    assert_eq!((p.line, p.col), (2, 2));
    let p = TextPosition::from_buffer_index(buffer, 0);
    assert_eq!((p.line, p.col), (1, 1));
    let p = TextPosition::from_buffer_index(buffer, 100);
    assert_eq!((p.line, p.col), (3, 1));
}

#[test]
fn keywords_are_classified() {
    assert!(matches!(Statement::new("leaf").keyword, StatementKeyword::Keyword(_)));
    assert!(matches!(
        Statement::new("ext:thing").keyword,
        StatementKeyword::ExtensionKeyword(_)
    ));
    assert!(matches!(Statement::new("number").keyword, StatementKeyword::Invalid(_)));
    assert_eq!(Statement::new("ext:thing").keyword.text(), "ext:thing");
}

#[test]
fn canonical_order_in_leaf_blocks() {
    let mut nodes = vec![
        Node::Statement(Statement::new("description")),
        Node::Comment("// keep".to_string()),
        Node::Statement(Statement::new("type")),
        Node::EmptyLine("\n".to_string()),
        Node::Statement(Statement::new("foo:bar")),
        Node::Statement(Statement::new("when")),
    ];
    sort_statements(Some("leaf"), &mut nodes);
    let names: Vec<String> = nodes
        .iter()
        .map(|n| match n {
            Node::Statement(st) => st.keyword.text().to_string(),
            Node::Comment(c) => c.clone(),
            Node::EmptyLine(_) => "<blank>".to_string(),
        })
        .collect();
    assert_eq!(names, vec!["when", "// keep", "type", "<blank>", "description", "foo:bar"]);
    assert!(is_sorted(&nodes));
    let unsorted = vec![
        Node::Statement(Statement::new("description")),
        Node::Comment("// c".to_string()),
        Node::Statement(Statement::new("type")),
    ];
    assert!(!is_sorted(&unsorted));

    let mut untouched = vec![
        Node::Statement(Statement::new("description")),
        Node::Statement(Statement::new("type")),
    ];
    sort_statements(Some("container"), &mut untouched);
    assert_eq!(untouched[0], Node::Statement(Statement::new("description")));
}

#[test]
fn canonical_order_through_format() {
    let config = FormatConfig {
        indent: Indent::Spaces(2),
        line_length: 79,
        fix_canonical_order: true,
    };
    assert_eq!(
        format_str("leaf x { description \"d\"; type string; }", &config),
        "leaf x {\n  type string;\n  description \"d\";\n}\n"
    );
}

#[test]
fn tree_dump() {
    let tree = parse(b"// c\nmodule m {\n  yang-version 1; // p\n\n  ext:e;\n  number 1.5;\n}\n")
        .unwrap();
    assert_eq!(
        format_tree(&tree),
        "(root\n  (comment)\n  (Keyword \"module\" Other\n    (Keyword \"yang-version\" Number <post-comment>)\n    [EmptyLine]\n    (ExtensionKeyword \"ext:e\")\n    (INVALID \"number\" Number)))\n"
    );
    assert!(tree.children[0].is_comment());
    assert!(!tree.children[0].is_empty_line());
}

#[test]
fn decimals_below_one_are_numbers() {
    for (text, expected) in [
        ("x 0.5;", TokenType::Number),
        ("x -0.5;", TokenType::Number),
        ("x 12.34;", TokenType::Number),
        ("x 012;", TokenType::Other),
        ("x 2018-12-03;", TokenType::Date),
    ] {
        let tokens = scan(text.as_bytes()).collect_tokens().unwrap();
        assert_eq!(tokens[2].token_type, expected, "{}", text);
    }
}

#[test]
fn concatenation_fragments_are_kept_in_order() {
    let tree = parse(b"pattern 'a' /* x */ + \"b\" + 'c';").unwrap();
    match &tree.children[0] {
        Node::Statement(st) => match &st.value {
            Some(NodeValue::StringConcatenation(parts)) => {
                let texts: Vec<&str> = parts.iter().map(|p| p.0.as_str()).collect();
                assert_eq!(texts, vec!["'a'", "\"b\"", "'c'"]);
                assert_eq!(parts[0].1, vec!["/* x */".to_string()]);
            }
            other => panic!("unexpected value: {:?}", other),
        },
        other => panic!("unexpected node: {:?}", other),
    }
}

#[test]
fn empty_block_and_leaf_differ() {
    let tree = parse(b"a {}\nb;\n\n\nc { d; }\n").unwrap();
    let kinds: Vec<String> = tree
        .children
        .iter()
        .map(|n| match n {
            Node::Statement(st) => format!("{}:{:?}", st.keyword.text(), st.children.as_ref().map(|c| c.len())),
            Node::EmptyLine(_) => "blank".to_string(),
            Node::Comment(c) => c.clone(),
        })
        .collect();
    assert_eq!(kinds, vec!["a:Some(0)", "b:None", "blank", "blank", "c:Some(1)"]);
    assert!(matches!(parse(b"a; }"), Err(ParseError::UnexpectedClosingBrace { position: 3 })));
}
