use yangfmt::lexing::{scan, DebugTokenExt, Token};

fn dedent(text: &str) -> String {
    let mut text = textwrap::dedent(text).trim().to_string();
    text.push('\n');
    text
}

fn tokens_of(buffer: &[u8]) -> Vec<Token> {
    scan(buffer).collect_tokens().expect("Lexer error")
}

#[test]
fn smoke_test() {
    let buffer: Vec<u8> = dedent(
        r#"
         /*
          * This is a block comment
          */

         module test {
             yang-version 1;
             namespace "https://github.com/Hubro/yangparse";
             description 'A small smoke test to make sure basic lexing works';

             revision 2018-12-03 {
                 // I'm a comment!
                 description
                   "A multi-line string starting in an indented line

                    This is an idiomatic way to format large strings
                    in YANG models";
             }

             number 12.34;
         }
         "#,
    )
    .bytes()
    .collect();

    let tokens = tokens_of(&buffer);

    assert_eq!(
        dedent(
            r#"
            Comment              0 -> 32         "/*\n * This is a block comment\n */"
            LineBreak            33 -> 33        "\n"
            LineBreak            34 -> 34        "\n"
            Other                35 -> 40        "module"
            WhiteSpace           41 -> 41        " "
            Other                42 -> 45        "test"
            WhiteSpace           46 -> 46        " "
            OpenCurlyBrace       47 -> 47        "{"
            LineBreak            48 -> 48        "\n"
            WhiteSpace           49 -> 52        "    "
            Other                53 -> 64        "yang-version"
            WhiteSpace           65 -> 65        " "
            Number               66 -> 66        "1"
            SemiColon            67 -> 67        ";"
            LineBreak            68 -> 68        "\n"
            WhiteSpace           69 -> 72        "    "
            Other                73 -> 81        "namespace"
            WhiteSpace           82 -> 82        " "
            String               83 -> 118       "\"https://github.com/Hubro/yangparse\""
            SemiColon            119 -> 119      ";"
            LineBreak            120 -> 120      "\n"
            WhiteSpace           121 -> 124      "    "
            Other                125 -> 135      "description"
            WhiteSpace           136 -> 136      " "
            String               137 -> 188      "'A small smoke test to make sure basic lexing works'"
            SemiColon            189 -> 189      ";"
            LineBreak            190 -> 190      "\n"
            LineBreak            191 -> 191      "\n"
            WhiteSpace           192 -> 195      "    "
            Other                196 -> 203      "revision"
            WhiteSpace           204 -> 204      " "
            Date                 205 -> 214      "2018-12-03"
            WhiteSpace           215 -> 215      " "
            OpenCurlyBrace       216 -> 216      "{"
            LineBreak            217 -> 217      "\n"
            WhiteSpace           218 -> 225      "        "
            Comment              226 -> 242      "// I'm a comment!"
            LineBreak            243 -> 243      "\n"
            WhiteSpace           244 -> 251      "        "
            Other                252 -> 262      "description"
            LineBreak            263 -> 263      "\n"
            WhiteSpace           264 -> 273      "          "
            String               274 -> 410      "\"A multi-line string starting in an indented line\n\n           This is an idiomatic way to format large strings\n           in YANG models\""
            SemiColon            411 -> 411      ";"
            LineBreak            412 -> 412      "\n"
            WhiteSpace           413 -> 416      "    "
            ClosingCurlyBrace    417 -> 417      "}"
            LineBreak            418 -> 418      "\n"
            LineBreak            419 -> 419      "\n"
            WhiteSpace           420 -> 423      "    "
            Other                424 -> 429      "number"
            WhiteSpace           430 -> 430      " "
            Number               431 -> 435      "12.34"
            SemiColon            436 -> 436      ";"
            LineBreak            437 -> 437      "\n"
            ClosingCurlyBrace    438 -> 438      "}"
            LineBreak            439 -> 439      "\n"
            "#
        ),
        tokens.human_readable_string(),
    );
}

#[test]
fn test_string_concatenations() {
    let buffer: Vec<u8> = dedent(
        r#"
        type string {
            pattern '((:|[0-9a-fA-F]{0,4}):)([0-9a-fA-F]{0,4}:){0,5}'
                  + '((([0-9a-fA-F]{0,4}:)?(:|[0-9a-fA-F]{0,4}))|'
                  + '(((25[0-5]|2[0-4][0-9]|[01]?[0-9]?[0-9])\.){3}'
                  + '(25[0-5]|2[0-4][0-9]|[01]?[0-9]?[0-9])))'
                  + '(%[\p{N}\p{L}]+)?';
        }
        "#,
    )
    .bytes()
    .collect();

    let tokens = tokens_of(&buffer);

    assert_eq!(
        dedent(
            r#"
            Other                0 -> 3          "type"
            WhiteSpace           4 -> 4          " "
            Other                5 -> 10         "string"
            WhiteSpace           11 -> 11        " "
            OpenCurlyBrace       12 -> 12        "{"
            LineBreak            13 -> 13        "\n"
            WhiteSpace           14 -> 17        "    "
            Other                18 -> 24        "pattern"
            WhiteSpace           25 -> 25        " "
            String               26 -> 74        "'((:|[0-9a-fA-F]{0,4}):)([0-9a-fA-F]{0,4}:){0,5}'"
            LineBreak            75 -> 75        "\n"
            WhiteSpace           76 -> 85        "          "
            Plus                 86 -> 86        "+"
            WhiteSpace           87 -> 87        " "
            String               88 -> 133       "'((([0-9a-fA-F]{0,4}:)?(:|[0-9a-fA-F]{0,4}))|'"
            LineBreak            134 -> 134      "\n"
            WhiteSpace           135 -> 144      "          "
            Plus                 145 -> 145      "+"
            WhiteSpace           146 -> 146      " "
            String               147 -> 194      "'(((25[0-5]|2[0-4][0-9]|[01]?[0-9]?[0-9])\\.){3}'"
            LineBreak            195 -> 195      "\n"
            WhiteSpace           196 -> 205      "          "
            Plus                 206 -> 206      "+"
            WhiteSpace           207 -> 207      " "
            String               208 -> 249      "'(25[0-5]|2[0-4][0-9]|[01]?[0-9]?[0-9])))'"
            LineBreak            250 -> 250      "\n"
            WhiteSpace           251 -> 260      "          "
            Plus                 261 -> 261      "+"
            WhiteSpace           262 -> 262      " "
            String               263 -> 281      "'(%[\\p{N}\\p{L}]+)?'"
            SemiColon            282 -> 282      ";"
            LineBreak            283 -> 283      "\n"
            ClosingCurlyBrace    284 -> 284      "}"
            LineBreak            285 -> 285      "\n"
            "#
        ),
        tokens.human_readable_string(),
    );
}
