use yangfmt::formatting::{format_yang, write_node, Error, FormatConfig, Indent};
use yangfmt::parsing::parse;

fn dedent(text: &str) -> String {
    let mut text = textwrap::dedent(text).trim().to_string();
    text.push('\n');
    text
}

/// Formats the input file into a String
fn format_yang_str(buffer: &[u8], config: &FormatConfig) -> Result<String, Error> {
    format_yang(buffer, config)
}

#[test]
fn formatting_test_write_node() {
    let input_string = dedent(
        r#"
            module foo {
            bar "testing" ;
            foo 123.45    ;


                    revision 2022-02-02 {description "qwerty";} oh "dear";

            }
            "#,
    );

    let tree = parse(input_string.as_bytes()).expect("Failed to parse input");
    let module_node = tree.children.get(0).expect("Failed to get module node");

    let mut out = String::new();

    let config = FormatConfig {
        indent: Indent::Spaces(4),
        line_length: 80,
        fix_canonical_order: false,
    };

    write_node(&mut out, module_node, &config, 0);

    let result = out;

    assert_eq!(
        dedent(
            r#"
            module foo {
                bar "testing";
                foo 123.45;


                revision 2022-02-02 {
                    description "qwerty";
                }
                oh "dear";

            }
            "#
        ),
        result,
    );
}

#[test]
fn formatting_test_format() {
    let result = format_yang_str(
        dedent(
            r#"
            //
            // Comments outside the module block should be fine
            //
            module foo {

            bar      testing  ;
            foo      123.45   ;

            revision 2022-02-03 {
            }
                revision 2022-02-02
                { description "qwerty"; }

            //
            // Some string formatting tests
            //

            test "I am not affected";
            test 'I am converted';
            test 'These "quotes" should remain single';

            description "I am short and sweet";
            description "I should stay on this line line <----------------->";
            description "I should be wrapped to the next line <------------->";
            description "  I should be stripped   ";
            description
                "
                I should be stripped and changed to 1 line
                ";
            description "I am multi-lined,
                so I automatically get wrapped
                to the next line even though each
                individual line is short.";

            description "
            The first line break here should be removed

                 Then the rest of the string should be properly indented.
                 The trailing line breaks should also be removed.

            ";

            pattern '((:|[0-9a-fA-F]{0,4}):)([0-9a-fA-F]{0,4}:){0,5}'+'((([0-9a-fA-F]{0,4}:)?(:|[0-9a-fA-F]{0,4}))|'
            + '(((25[0-5]|2[0-4][0-9]|[01]?[0-9]?[0-9])\.){3}'
             + '(25[0-5]|2[0-4][0-9]|[01]?[0-9]?[0-9])))'
            + '(%[\p{N}\p{L}]+)?';

            pattern
            "foo" + 'bar'
            + 'baz';

            augment "/foo"+"/bar"
            +"/baz"
            {

            }

            //
            // Empty blocks
            //

            test{}

            test{
            }

            test{

            }

            //
            // Comments
            //

            test // This sometimes happens and must be supported
            {
                foo bar;
            }

            test "something" // This sometimes happens and must be supported
            {
                foo bar;
            }

            test "foo" /* This would be weird */ /* But let's support it anyway */
            {
                foo bar;
            }

            test /* foo */ /* bar */ /* baz */ "foo" /* pow */
            {
                // Nobody's ever going to do this (hopefully) so let's not even bother trying
                // to make it prettier. Just don't crash.
            }

            test "foo"; // A comment here is fine
            test "foo" /* This however, is not fine*/ ;
            test /* Nobody would ever do this, let's just not crash */ "foo" /* yuck */ ;

            //
            // Canonical order
            //

            leaf moo {
                description "I should not be sorted because sorting is not enabled";
                type string;
            }
            }"#,
        )
        .as_bytes(),
        &(FormatConfig {
            indent: Indent::Spaces(4),
            line_length: 70,
            fix_canonical_order: false,
        }),
    )
    .unwrap();

    assert_eq!(
        dedent(
            r#"
            //
            // Comments outside the module block should be fine
            //
            module foo {
                bar testing;
                foo 123.45;

                revision 2022-02-03 {
                }
                revision 2022-02-02 {
                    description "qwerty";
                }

                //
                // Some string formatting tests
                //

                test "I am not affected";
                test "I am converted";
                test 'These "quotes" should remain single';

                description "I am short and sweet";
                description "I should stay on this line line <----------------->";
                description
                    "I should be wrapped to the next line <------------->";
                description "I should be stripped";
                description "I should be stripped and changed to 1 line";
                description
                    "I am multi-lined,
                     so I automatically get wrapped
                     to the next line even though each
                     individual line is short.";

                description
                    "The first line break here should be removed

                     Then the rest of the string should be properly indented.
                     The trailing line breaks should also be removed.";

                pattern "((:|[0-9a-fA-F]{0,4}):)([0-9a-fA-F]{0,4}:){0,5}"
                      + "((([0-9a-fA-F]{0,4}:)?(:|[0-9a-fA-F]{0,4}))|"
                      + "(((25[0-5]|2[0-4][0-9]|[01]?[0-9]?[0-9])\.){3}"
                      + "(25[0-5]|2[0-4][0-9]|[01]?[0-9]?[0-9])))"
                      + "(%[\p{N}\p{L}]+)?";

                pattern "foo"
                      + "bar"
                      + "baz";

                augment "/foo"
                      + "/bar"
                      + "/baz" {
                }

                //
                // Empty blocks
                //

                test {
                }

                test {
                }

                test {
                }

                //
                // Comments
                //

                test { // This sometimes happens and must be supported
                    foo bar;
                }

                test "something" { // This sometimes happens and must be supported
                    foo bar;
                }

                test "foo" { /* This would be weird */ /* But let's support it anyway */
                    foo bar;
                }

                test "foo" { /* foo */ /* bar */ /* baz */ /* pow */
                    // Nobody's ever going to do this (hopefully) so let's not even bother trying
                    // to make it prettier. Just don't crash.
                }

                test "foo"; // A comment here is fine
                test "foo"; /* This however, is not fine*/
                test "foo"; /* Nobody would ever do this, let's just not crash */ /* yuck */

                //
                // Canonical order
                //

                leaf moo {
                    description
                        "I should not be sorted because sorting is not enabled";
                    type string;
                }
            }
            "#
        ),
        result,
    );
}

