use frontend::grammar::PrefixEntryPoint;
use frontend::parse_internal;

fn trim_indent(text: &str) -> String {
    let text = text.strip_prefix('\n').unwrap_or(text);
    let indent = text
        .lines()
        .filter(|line| !line.trim().is_empty())
        .map(|line| line.len() - line.trim_start().len())
        .min()
        .unwrap_or(0);
    let mut result = String::new();
    for line in text.split_inclusive('\n') {
        if line.len() <= indent {
            result.push_str(line.trim_start_matches(' '));
        } else {
            result.push_str(&line[indent..]);
        }
    }
    result
}

fn check(entry_point: PrefixEntryPoint, input: &str, expected_tree: &str) {
    let parse = parse_internal(input, entry_point);
    assert_eq!(trim_indent(expected_tree), parse.debug_tree());
    assert!(parse.errors.is_empty());
}

fn check_err(
    entry_point: PrefixEntryPoint,
    input: &str,
    expected_tree: &str,
    expected_errors: &[&str],
) {
    let parse = parse_internal(input, entry_point);
    assert_eq!(trim_indent(expected_tree), parse.debug_tree());
    for expected_error in expected_errors {
        assert!(
            parse.errors.iter().any(|it| it.message == *expected_error),
            "expected error `{}`, found: {:?}",
            expected_error,
            parse.errors
        );
    }
}

#[test]
fn parse_definition() {
    check(
        PrefixEntryPoint::Module,
        "def f = x;",
        r#"
        MODULE@0..10
          DEFINITION@0..10
            DEF_KW@0..3 "def"
            WHITESPACE@3..4 " "
            IDENT@4..5 "f"
            WHITESPACE@5..6 " "
            PARAMS@6..6
            DEF_BODY@6..10
              EQUAL@6..7 "="
              WHITESPACE@7..8 " "
              IDENT_EXPR@8..9
                IDENT@8..9 "x"
              SEMICOLON@9..10 ";"
    "#,
    );
}

#[test]
fn parse_def_missing_body() {
    check_err(
        PrefixEntryPoint::Module,
        "def f =",
        r#"
            MODULE@0..7
              DEFINITION@0..7
                DEF_KW@0..3 "def"
                WHITESPACE@3..4 " "
                IDENT@4..5 "f"
                WHITESPACE@5..6 " "
                PARAMS@6..6
                DEF_BODY@6..7
                  EQUAL@6..7 "="
                  ERROR@7..7
        "#,
        &["Expected expression"],
    );
}

#[test]
fn parse_def_only() {
    check_err(
        PrefixEntryPoint::Module,
        "def",
        r#"
            MODULE@0..3
              DEFINITION@0..3
                DEF_KW@0..3 "def"
                ERROR@3..3
                PARAMS@3..3
                DEF_BODY@3..3
        "#,
        &["Expected IDENT but found EOF"],
    );
}

#[test]
fn parse_def_with_param_type_annotation() {
    check(
        PrefixEntryPoint::Module,
        "def f(x: Int) = x;",
        r#"
            MODULE@0..18
              DEFINITION@0..18
                DEF_KW@0..3 "def"
                WHITESPACE@3..4 " "
                IDENT@4..5 "f"
                PARAMS@5..14
                  PARAM@5..14
                    L_PAREN@5..6 "("
                    IDENT@6..7 "x"
                    TYPE_ANNOTATION@7..12
                      COLON@7..8 ":"
                      WHITESPACE@8..9 " "
                      TYPE_IDENT@9..12
                        IDENT@9..12 "Int"
                    R_PAREN@12..13 ")"
                    WHITESPACE@13..14 " "
                DEF_BODY@14..18
                  EQUAL@14..15 "="
                  WHITESPACE@15..16 " "
                  IDENT_EXPR@16..17
                    IDENT@16..17 "x"
                  SEMICOLON@17..18 ";"
        "#,
    );
}

#[test]
fn parse_def_with_return_type_annotation() {
    check(
        PrefixEntryPoint::Module,
        "def f: Int = 42;",
        r#"
            MODULE@0..16
              DEFINITION@0..16
                DEF_KW@0..3 "def"
                WHITESPACE@3..4 " "
                IDENT@4..5 "f"
                PARAMS@5..5
                TYPE_ANNOTATION@5..11
                  COLON@5..6 ":"
                  WHITESPACE@6..7 " "
                  TYPE_IDENT@7..11
                    IDENT@7..10 "Int"
                    WHITESPACE@10..11 " "
                DEF_BODY@11..16
                  EQUAL@11..12 "="
                  WHITESPACE@12..13 " "
                  LITERAL_EXPR@13..15
                    INT@13..15 "42"
                  SEMICOLON@15..16 ";"
        "#,
    );
}

#[test]
fn parse_annotated_def_lambda() {
    check(
        PrefixEntryPoint::Module,
        "def f : int -> int = \\x -> x;",
        r#"
            MODULE@0..29
              DEFINITION@0..29
                DEF_KW@0..3 "def"
                WHITESPACE@3..4 " "
                IDENT@4..5 "f"
                WHITESPACE@5..6 " "
                PARAMS@6..6
                TYPE_ANNOTATION@6..19
                  COLON@6..7 ":"
                  WHITESPACE@7..8 " "
                  TYPE_ARROW@8..19
                    TYPE_IDENT@8..12
                      IDENT@8..11 "int"
                      WHITESPACE@11..12 " "
                    ARROW@12..14 "->"
                    WHITESPACE@14..15 " "
                    TYPE_IDENT@15..19
                      IDENT@15..18 "int"
                      WHITESPACE@18..19 " "
                DEF_BODY@19..29
                  EQUAL@19..20 "="
                  WHITESPACE@20..21 " "
                  LAMBDA_EXPR@21..28
                    BACKSLASH@21..22 "\\"
                    PARAMS@22..24
                      PARAM@22..24
                        IDENT@22..23 "x"
                        WHITESPACE@23..24 " "
                    ARROW@24..26 "->"
                    WHITESPACE@26..27 " "
                    IDENT_EXPR@27..28
                      IDENT@27..28 "x"
                  SEMICOLON@28..29 ";"
        "#,
    );
}

#[test]
fn parse_type_ident() {
    check(
        PrefixEntryPoint::TypeExpr,
        "a",
        r#"
            TYPE_IDENT@0..1
              IDENT@0..1 "a"
        "#,
    );
}

#[test]
fn parse_type_paren() {
    check(
        PrefixEntryPoint::TypeExpr,
        "(a)",
        r#"
            TYPE_PAREN@0..3
              L_PAREN@0..1 "("
              TYPE_IDENT@1..2
                IDENT@1..2 "a"
              R_PAREN@2..3 ")"
        "#,
    );
}

#[test]
fn parse_type_arrow() {
    check(
        PrefixEntryPoint::TypeExpr,
        "a -> b",
        r#"
            TYPE_ARROW@0..6
              TYPE_IDENT@0..2
                IDENT@0..1 "a"
                WHITESPACE@1..2 " "
              ARROW@2..4 "->"
              WHITESPACE@4..5 " "
              TYPE_IDENT@5..6
                IDENT@5..6 "b"
        "#,
    );
}

#[test]
fn type_arrow_is_right_associative() {
    check(
        PrefixEntryPoint::TypeExpr,
        "a -> b -> c",
        r#"
            TYPE_ARROW@0..11
              TYPE_IDENT@0..2
                IDENT@0..1 "a"
                WHITESPACE@1..2 " "
              ARROW@2..4 "->"
              WHITESPACE@4..5 " "
              TYPE_ARROW@5..11
                TYPE_IDENT@5..7
                  IDENT@5..6 "b"
                  WHITESPACE@6..7 " "
                ARROW@7..9 "->"
                WHITESPACE@9..10 " "
                TYPE_IDENT@10..11
                  IDENT@10..11 "c"
        "#,
    );
}

#[test]
fn parse_type_arrow_nested() {
    check(
        PrefixEntryPoint::TypeExpr,
        "(a -> b) -> c",
        r#"
            TYPE_ARROW@0..13
              TYPE_PAREN@0..9
                L_PAREN@0..1 "("
                TYPE_ARROW@1..7
                  TYPE_IDENT@1..3
                    IDENT@1..2 "a"
                    WHITESPACE@2..3 " "
                  ARROW@3..5 "->"
                  WHITESPACE@5..6 " "
                  TYPE_IDENT@6..7
                    IDENT@6..7 "b"
                R_PAREN@7..8 ")"
                WHITESPACE@8..9 " "
              ARROW@9..11 "->"
              WHITESPACE@11..12 " "
              TYPE_IDENT@12..13
                IDENT@12..13 "c"
        "#,
    );
}

#[test]
fn parse_type_arrow_without_lhs() {
    check_err(
        PrefixEntryPoint::TypeExpr,
        "-> a",
        r#"
            TYPE_ARROW@0..4
              ERROR@0..0
              ARROW@0..2 "->"
              WHITESPACE@2..3 " "
              TYPE_IDENT@3..4
                IDENT@3..4 "a"
        "#,
        &["Expected type expression"],
    );
}

#[test]
fn parse_nothing() {
    check(
        PrefixEntryPoint::Module,
        "",
        r"
        MODULE@0..0
    ",
    );
}

#[test]
fn parse_whitespace() {
    check(
        PrefixEntryPoint::Module,
        "   ",
        r#"
            MODULE@0..3
              WHITESPACE@0..3 "   "
        "#,
    );
}
