use frontend::ast::{AstNode, Module as ModuleNode};
use frontend::cli::{mode_of_name, select_mode, Mode};
use frontend::deep_eq::{expr_deep_eq, type_expr_deep_eq};
use frontend::grammar::PrefixEntryPoint;
use frontend::hir::{
    missing_expr_id, missing_type_expr_id, Expr, ExprIdx, Literal, LowerError, TypeExpr,
    TypeExprIdx,
};
use frontend::lexer::lex;
use frontend::lower::parse_int;
use frontend::module::Module;
use frontend::syntax_kind::SyntaxKind;
use frontend::token_set::TokenSet;
use frontend::tree::SyntaxElement;
use frontend::{parse, parse_internal};

fn lowered(text: &str) -> Module {
    let mut module = Module::new();
    module.lower_module(&parse(text).module()).unwrap();
    module
}

fn expr_at(module: &Module, idx: ExprIdx) -> Expr {
    module.expr(idx).unwrap().clone()
}

fn type_at(module: &Module, idx: TypeExprIdx) -> TypeExpr {
    *module.type_expr(idx).unwrap()
}

#[test]
fn two_parameters_make_two_closures() {
    let parsed = parse("def f x y = 42;");
    assert!(parsed.errors.is_empty());
    let mut module = Module::new();
    module.lower_module(&parsed.module()).unwrap();
    let definition = module.definitions()[0].clone();
    assert_eq!(module.lookup(definition.name), "f");
    assert_eq!(definition.params.len(), 2);
    assert_eq!(module.definitions().len(), 1);

    let value = definition.defn;
    let (outer_param, outer_type, outer_body) = match expr_at(&module, value) {
        Expr::LambdaExpr { param, return_type, body } => (param, return_type, body),
        other => panic!("expected a closure, found {:?}", other),
    };
    assert_eq!(module.lookup(outer_param.name), "x");
    assert_eq!(outer_param.typ, missing_type_expr_id());
    assert_eq!(outer_type, missing_type_expr_id());
    let (inner_param, inner_type, inner_body) = match expr_at(&module, outer_body) {
        Expr::LambdaExpr { param, return_type, body } => (param, return_type, body),
        other => panic!("expected a closure, found {:?}", other),
    };
    assert_eq!(module.lookup(inner_param.name), "y");
    assert_eq!(inner_type, missing_type_expr_id());
    assert_eq!(expr_at(&module, inner_body), Expr::LiteralExpr(Literal::Int(42)));
}

#[test]
fn annotated_parameter_makes_one_closure() {
    let parsed = parse("def f (x: int) = x;");
    assert!(parsed.errors.is_empty());
    let mut module = Module::new();
    module.lower_module(&parsed.module()).unwrap();
    let definition = module.definitions()[0].clone();
    let value = definition.defn;
    let (param, body) = match expr_at(&module, value) {
        Expr::LambdaExpr { param, body, .. } => (param, body),
        other => panic!("expected a closure, found {:?}", other),
    };
    assert_eq!(module.lookup(param.name), "x");
    match type_at(&module, param.typ) {
        TypeExpr::IdentTypeExpr { name } => assert_eq!(module.lookup(name), "int"),
        other => panic!("expected a type identifier, found {:?}", other),
    }
    match expr_at(&module, body) {
        Expr::IdentExpr { name } => {
            assert_eq!(module.lookup(name), "x");
            assert_eq!(name, param.name);
        }
        other => panic!("expected an identifier, found {:?}", other),
    }
    assert_ne!(param.typ, missing_type_expr_id());
}

#[test]
fn definition_without_parameters_is_its_body() {
    let module = lowered("def f = 42;");
    let definition = module.definitions()[0].clone();
    assert_eq!(expr_at(&module, definition.defn), Expr::int_expr(42));
    assert_eq!(module.expr_count(), 2);
    assert_eq!(module.name_count(), 1);
}

#[test]
fn a_definition_and_its_lambda_are_bound_to_the_same() {
    for (sugar, written) in [
        ("def f x y = 42;", "def f = \\x -> \\y -> 42;"),
        ("def f x = (g x);", "def f = \\x -> (g x);"),
        ("def f x y z { let a = x; (a y z) }", "def f = \\x -> \\y -> \\z -> { let a = x; (a y z) };"),
        ("def f x (y: T) = y;", "def f = \\x -> \\(y: T) -> y;"),
    ] {
        let first = lowered(sugar);
        let second = lowered(written);
        assert!(
            expr_deep_eq(
                &first,
                &second,
                first.definitions()[0].defn,
                second.definitions()[0].defn
            ),
            "{}",
            sugar
        );
    }
}

#[test]
fn block_with_let_becomes_one_let_binding() {
    let module = lowered("def f { let x: Int = 42; x }");
    let definition = module.definitions()[0].clone();
    let binding = match expr_at(&module, definition.defn) {
        Expr::LetExpr(binding) => binding,
        other => panic!("expected a let, found {:?}", other),
    };
    assert_eq!(module.lookup(binding.name), "x");
    assert!(binding.params.is_empty());
    assert_eq!(expr_at(&module, binding.defn), Expr::int_expr(42));
    match type_at(&module, binding.return_type) {
        TypeExpr::IdentTypeExpr { name } => assert_eq!(module.lookup(name), "Int"),
        other => panic!("expected a type identifier, found {:?}", other),
    }
    match expr_at(&module, binding.body) {
        Expr::IdentExpr { name } => assert_eq!(module.lookup(name), "x"),
        other => panic!("expected an identifier, found {:?}", other),
    }
    match type_at(&module, definition.return_type) {
        TypeExpr::IdentTypeExpr { name } => assert_eq!(module.lookup(name), "Int"),
        other => panic!("expected a type identifier, found {:?}", other),
    }
}

#[test]
fn own_annotation_wins_over_the_let() {
    let module = lowered("def f : A { let x: B = 1; x }");
    let definition = module.definitions()[0].clone();
    match type_at(&module, definition.return_type) {
        TypeExpr::IdentTypeExpr { name } => assert_eq!(module.lookup(name), "A"),
        other => panic!("expected a type identifier, found {:?}", other),
    }
}

#[test]
fn empty_parentheses_and_braces_are_unit() {
    for text in ["def x = ();", "def x = {};", "def x { }", "def x = ( );"] {
        let module = lowered(text);
        let definition = module.definitions()[0].clone();
        assert_eq!(
            expr_at(&module, definition.defn),
            Expr::LiteralExpr(Literal::Unit),
            "{}",
            text
        );
    }
}

#[test]
fn missing_body_is_the_sentinel() {
    let parsed = parse("def f =");
    assert_eq!(parsed.errors.len(), 1);
    assert_eq!(parsed.errors[0].message, "Expected expression");
    let mut module = Module::new();
    module.lower_module(&parsed.module()).unwrap();
    let definition = module.definitions()[0].clone();
    assert_eq!(definition.defn, missing_expr_id());
    assert_eq!(definition.return_type, missing_type_expr_id());
    assert_eq!(module.lookup(definition.name), "f");
    assert_eq!(expr_at(&module, definition.defn), Expr::Missing);
}

#[test]
fn errors_are_placed() {
    let parsed = parse("def f =");
    assert_eq!(parsed.errors.len(), 1);
    assert_eq!(parsed.errors[0].message, "Expected expression");
    assert_eq!(parsed.errors[0].range, 7..7);

    let parsed = parse("def f = ; def g = 1;");
    assert_eq!(parsed.errors.len(), 1);
    assert_eq!(parsed.errors[0].message, "Expected expression");
    assert_eq!(parsed.errors[0].range, 7..7);

    let parsed = parse("def f = x");
    assert_eq!(parsed.errors.len(), 1);
    assert_eq!(parsed.errors[0].message, "Expected SEMICOLON but found EOF");
    assert_eq!(parsed.errors[0].range, 9..9);

    let parsed = parse("  = def f = 1;");
    assert_eq!(parsed.errors.len(), 1);
    assert_eq!(parsed.errors[0].message, "Expected declaration");
    assert_eq!(parsed.errors[0].range, 2..3);

    let parsed = parse("def f { ) }");
    assert_eq!(parsed.errors.len(), 1);
    assert_eq!(parsed.errors[0].message, "Unexpected token: R_PAREN");
    assert_eq!(parsed.errors[0].range, 8..9);
}

#[test]
fn the_tree_keeps_every_byte() {
    let inputs = [
        "",
        "   ",
        "def f x y = 42;",
        "def f (x: int) = x;",
        "# a comment\ndef f { let x: Int = 42; x }\n",
        "def = = ;; } { type T = -> ; open",
        "\\ \t\r\n ((( ",
        "def f = «λ» → ü;",
        "type Pair = a -> (b -> c) -> d ; open M ; def g = (f 1 (g 2) \\x -> x);",
        "def h = 1 + 2 * 3 - 4 / 5;",
    ];
    for input in inputs {
        for entry in [PrefixEntryPoint::Module, PrefixEntryPoint::Expr, PrefixEntryPoint::TypeExpr] {
            let parsed = parse_internal(input, entry);
            assert_eq!(parsed.syntax().to_text(), input);
            let green = parsed.green().unwrap();
            assert_eq!(green.to_string(), input);
        }
    }
    let tokens = lex("def f = «λ»;");
    let joined: String = tokens.iter().map(|t| t.text.as_str()).collect();
    assert_eq!(joined, "def f = «λ»;");
}

#[test]
fn the_green_tree_has_the_kinds_of_the_tree() {
    let parsed = parse("def f = x;");
    let green = parsed.green().unwrap();
    assert_eq!(green.kind().0, SyntaxKind::MODULE.index());
    assert_eq!(u32::from(green.text_len()), 10);
    let definition = green.children().next().unwrap().into_node().unwrap().to_owned();
    assert_eq!(definition.kind().0, SyntaxKind::DEFINITION.index());
    let first = definition.children().next().unwrap().into_token().unwrap().to_owned();
    assert_eq!(first.kind().0, SyntaxKind::DEF_KW.index());
    assert_eq!(first.text(), "def");
    assert_eq!(definition.children().count(), 6);
}

#[test]
fn parsing_and_lowering_twice_gives_the_same() {
    let input = "def f x (y: a -> b) : c { let z = (g x y); z; \\w -> w }\ntype T = a;\nopen M;";
    let first = parse(input);
    let second = parse(input);
    assert_eq!(first.debug_tree(), second.debug_tree());
    assert_eq!(first.errors, second.errors);
    let mut a = Module::new();
    let mut b = Module::new();
    a.lower_module(&first.module()).unwrap();
    b.lower_module(&second.module()).unwrap();
    assert_eq!(a, b);
}

#[test]
fn only_position_zero_is_missing() {
    let module = lowered("def f = ; def g x = ( ); def h { let a b; } type T = ; def k : = \\ -> ;");
    assert_eq!(expr_at(&module, missing_expr_id()), Expr::Missing);
    assert_eq!(type_at(&module, missing_type_expr_id()), TypeExpr::Missing);
    for (idx, expr) in module.expressions().iter() {
        assert_eq!(*expr == Expr::Missing, idx.into_raw().into_u32() == 0);
    }
    for (idx, type_expr) in module.type_expressions().iter() {
        assert_eq!(*type_expr == TypeExpr::Missing, idx.into_raw().into_u32() == 0);
    }
    let mut module = module;
    let before = module.expr_count();
    assert_eq!(module.alloc_expr(Expr::Missing), missing_expr_id());
    assert_eq!(module.alloc_type_expr(TypeExpr::Missing), missing_type_expr_id());
    assert_eq!(module.expr_count(), before);
}

#[test]
fn several_parameters_are_nested_closures() {
    let sugar = lowered("def f = \\x y z -> 42;");
    let nested = lowered("def f = \\x -> \\y -> \\z -> 42;");
    let left = sugar.definitions()[0].defn;
    let right = nested.definitions()[0].defn;
    assert!(expr_deep_eq(&sugar, &nested, left, right));

    let other = lowered("def f = \\x -> \\z -> \\y -> 42;");
    assert!(!expr_deep_eq(&sugar, &other, left, other.definitions()[0].defn));

    let with_params = lowered("def f x y : T = 42;");
    let definition = with_params.definitions()[0].clone();
    let value = definition.defn;
    let outer_type = match expr_at(&with_params, value) {
        Expr::LambdaExpr { return_type, .. } => return_type,
        other => panic!("expected a closure, found {:?}", other),
    };
    assert_eq!(outer_type, missing_type_expr_id());
    let written = lowered("def f = \\x -> \\y : T -> 42;");
    assert!(expr_deep_eq(&with_params, &written, value, written.definitions()[0].defn));
}

#[test]
fn arrows_group_to_the_right() {
    let module = lowered("type T = a -> b -> c;");
    let definition = *module.type_definitions()[0];
    let (from, to) = match type_at(&module, definition.defn) {
        TypeExpr::TypeArrow { from, to } => (from, to),
        other => panic!("expected an arrow, found {:?}", other),
    };
    match type_at(&module, from) {
        TypeExpr::IdentTypeExpr { name } => assert_eq!(module.lookup(name), "a"),
        other => panic!("expected a type identifier, found {:?}", other),
    }
    let (b, c) = match type_at(&module, to) {
        TypeExpr::TypeArrow { from, to } => (from, to),
        other => panic!("expected an arrow, found {:?}", other),
    };
    match type_at(&module, b) {
        TypeExpr::IdentTypeExpr { name } => assert_eq!(module.lookup(name), "b"),
        other => panic!("expected a type identifier, found {:?}", other),
    }
    match type_at(&module, c) {
        TypeExpr::IdentTypeExpr { name } => assert_eq!(module.lookup(name), "c"),
        other => panic!("expected a type identifier, found {:?}", other),
    }
    let grouped = lowered("type T = a -> (b -> c);");
    assert!(type_expr_deep_eq(&module, &grouped, definition.defn, grouped.type_definitions()[0].defn));
    let left = lowered("type T = (a -> b) -> c;");
    assert!(!type_expr_deep_eq(&module, &left, definition.defn, left.type_definitions()[0].defn));
}

#[test]
fn application_groups_to_the_left() {
    let module = lowered("def x = (f a b);");
    let defn = module.definitions()[0].defn;
    let (func, arg) = match expr_at(&module, defn) {
        Expr::AppExpr { func, arg } => (func, arg),
        other => panic!("expected an application, found {:?}", other),
    };
    match expr_at(&module, arg) {
        Expr::IdentExpr { name } => assert_eq!(module.lookup(name), "b"),
        other => panic!("expected an identifier, found {:?}", other),
    }
    let (f, a) = match expr_at(&module, func) {
        Expr::AppExpr { func, arg } => (func, arg),
        other => panic!("expected an application, found {:?}", other),
    };
    match expr_at(&module, f) {
        Expr::IdentExpr { name } => assert_eq!(module.lookup(name), "f"),
        other => panic!("expected an identifier, found {:?}", other),
    }
    match expr_at(&module, a) {
        Expr::IdentExpr { name } => assert_eq!(module.lookup(name), "a"),
        other => panic!("expected an identifier, found {:?}", other),
    }
    let grouped = lowered("def x = ((f a) b);");
    assert!(expr_deep_eq(&module, &grouped, defn, grouped.definitions()[0].defn));
    let right = lowered("def x = (f (a b));");
    assert!(!expr_deep_eq(&module, &right, defn, right.definitions()[0].defn));
}

#[test]
fn a_malformed_declaration_does_not_spoil_the_next() {
    let clean = lowered("def g x = (h x); type T = a -> b; open M;");
    for prefix in ["= 1 2 ;", "x y z }", ") ( ;", "1 2 3", "let ;"] {
        let parsed = parse(&format!("{prefix} def g x = (h x); type T = a -> b; open M;"));
        assert!(parsed.errors.iter().any(|e| e.message == "Expected declaration"));
        let mut module = Module::new();
        module.lower_module(&parsed.module()).unwrap();
        assert_eq!(module, clean, "{}", prefix);
    }
    let parsed = parse("def f = ; def g = 1;");
    assert_eq!(parsed.errors.len(), 1);
    let mut module = Module::new();
    module.lower_module(&parsed.module()).unwrap();
    assert_eq!(module.definitions().len(), 2);
    assert_eq!(module.definitions()[0].defn, missing_expr_id());
    let second = module.definitions()[1].clone();
    assert_eq!(module.lookup(second.name), "g");
    assert_eq!(expr_at(&module, second.defn), Expr::int_expr(1));
}

#[test]
fn binary_expressions_are_unsupported() {
    let parsed = parse("def a = 1; def x = 1 + 2; def b = 2;");
    assert!(parsed.errors.is_empty());
    let mut module = Module::new();
    let result = module.lower_module(&parsed.module());
    assert_eq!(result, Err(LowerError::UnsupportedBinaryExpr));
    assert_eq!(module.definitions().len(), 1);

    let nested = parse("def x { let y = (f \\z -> (z * 2)); y }");
    assert!(nested.errors.is_empty());
    let mut module = Module::new();
    assert_eq!(module.lower_module(&nested.module()), Err(LowerError::UnsupportedBinaryExpr));

    let in_type_only = parse("def x : a = 1;");
    let mut module = Module::new();
    assert_eq!(module.lower_module(&in_type_only.module()), Ok(()));
}

#[test]
fn integer_literals() {
    assert_eq!(parse_int("0"), Some(0));
    assert_eq!(parse_int("42"), Some(42));
    assert_eq!(parse_int("007"), Some(7));
    assert_eq!(parse_int("9223372036854775807"), Some(i64::MAX));
    assert_eq!(parse_int("9223372036854775808"), None);
    assert_eq!(parse_int("99999999999999999999999"), None);
    assert_eq!(parse_int(""), None);
    assert_eq!(parse_int("12a"), None);
    assert_eq!(parse_int("-1"), None);
    let module = lowered("def x = 9223372036854775808;");
    assert_eq!(module.definitions()[0].defn, missing_expr_id());
    let module = lowered("def x = 9223372036854775807;");
    assert_eq!(
        expr_at(&module, module.definitions()[0].defn),
        Expr::LiteralExpr(Literal::Int(i64::MAX))
    );
}

#[test]
fn names_are_interned() {
    let mut module = Module::new();
    let x = module.name("x");
    let y = module.name("y");
    let again = module.name("x");
    let empty = module.empty_name();
    assert_eq!(x, again);
    assert_ne!(x, y);
    assert_ne!(empty, x);
    assert_eq!(module.name(""), empty);
    assert_eq!(module.lookup(x), "x");
    assert_eq!(module.lookup(y), "y");
    assert_eq!(module.lookup(empty), "");
    let lowered = lowered("def f x = (x x); def x = f;");
    let first = lowered.definitions()[0].clone();
    let second = lowered.definitions()[1].clone();
    assert_eq!(first.params[0].name, second.name);
    assert_eq!(first.name.raw, 1);
    assert_eq!(second.name.raw, 0);
}

#[test]
fn statements_become_lets() {
    let module = lowered("def f { a; let b c = d; e }");
    let outer = match expr_at(&module, module.definitions()[0].defn) {
        Expr::LetExpr(binding) => binding,
        other => panic!("expected a let, found {:?}", other),
    };
    assert_eq!(module.lookup(outer.name), "");
    assert!(outer.params.is_empty());
    assert_eq!(outer.return_type, missing_type_expr_id());
    match expr_at(&module, outer.defn) {
        Expr::IdentExpr { name } => assert_eq!(module.lookup(name), "a"),
        other => panic!("expected an identifier, found {:?}", other),
    }
    let inner = match expr_at(&module, outer.body) {
        Expr::LetExpr(binding) => binding,
        other => panic!("expected a let, found {:?}", other),
    };
    assert_eq!(module.lookup(inner.name), "b");
    assert_eq!(inner.params.len(), 1);
    assert_eq!(module.lookup(inner.params[0].name), "c");
    match expr_at(&module, inner.body) {
        Expr::IdentExpr { name } => assert_eq!(module.lookup(name), "e"),
        other => panic!("expected an identifier, found {:?}", other),
    }
}

#[test]
fn tokens_have_the_kind_of_their_text() {
    let kinds: Vec<SyntaxKind> = lex("def type open let x1 42 ( ) { } : ; = -> \\ + - * / ? # c\n _a")
        .iter()
        .map(|t| t.kind)
        .filter(|k| !k.is_trivia())
        .collect();
    assert_eq!(
        kinds,
        vec![
            SyntaxKind::DEF_KW,
            SyntaxKind::TYPE_KW,
            SyntaxKind::OPEN_KW,
            SyntaxKind::LET_KW,
            SyntaxKind::IDENT,
            SyntaxKind::INT,
            SyntaxKind::L_PAREN,
            SyntaxKind::R_PAREN,
            SyntaxKind::L_BRACE,
            SyntaxKind::R_BRACE,
            SyntaxKind::COLON,
            SyntaxKind::SEMICOLON,
            SyntaxKind::EQUAL,
            SyntaxKind::ARROW,
            SyntaxKind::BACKSLASH,
            SyntaxKind::PLUS,
            SyntaxKind::MINUS,
            SyntaxKind::STAR,
            SyntaxKind::SLASH,
            SyntaxKind::ERROR,
            SyntaxKind::IDENT,
        ]
    );
    let tokens = lex("a  # rest\n\tb");
    let texts: Vec<&str> = tokens.iter().map(|t| t.text.as_str()).collect();
    assert_eq!(texts, vec!["a", "  ", "# rest", "\n\t", "b"]);
    assert_eq!(tokens[2].kind, SyntaxKind::COMMENT);
    assert_eq!(tokens[3].kind, SyntaxKind::WHITESPACE);
    assert_eq!(lex("define")[0].kind, SyntaxKind::IDENT);
    assert_eq!(lex("-")[0].kind, SyntaxKind::MINUS);
}

#[test]
fn token_sets() {
    let set = TokenSet::new(&[SyntaxKind::IDENT, SyntaxKind::L_PAREN]);
    assert!(set.contains(SyntaxKind::IDENT));
    assert!(set.contains(SyntaxKind::L_PAREN));
    assert!(!set.contains(SyntaxKind::R_PAREN));
    assert!(!TokenSet::empty().contains(SyntaxKind::WHITESPACE));
    let union = set.union(TokenSet::empty().with(SyntaxKind::LET_STMT));
    assert!(union.contains(SyntaxKind::LET_STMT));
    assert!(union.contains(SyntaxKind::IDENT));
    assert!(!union.contains(SyntaxKind::EOF));
    assert_eq!(SyntaxKind::LET_STMT.index(), 42);
    assert_eq!(SyntaxKind::DEF_KW.name(), "DEF_KW");
}

#[test]
fn comments_and_strange_text_are_rendered() {
    let parsed = parse("# \"q\"\n");
    assert_eq!(
        parsed.debug_tree(),
        "MODULE@0..6\n  COMMENT@0..5 \"# \\\"q\\\"\"\n  WHITESPACE@5..6 \"\\n\"\n"
    );
    let parsed = parse("é");
    assert_eq!(
        parsed.debug_tree(),
        "MODULE@0..2\n  ERROR@0..2\n    ERROR@0..2 \"é\"\n"
    );
    assert_eq!(parsed.errors.len(), 1);
    assert_eq!(parsed.errors[0].range, 0..2);
}

#[test]
fn other_entry_points_take_the_whole_input() {
    let parsed = parse_internal("a b", PrefixEntryPoint::TypeExpr);
    assert_eq!(parsed.syntax().kind(), SyntaxKind::ERROR);
    assert_eq!(parsed.syntax().to_text(), "a b");
    assert!(parsed.errors.iter().any(|e| e.message == "Expected end of input"));
    let parsed = parse_internal("(f x)", PrefixEntryPoint::Expr);
    assert!(parsed.errors.is_empty());
    assert_eq!(parsed.syntax().kind(), SyntaxKind::PAREN_EXPR);
    let parsed = parse_internal("", PrefixEntryPoint::Expr);
    assert_eq!(parsed.syntax().kind(), SyntaxKind::ERROR);
    assert_eq!(parsed.errors[0].message, "Expected expression");
}

#[test]
fn typed_view_of_the_root() {
    let ok: Result<ModuleNode, _> = parse("def f = 1;").ok();
    assert_eq!(ok.unwrap().syntax().to_text(), "def f = 1;");
    let failed: Result<ModuleNode, _> = parse("def").ok();
    let errors = failed.unwrap_err();
    assert_eq!(errors[0].message, "Expected IDENT but found EOF");

    let other_root = parse_internal(")", PrefixEntryPoint::Expr);
    assert_ne!(other_root.root.kind, SyntaxKind::MODULE);
    let messages: Vec<String> = other_root.errors.iter().map(|e| e.message.clone()).collect();
    assert!(!messages.is_empty());
    let failed: Result<ModuleNode, _> = other_root.ok();
    let returned: Vec<String> = failed.unwrap_err().iter().map(|e| e.message.clone()).collect();
    assert_eq!(returned, messages);
}

#[test]
fn a_module_counts_what_it_holds() {
    let mut module = Module::new();
    assert_eq!((module.expr_count(), module.type_expr_count(), module.name_count()), (1, 1, 0));
    assert!(module.fits());
    module.name("x");
    module.name("y");
    module.name("x");
    assert_eq!(module.name_count(), 2);
    let lowered = lowered("def f (x: a -> b) y = \\z -> (x y z);");
    assert_eq!(lowered.name_count(), 7);
    assert!(lowered.fits());
}

#[test]
fn currying_stores_one_closure_less_than_parameters() {
    let mut module = Module::new();
    let body = module.alloc_expr(Expr::int_expr(1));
    let before = module.expr_count();
    let x = frontend::hir::Param { name: module.name("x"), typ: missing_type_expr_id() };
    let y = frontend::hir::Param { name: module.name("y"), typ: missing_type_expr_id() };
    let z = frontend::hir::Param { name: module.name("z"), typ: missing_type_expr_id() };
    let int = module.name("Int");
    let int = module.alloc_type_expr(TypeExpr::IdentTypeExpr { name: int });

    let one = module.curry(body, &vec![x], int);
    assert_eq!(module.expr_count(), before);
    assert_eq!(one, Expr::lambda_expr(x, int, body));

    let three = module.curry(body, &vec![x, y, z], int);
    assert_eq!(module.expr_count(), before + 2);
    let inner = ExprIdx { raw: before as u32 };
    let middle = ExprIdx { raw: before as u32 + 1 };
    assert_eq!(expr_at(&module, inner), Expr::lambda_expr(z, int, body));
    assert_eq!(expr_at(&module, middle), Expr::lambda_expr(y, missing_type_expr_id(), inner));
    assert_eq!(three, Expr::lambda_expr(x, missing_type_expr_id(), middle));

    let none = module.curry(body, &vec![], int);
    assert_eq!(module.expr_count(), before + 2);
    match none {
        Expr::LambdaExpr { param, return_type, body: inside } => {
            assert_eq!(module.lookup(param.name), "");
            assert_eq!((return_type, inside), (int, body));
        }
        other => panic!("expected a closure, found {:?}", other),
    }
}

#[test]
fn positions_follow_the_order_of_lowering() {
    let module = lowered("def f x = (g x);");
    let definition = module.definitions()[0].clone();
    assert_eq!(definition.params[0].name.raw, 0);
    assert_eq!(definition.name.raw, 2);
    assert_eq!(definition.defn.raw, 4);
    assert_eq!(module.expr_count(), 5);
    assert_eq!(module.type_expr_count(), 1);
    assert_eq!(module.name_count(), 4);
    let body = match expr_at(&module, definition.defn) {
        Expr::LambdaExpr { param, return_type, body } => {
            assert_eq!(param, definition.params[0]);
            assert_eq!(return_type, missing_type_expr_id());
            body
        }
        other => panic!("expected a closure, found {:?}", other),
    };
    assert_eq!(body.raw, 3);
    let (func, arg) = match expr_at(&module, body) {
        Expr::AppExpr { func, arg } => (func, arg),
        other => panic!("expected an application, found {:?}", other),
    };
    assert_eq!((func.raw, arg.raw), (1, 2));
    match expr_at(&module, func) {
        Expr::IdentExpr { name } => assert_eq!(name.raw, 1),
        other => panic!("expected an identifier, found {:?}", other),
    }
    match expr_at(&module, arg) {
        Expr::IdentExpr { name } => assert_eq!(name.raw, 0),
        other => panic!("expected an identifier, found {:?}", other),
    }

    let block = lowered("def f { a; b }");
    let outer = match expr_at(&block, block.definitions()[0].defn) {
        Expr::LetExpr(binding) => binding,
        other => panic!("expected a let, found {:?}", other),
    };
    assert_eq!(block.lookup(outer.name), "");
    assert_eq!((outer.body.raw, outer.defn.raw), (1, 2));
    match expr_at(&block, outer.body) {
        Expr::IdentExpr { name } => assert_eq!((name.raw, block.lookup(name)), (0, "b")),
        other => panic!("expected an identifier, found {:?}", other),
    }
}

#[test]
fn the_first_argument_selects_the_mode() {
    assert_eq!(select_mode(None), Mode::Parse);
    assert_eq!(select_mode(Some("parse")), Mode::Parse);
    assert_eq!(select_mode(Some("PARSE")), Mode::Parse);
    assert_eq!(select_mode(Some("repl")), Mode::REPL);
    assert_eq!(select_mode(Some("Lsp")), Mode::LSP);
    assert_eq!(select_mode(Some("check")), Mode::REPL);
    assert_eq!(select_mode(Some("")), Mode::REPL);
    assert_eq!(mode_of_name("lsp"), Mode::LSP);
    assert_eq!(mode_of_name("LSP"), Mode::REPL);
}

fn walk(element: &SyntaxElement, out: &mut Vec<String>) {
    match element {
        SyntaxElement::Token(token) => out.push(format!("{:?} {:?}", token.kind, token.text)),
        SyntaxElement::Node(node) => {
            out.push(format!("{:?} (", node.kind));
            for child in &node.children {
                walk(child, out);
            }
            out.push(")".to_string());
        }
    }
}

#[test]
fn what_follows_a_malformed_declaration_is_parsed_as_if_alone() {
    let rest = " \n def g x = (h x); # note\n type T = a -> b; open";
    let alone = parse(rest);
    let mut expected = Vec::new();
    for child in &alone.root.children {
        walk(child, &mut expected);
    }
    // The trivia at the start of `rest` goes into its root.
    let lead = 1;
    let alone_messages: Vec<&str> = alone.errors.iter().map(|e| e.message.as_str()).collect();
    assert_eq!(alone_messages, ["Expected IDENT but found EOF", "Expected SEMICOLON but found EOF"]);

    for before in ["= 1 2 ;", "x y z }", ") ( ;", "def f = ;", "def f x y }", "type = ;"] {
        let text = format!("{before}{rest}");
        let whole = parse(&text);
        let mut steps = Vec::new();
        for child in &whole.root.children {
            walk(child, &mut steps);
        }
        assert!(steps.len() >= expected.len() - lead, "{}", before);
        assert_eq!(
            steps[steps.len() - (expected.len() - lead)..],
            expected[lead..],
            "{}",
            before
        );
        let messages: Vec<&str> = whole.errors.iter().map(|e| e.message.as_str()).collect();
        assert!(messages.len() > alone_messages.len(), "{}", before);
        assert_eq!(
            messages[messages.len() - alone_messages.len()..],
            alone_messages[..],
            "{}",
            before
        );
        let shift = before.len();
        for first in &whole.errors[..messages.len() - alone_messages.len()] {
            assert!(first.range.end <= shift, "{}", before);
        }
        for (later, own) in whole.errors[messages.len() - alone_messages.len()..]
            .iter()
            .zip(alone.errors.iter())
        {
            if own.range.start > 0 {
                assert_eq!(later.range, own.range.start + shift..own.range.end + shift);
            }
        }
    }
}
