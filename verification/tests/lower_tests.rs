use frontend::deep_eq::{expr_deep_eq, type_expr_deep_eq};
use frontend::hir::{
    missing_expr_id, missing_type_expr_id, Definition, Expr, ExprIdx, Literal, Param, TypeExpr,
    TypeExprIdx,
};
use frontend::module::Module;
use frontend::parse;

fn unannotated_param(module: &mut Module, name: &str) -> Param {
    Param {
        name: module.name(name),
        typ: missing_type_expr_id(),
    }
}

fn check_expr(text: &str, expected_module: &Module) {
    let module_syntax = parse(&format!("def x = {text};")).module();
    let mut module = Module::default();

    module.lower_module(&module_syntax).unwrap();

    module
        .expressions()
        .iter()
        .zip(expected_module.expressions().iter())
        .for_each(|((actual, _), (expected, _))| {
            let actual = ExprIdx { raw: actual.into_raw().into_u32() };
            let expected = ExprIdx { raw: expected.into_raw().into_u32() };
            assert!(expr_deep_eq(&module, expected_module, actual, expected));
        });

    module
        .type_expressions()
        .iter()
        .zip(expected_module.type_expressions().iter())
        .for_each(|((actual, _), (expected, _))| {
            let actual = TypeExprIdx { raw: actual.into_raw().into_u32() };
            let expected = TypeExprIdx { raw: expected.into_raw().into_u32() };
            assert!(type_expr_deep_eq(
                &module,
                expected_module,
                actual,
                expected
            ));
        });
}

#[test]
fn lower_def_func_as_expr() {
    let module = parse("def f x y = 42;").module();
    let mut actual_module = Module::default();

    actual_module.lower_module(&module).unwrap();

    let mut expected_module = Module::default();
    let body = expected_module.alloc_expr(Expr::int_expr(42));

    let x = unannotated_param(&mut expected_module, "x");
    let y = unannotated_param(&mut expected_module, "y");
    let name = expected_module.name("f");
    expected_module.empty_name();

    let inner = expected_module.alloc_expr(Expr::lambda_expr(y, missing_type_expr_id(), body));
    let defn = expected_module.alloc_expr(Expr::lambda_expr(x, missing_type_expr_id(), inner));

    let definition = Definition {
        name,
        params: vec![x, y],
        return_type: missing_type_expr_id(),
        defn,
    };

    expected_module.add_definition(definition);

    assert_eq!(actual_module, expected_module);
}

#[test]
fn lower_def_with_annotated_param() {
    let module = parse("def f (x: int) = x;").module();
    let mut actual_module = Module::default();
    actual_module.lower_module(&module).unwrap();

    let mut expected_module = Module::default();
    let x = expected_module.name("x");
    let int = expected_module.name("int");
    let int = expected_module.alloc_type_expr(TypeExpr::IdentTypeExpr { name: int });
    let body = expected_module.alloc_expr(Expr::ident_expr(x));
    let x = Param { name: x, typ: int };
    let name = expected_module.name("f");
    expected_module.empty_name();
    let defn = expected_module.alloc_expr(Expr::lambda_expr(x, missing_type_expr_id(), body));
    let definition = Definition {
        name,
        params: vec![x],
        return_type: missing_type_expr_id(),
        defn,
    };
    expected_module.add_definition(definition);

    assert_eq!(actual_module, expected_module);
}

#[test]
fn lower_def_func_block() {
    let module = parse("def f x y { 42 };").module();
    let mut actual_module = Module::default();
    actual_module.lower_module(&module).unwrap();

    let mut expected_module = Module::default();
    let body = expected_module.alloc_expr(Expr::int_expr(42));

    let x = unannotated_param(&mut expected_module, "x");
    let y = unannotated_param(&mut expected_module, "y");
    let name = expected_module.name("f");
    expected_module.empty_name();

    let inner = expected_module.alloc_expr(Expr::lambda_expr(y, missing_type_expr_id(), body));
    let defn = expected_module.alloc_expr(Expr::lambda_expr(x, missing_type_expr_id(), inner));

    let definition = Definition {
        name,
        params: vec![x, y],
        return_type: missing_type_expr_id(),
        defn,
    };
    expected_module.add_definition(definition);

    assert_eq!(actual_module, expected_module);
}

#[test]
fn lower_lower_ident() {
    let mut module = Module::default();
    let x = module.name("x");
    module.alloc_expr(Expr::ident_expr(x));
    check_expr("x", &module);
}

#[test]
fn lower_lower_app() {
    let mut module = Module::default();

    let f = module.name("f");
    let y = module.name("y");
    let func = module.alloc_expr(Expr::ident_expr(f));
    let arg = module.alloc_expr(Expr::ident_expr(y));
    module.alloc_expr(Expr::AppExpr { func, arg });

    check_expr("(f y)", &module);
}

#[test]
fn lower_nested_app() {
    let mut module = Module::default();

    let f = module.name("f");
    let y = module.name("y");
    let z = module.name("z");

    let func = module.alloc_expr(Expr::ident_expr(f));
    let arg = module.alloc_expr(Expr::ident_expr(y));

    let func = module.alloc_expr(Expr::AppExpr { func, arg });
    let arg = module.alloc_expr(Expr::ident_expr(z));
    module.alloc_expr(Expr::AppExpr { func, arg });

    check_expr("(f y z)", &module);
}

#[test]
fn lower_lower_lambda() {
    let mut module = Module::default();

    let x = module.name("x");
    let body = module.alloc_expr(Expr::ident_expr(x));
    let param = unannotated_param(&mut module, "y");
    let inner = module.alloc_expr(Expr::lambda_expr(param, missing_type_expr_id(), body));
    let param = unannotated_param(&mut module, "x");
    let _outer = module.alloc_expr(Expr::lambda_expr(param, missing_type_expr_id(), inner));

    check_expr("\\x y -> x", &module);
}

#[test]
fn lower_lambda_with_annotated_param() {
    let module = parse("def f = \\(x: int) -> x;").module();
    let mut actual_module = Module::new();

    actual_module.lower_module(&module).unwrap();

    let mut expected_module = Module::default();

    let x = expected_module.name("x");
    let int = expected_module.name("int");
    expected_module.name("");
    let int = expected_module.alloc_type_expr(TypeExpr::IdentTypeExpr { name: int });
    let body = expected_module.alloc_expr(Expr::ident_expr(x));
    let x = Param { name: x, typ: int };

    let defn = expected_module.alloc_expr(Expr::lambda_expr(x, missing_type_expr_id(), body));

    let definition = Definition {
        name: expected_module.name("f"),
        params: vec![],
        return_type: missing_type_expr_id(),
        defn,
    };
    expected_module.add_definition(definition);

    assert_eq!(actual_module, expected_module);
}

#[test]
fn lower_lower_let() {
    let mut module = Module::default();

    let c = module.name("c");
    let d = module.name("d");

    let body = module.alloc_expr(Expr::ident_expr(d));
    let defn = module.alloc_expr(Expr::ident_expr(c));

    let name = module.name("a");
    let param = unannotated_param(&mut module, "b");

    module.alloc_expr(Expr::let_expr(
        name,
        vec![param],
        missing_type_expr_id(),
        defn,
        body,
    ));

    let module_syntax = parse("def x { let a b = c; d }").module();
    let mut module = Module::default();

    module.lower_module(&module_syntax).unwrap();

    assert_eq!(module.expressions(), module.expressions());
    assert_eq!(module.type_expressions(), module.type_expressions());
}

#[test]
fn lower_lambda_missing_type() {
    let mut module = Module::default();

    let x = module.name("x");
    let body = module.alloc_expr(Expr::ident_expr(x));
    let param = unannotated_param(&mut module, "x");

    module.alloc_expr(Expr::lambda_expr(param, missing_type_expr_id(), body));

    check_expr("\\x -> x", &module);
}

#[test]
fn lower_lambda_missing_body() {
    let mut module = Module::default();

    let param = unannotated_param(&mut module, "x");
    module.alloc_expr(Expr::lambda_expr(param, missing_type_expr_id(), missing_expr_id()));

    check_expr("\\x ->", &module);
}

#[test]
fn lower_lambda_missing_params() {
    let mut module = Module::default();

    let x = module.name("x");
    let body = module.alloc_expr(Expr::ident_expr(x));
    let param = unannotated_param(&mut module, "");
    module.alloc_expr(Expr::lambda_expr(param, missing_type_expr_id(), body));

    check_expr("\\-> x", &module);
}

#[test]
fn lower_let_missing_defn() {
    let mut module = Module::default();

    let param = unannotated_param(&mut module, "b");
    let params = vec![param];

    let d = module.name("d");
    let body = module.alloc_expr(Expr::ident_expr(d));

    let name = module.name("a");
    module.alloc_expr(Expr::let_expr(
        name,
        params,
        missing_type_expr_id(),
        missing_expr_id(),
        body,
    ));

    check_expr("{ let a b; d }", &module);
}

#[test]
fn lower_def_func_with_return_type() {
    let module = parse("def f x y : Int = 42;").module();
    let mut actual_module = Module::new();

    actual_module.lower_module(&module).unwrap();

    let mut expected_module = Module::default();
    let body = expected_module.alloc_expr(Expr::int_expr(42));

    let x = unannotated_param(&mut expected_module, "x");
    let y = unannotated_param(&mut expected_module, "y");

    let int = expected_module.name("Int");
    let return_type = expected_module.alloc_type_expr(TypeExpr::IdentTypeExpr { name: int });
    let name = expected_module.name("f");
    expected_module.empty_name();

    let inner = expected_module.alloc_expr(Expr::lambda_expr(y, return_type, body));
    let defn = expected_module.alloc_expr(Expr::lambda_expr(x, missing_type_expr_id(), inner));

    let definition = Definition {
        name,
        params: vec![x, y],
        return_type,
        defn,
    };
    expected_module.add_definition(definition);

    assert_eq!(actual_module, expected_module);
}

#[test]
fn lower_annotated_def() {
    let module = parse("def x : Int = 42;").module();
    let mut actual_module = Module::new();

    actual_module.lower_module(&module).unwrap();

    let mut expected_module = Module::default();

    let int = expected_module.name("Int");

    let int = expected_module.alloc_type_expr(TypeExpr::IdentTypeExpr { name: int });
    let defn = expected_module.alloc_expr(Expr::int_expr(42));

    let definition = Definition {
        name: expected_module.name("x"),
        params: vec![],
        return_type: int,
        defn,
    };
    expected_module.add_definition(definition);

    assert_eq!(actual_module, expected_module);
}

#[test]
fn lower_let_with_return_type() {
    let module = parse("def f { let x : Int = 42; x }").module();
    let mut actual_module = Module::default();

    actual_module.lower_module(&module).unwrap();

    let mut expected_module = Module::default();

    let x = expected_module.name("x");
    let int = expected_module.name("Int");
    let f = expected_module.name("f");

    let return_type = expected_module.alloc_type_expr(TypeExpr::IdentTypeExpr { name: int });

    let tail_expr = expected_module.alloc_expr(Expr::ident_expr(x));
    let let_body = expected_module.alloc_expr(Expr::int_expr(42));

    let defn = expected_module.alloc_expr(Expr::let_expr(
        x,
        vec![],
        return_type,
        let_body,
        tail_expr,
    ));

    let definition = Definition {
        name: f,
        params: vec![],
        return_type,
        defn,
    };
    expected_module.add_definition(definition);

    assert_eq!(actual_module, expected_module);
}

#[test]
fn lower_empty_parentheses() {
    let mut database = Module::default();
    database.alloc_expr(Expr::LiteralExpr(Literal::Unit));

    check_expr("()", &database);
    check_expr("( )", &database);
}

#[test]
fn lower_empty_braces() {
    let mut database = Module::default();
    database.alloc_expr(Expr::LiteralExpr(Literal::Unit));

    check_expr("{}", &database);
    check_expr("{ }", &database);
}

#[test]
fn lower_block_with_only_expr_stmt() {
    let mut database = Module::default();

    let body = database.alloc_expr(Expr::LiteralExpr(Literal::Unit));
    let defn = database.alloc_expr(Expr::int_expr(42));

    let name = database.empty_name();

    database.alloc_expr(Expr::let_expr(name, vec![], missing_type_expr_id(), defn, body));

    check_expr("{ 42; }", &database);
}

#[test]
fn lower_block_with_only_let_stmt() {
    let mut database = Module::default();

    let body = database.alloc_expr(Expr::LiteralExpr(Literal::Unit));
    let defn = database.alloc_expr(Expr::int_expr(42));
    let x = database.name("x");

    database.alloc_expr(Expr::let_expr(x, vec![], missing_type_expr_id(), defn, body));

    check_expr("{ let x = 42; }", &database);
}
