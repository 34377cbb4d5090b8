use suslang::ast::{Ast, Block, Expression, Operator, Param, Span, Spanned, Statement, Typ};
use suslang::fs::Filesystem;
use suslang::linker::{get_items_needed, get_path, link, link_items, reachable_items};
use suslang::module::{child_file, submodule_plan, LoadError, Module};
use suslang::names::mangle_name;
use suslang::scope::{GlobalScope, Scope};
use suslang::typecheck;
use suslang::typecheck::typecheck_expr;
use suslang::types::{
    ExpressionTypeError, FunctionArgumentNumber, FunctionArgumentTypeError, FunctionNotFound,
    ItemNotFound, ModuleNotFoundError, Type, TypeCheckError, VariableNotFound,
};

fn at(offset: usize) -> Span {
    Span { file: 0, offset, len: 1 }
}

fn sp<T>(data: T, offset: usize) -> Spanned<T> {
    Spanned { span: at(offset), data }
}

fn name(s: &str, offset: usize) -> Spanned<String> {
    sp(s.to_string(), offset)
}

fn var(s: &str, offset: usize) -> Spanned<Expression> {
    sp(Expression::Variable(s.to_string()), offset)
}

fn num(v: i32, offset: usize) -> Spanned<Expression> {
    sp(Expression::NumLit(v), offset)
}

fn text(s: &str, offset: usize) -> Spanned<Expression> {
    sp(Expression::StringLit(s.to_string()), offset)
}

fn call(f: &str, args: Vec<Spanned<Expression>>, offset: usize) -> Spanned<Expression> {
    sp(Expression::Call(name(f, offset), args), offset)
}

fn op(o: Operator, l: Spanned<Expression>, r: Spanned<Expression>, offset: usize) -> Spanned<Expression> {
    sp(Expression::Operation(sp(o, offset), Box::new(l), Box::new(r)), offset)
}

fn param(n: &str, t: Typ) -> Spanned<Param> {
    sp((name(n, 0), sp(t, 0)), 0)
}

fn func(n: &str, ret: Typ, params: Vec<Spanned<Param>>, body: Block) -> Spanned<Ast> {
    sp(Ast::Func(name(n, 0), sp(ret, 0), params, sp(body, 0)), 0)
}

fn stmt(s: Statement) -> Spanned<Statement> {
    sp(s, 0)
}

fn eject(e: Spanned<Expression>) -> Spanned<Statement> {
    stmt(Statement::Return(Some(e)))
}

fn import(path: &[&str]) -> Spanned<Ast> {
    sp(Ast::Import(sp(path.iter().map(|s| s.to_string()).collect(), 90)), 90)
}

fn module_decl(n: &str, offset: usize) -> Spanned<Ast> {
    sp(Ast::Mod(name(n, offset)), offset)
}

fn path(p: &[&str]) -> Vec<String> {
    p.iter().map(|s| s.to_string()).collect()
}

fn leaf(items: Vec<Spanned<Ast>>, p: &[&str]) -> Module {
    Module::new(items, Vec::new(), path(p))
}

fn check_alone(items: Vec<Spanned<Ast>>) -> Result<(), TypeCheckError> {
    let m = leaf(items, &[]);
    typecheck(&m.items, &m)
}

fn entry(body: Block) -> Spanned<Ast> {
    func("\u{dac}", Typ::Num, vec![], body)
}

fn report_in_entry(args: Vec<Spanned<Expression>>) -> Result<(), TypeCheckError> {
    check_alone(vec![entry(vec![stmt(Statement::Expr(call("report", args, 5))), eject(num(0, 9))])])
}

fn call_names_in(e: &Expression, out: &mut Vec<String>) {
    match e {
        Expression::Call(n, args) => {
            out.push(n.data.clone());
            for a in args {
                call_names_in(&a.data, out);
            }
        }
        Expression::Operation(_, l, r) => {
            call_names_in(&l.data, out);
            call_names_in(&r.data, out);
        }
        _ => {}
    }
}

fn call_names_of_block(b: &Block, out: &mut Vec<String>) {
    for s in b {
        match &s.data {
            Statement::If(c, t, e) => {
                call_names_in(&c.data, out);
                call_names_of_block(&t.data, out);
                if let Some(e) = e {
                    call_names_of_block(&e.data, out);
                }
            }
            Statement::While(c, b) => {
                call_names_in(&c.data, out);
                call_names_of_block(&b.data, out);
            }
            Statement::Return(Some(e)) | Statement::Expr(e) | Statement::Define(_, e) => call_names_in(&e.data, out),
            _ => {}
        }
    }
}

fn linked_names(items: &[Spanned<Ast>]) -> Vec<String> {
    items
        .iter()
        .map(|i| match &i.data {
            Ast::Func(n, _, _, _) => n.data.clone(),
            _ => panic!("linked output holds a non-function"),
        })
        .collect()
}

/// Root declares `a` and `b`; `a` defines `f`; `b` imports `f` from `a` and
/// calls it; the root imports `f` too and calls it.
fn shared_function_program() -> Module {
    let a = leaf(vec![func("f", Typ::Num, vec![], vec![eject(num(1, 0))])], &["a"]);
    let b = leaf(
        vec![
            import(&["a", "f"]),
            func("g", Typ::Num, vec![], vec![eject(call("f", vec![], 3))]),
        ],
        &["b"],
    );
    let root_items = vec![
        module_decl("a", 0),
        module_decl("b", 1),
        import(&["a", "f"]),
        import(&["b", "g"]),
        entry(vec![
            stmt(Statement::Expr(call("f", vec![], 4))),
            eject(call("g", vec![], 5)),
        ]),
    ];
    Module::new(root_items, vec![("a".to_string(), a), ("b".to_string(), b)], Vec::new())
}

#[test]
fn report_with_matching_slots_checks() {
    let r = report_in_entry(vec![text("%d and %s", 6), num(5, 7), text("x", 8)]);
    assert_eq!(r, Ok(()));
}

#[test]
fn report_slot_mismatch_names_expected_set() {
    let r = report_in_entry(vec![text("%d", 6), text("x", 7)]);
    let expected = TypeCheckError::ExpressionTypeError(ExpressionTypeError {
        span: at(7),
        type_found: Type::String,
        type_expected: vec![Type::Number, Type::Bool],
    });
    assert_eq!(r, Err(expected));
}

#[test]
fn report_several_slot_mismatches_are_aggregated() {
    let r = report_in_entry(vec![text("%d %s", 6), text("x", 7), num(1, 8)]);
    let expected = TypeCheckError::FunctionArgumentTypeError(FunctionArgumentTypeError {
        related: vec![
            ExpressionTypeError { span: at(7), type_found: Type::String, type_expected: vec![Type::Number, Type::Bool] },
            ExpressionTypeError { span: at(8), type_found: Type::Number, type_expected: vec![Type::String] },
        ],
        function_name: "report".to_string(),
    });
    assert_eq!(r, Err(expected));
}

#[test]
fn report_percent_escape_and_bool_slot() {
    let r = report_in_entry(vec![text("%d%%", 6), sp(Expression::BoolLit(true), 7)]);
    assert_eq!(r, Ok(()));
}

#[test]
fn report_bad_directive_is_format_error() {
    let r = report_in_entry(vec![text("%x", 6), num(1, 7)]);
    assert!(matches!(r, Err(TypeCheckError::FormatError(e)) if e.span == at(6)));
}

#[test]
fn report_non_literal_format_is_format_error() {
    let r = report_in_entry(vec![num(3, 6)]);
    assert!(matches!(r, Err(TypeCheckError::FormatError(e)) if e.span == at(6)));
}

#[test]
fn report_slot_count_mismatch() {
    let r = report_in_entry(vec![text("%d %d", 6), num(1, 7)]);
    let expected = TypeCheckError::FunctionArgumentNumber(FunctionArgumentNumber {
        span: at(5),
        item: "report".to_string(),
        expected: 3,
        found: 2,
    });
    assert_eq!(r, Err(expected));
}

#[test]
fn report_without_arguments() {
    let r = report_in_entry(vec![]);
    let expected = TypeCheckError::FunctionArgumentNumber(FunctionArgumentNumber {
        span: at(5),
        item: "report".to_string(),
        expected: 1,
        found: 0,
    });
    assert_eq!(r, Err(expected));
}

#[test]
fn add_function_checks() {
    let add = func(
        "add",
        Typ::Num,
        vec![param("a", Typ::Num), param("b", Typ::Num)],
        vec![eject(op(Operator::Add, var("a", 1), var("b", 3), 2))],
    );
    assert_eq!(check_alone(vec![add]), Ok(()));
}

#[test]
fn add_with_string_operand_fails_at_operator() {
    let add = func(
        "add",
        Typ::Num,
        vec![param("a", Typ::Num), param("b", Typ::Num)],
        vec![eject(op(Operator::Add, var("a", 1), text("x", 3), 2))],
    );
    let expected = TypeCheckError::ExpressionTypeError(ExpressionTypeError {
        span: at(2),
        type_found: Type::String,
        type_expected: vec![Type::Number],
    });
    assert_eq!(check_alone(vec![add]), Err(expected));
}

#[test]
fn return_type_mismatch() {
    let f = func("f", Typ::Bool, vec![], vec![eject(num(1, 4))]);
    let expected = TypeCheckError::ExpressionTypeError(ExpressionTypeError {
        span: at(4),
        type_found: Type::Number,
        type_expected: vec![Type::Bool],
    });
    assert_eq!(check_alone(vec![f]), Err(expected));
}

#[test]
fn statements_after_return_are_skipped() {
    let f = func(
        "f",
        Typ::Num,
        vec![],
        vec![eject(num(1, 4)), stmt(Statement::Expr(var("nowhere", 6)))],
    );
    assert_eq!(check_alone(vec![f]), Ok(()));
}

#[test]
fn if_condition_must_be_bool() {
    let f = func(
        "f",
        Typ::Void,
        vec![],
        vec![stmt(Statement::If(num(1, 3), sp(vec![], 4), None))],
    );
    let expected = TypeCheckError::ExpressionTypeError(ExpressionTypeError {
        span: at(3),
        type_found: Type::Number,
        type_expected: vec![Type::Bool],
    });
    assert_eq!(check_alone(vec![f]), Err(expected));
}

#[test]
fn block_bindings_end_with_block() {
    let inner = vec![stmt(Statement::Declare(name("x", 5), sp(Typ::Num, 5)))];
    let f = func(
        "f",
        Typ::Void,
        vec![],
        vec![
            stmt(Statement::While(op(Operator::Lt, num(1, 1), num(2, 2), 1), sp(inner, 4))),
            stmt(Statement::Expr(var("x", 8))),
        ],
    );
    let expected = TypeCheckError::VariableNotFound(VariableNotFound { span: at(8), name: "x".to_string() });
    assert_eq!(check_alone(vec![f]), Err(expected));
}

#[test]
fn define_checks_declared_type() {
    let ok = func(
        "f",
        Typ::Void,
        vec![],
        vec![
            stmt(Statement::Declare(name("x", 1), sp(Typ::Str, 1))),
            stmt(Statement::Define(name("x", 2), text("hi", 3))),
        ],
    );
    assert_eq!(check_alone(vec![ok]), Ok(()));
    let bad = func(
        "f",
        Typ::Void,
        vec![],
        vec![
            stmt(Statement::Declare(name("x", 1), sp(Typ::Str, 1))),
            stmt(Statement::Define(name("x", 2), num(4, 3))),
        ],
    );
    let expected = TypeCheckError::ExpressionTypeError(ExpressionTypeError {
        span: at(3),
        type_found: Type::Number,
        type_expected: vec![Type::String],
    });
    assert_eq!(check_alone(vec![bad]), Err(expected));
}

#[test]
fn define_of_undeclared_variable() {
    let f = func("f", Typ::Void, vec![], vec![stmt(Statement::Define(name("y", 2), num(4, 3)))]);
    let expected = TypeCheckError::VariableNotFound(VariableNotFound { span: at(2), name: "y".to_string() });
    assert_eq!(check_alone(vec![f]), Err(expected));
}

#[test]
fn call_of_unknown_function() {
    let f = func("f", Typ::Void, vec![], vec![stmt(Statement::Expr(call("ghost", vec![], 3)))]);
    let expected = TypeCheckError::FunctionNotFound(FunctionNotFound { span: at(3), item: "ghost".to_string() });
    assert_eq!(check_alone(vec![f]), Err(expected));
}

#[test]
fn call_with_wrong_argument_count() {
    let g = func("g", Typ::Num, vec![param("a", Typ::Num)], vec![eject(var("a", 0))]);
    let f = func("f", Typ::Num, vec![], vec![eject(call("g", vec![], 3))]);
    let expected = TypeCheckError::FunctionArgumentNumber(FunctionArgumentNumber {
        span: at(3),
        item: "g".to_string(),
        expected: 1,
        found: 0,
    });
    assert_eq!(check_alone(vec![g, f]), Err(expected));
}

#[test]
fn call_argument_mismatches_are_all_reported() {
    let g = func(
        "g",
        Typ::Num,
        vec![param("a", Typ::Num), param("b", Typ::Bool)],
        vec![eject(var("a", 0))],
    );
    let f = func("f", Typ::Num, vec![], vec![eject(call("g", vec![text("s", 4), num(2, 5)], 3))]);
    let expected = TypeCheckError::FunctionArgumentTypeError(FunctionArgumentTypeError {
        related: vec![
            ExpressionTypeError { span: at(4), type_found: Type::String, type_expected: vec![Type::Number] },
            ExpressionTypeError { span: at(5), type_found: Type::Number, type_expected: vec![Type::Bool] },
        ],
        function_name: "g".to_string(),
    });
    assert_eq!(check_alone(vec![g, f]), Err(expected));
}

#[test]
fn intrinsics_have_fixed_signatures() {
    let f = func(
        "f",
        Typ::Str,
        vec![],
        vec![
            stmt(Statement::Expr(call("len", vec![text("abc", 1)], 1))),
            stmt(Statement::Expr(call("setelelment", vec![text("abc", 2), num(0, 2), text("z", 2)], 2))),
            stmt(Statement::Expr(call("replace", vec![text("a", 3), text("b", 3), text("c", 3)], 3))),
            stmt(Statement::Expr(call("split", vec![text("a b", 4), text(" ", 4)], 4))),
            stmt(Statement::Expr(call("openfile", vec![text("in.txt", 5)], 5))),
            eject(call("getelement", vec![text("abc", 6), num(1, 7)], 6)),
        ],
    );
    assert_eq!(check_alone(vec![f]), Ok(()));
}

#[test]
fn intrinsic_argument_type_is_checked() {
    let f = func("f", Typ::Num, vec![], vec![eject(call("len", vec![num(1, 4)], 3))]);
    let expected = TypeCheckError::FunctionArgumentTypeError(FunctionArgumentTypeError {
        related: vec![ExpressionTypeError { span: at(4), type_found: Type::Number, type_expected: vec![Type::String] }],
        function_name: "len".to_string(),
    });
    assert_eq!(check_alone(vec![f]), Err(expected));
}

#[test]
fn intrinsics_are_not_shadowed() {
    let len = func("len", Typ::Bool, vec![], vec![eject(sp(Expression::BoolLit(true), 0))]);
    let f = func("f", Typ::Num, vec![], vec![eject(call("len", vec![text("ab", 4)], 3))]);
    assert_eq!(check_alone(vec![len, f]), Ok(()));
}

#[test]
fn equality_needs_same_types() {
    let f = func(
        "f",
        Typ::Bool,
        vec![],
        vec![eject(op(Operator::Eq, num(1, 1), text("1", 3), 2))],
    );
    let expected = TypeCheckError::ExpressionTypeError(ExpressionTypeError {
        span: at(2),
        type_found: Type::String,
        type_expected: vec![Type::Number],
    });
    assert_eq!(check_alone(vec![f]), Err(expected));
}

#[test]
fn ordering_yields_bool() {
    let scope: GlobalScope<Type> = GlobalScope::new();
    let e = op(Operator::GEt, num(1, 1), num(2, 2), 1);
    assert_eq!(typecheck_expr(&scope, &e), Ok(Type::Bool));
    let m = op(Operator::Mod, num(1, 1), num(2, 2), 1);
    assert_eq!(typecheck_expr(&scope, &m), Ok(Type::Number));
}

#[test]
fn import_from_missing_module() {
    let m = leaf(vec![import(&["nowhere", "f"])], &[]);
    let expected = TypeCheckError::ModuleNotFound(ModuleNotFoundError { span: at(90) });
    assert_eq!(typecheck(&m.items, &m), Err(expected));
}

#[test]
fn import_of_missing_item() {
    let a = leaf(vec![func("f", Typ::Num, vec![], vec![eject(num(1, 0))])], &["a"]);
    let root = Module::new(vec![module_decl("a", 0), import(&["a", "h"])], vec![("a".to_string(), a)], Vec::new());
    let expected = TypeCheckError::ItemNotFound(ItemNotFound { span: at(90), item: "h".to_string() });
    assert_eq!(typecheck(&root.items, &root), Err(expected));
}

#[test]
fn imported_function_is_callable() {
    let g = shared_function_program();
    assert_eq!(typecheck(&g.items, &g), Ok(()));
    let b = g.get_module(&path(&["b"])).unwrap();
    assert_eq!(typecheck(&b.items, &g), Ok(()));
}

#[test]
fn exports_one_entry_per_function() {
    let m = leaf(
        vec![
            module_decl("x", 0),
            func("f", Typ::Str, vec![param("a", Typ::Num), param("b", Typ::Bool)], vec![]),
            import(&["x", "y"]),
            func("g", Typ::Void, vec![], vec![]),
        ],
        &[],
    );
    let e = m.get_exports();
    assert_eq!(e.len(), 2);
    assert_eq!(e[0], ("f".to_string(), Type::Function(vec![Typ::Num, Typ::Bool], Typ::Str)));
    assert_eq!(e[1], ("g".to_string(), Type::Function(vec![], Typ::Void)));
    assert_eq!(m.get_export(&"g".to_string()), Some(&Type::Function(vec![], Typ::Void)));
    assert_eq!(m.get_export(&"x".to_string()), None);
}

#[test]
fn get_module_follows_path() {
    let g = shared_function_program();
    assert_eq!(g.get_module(&[]).map(|m| m.path.clone()), Some(vec![]));
    assert_eq!(g.get_module(&path(&["a"])).map(|m| m.path.clone()), Some(path(&["a"])));
    assert!(g.get_module(&path(&["c"])).is_none());
    assert!(g.get_module(&path(&["a", "b"])).is_none());
}

#[test]
fn missing_submodule_file_points_at_declaration() {
    let items = vec![module_decl("util", 42), import(&["util", "f"]), module_decl("more", 50)];
    let children = vec![
        (name("util", 42), "src/util.sus".to_string(), None),
        (name("more", 50), "src/more.sus".to_string(), None),
    ];
    let r = Module::from_loaded(items, Vec::new(), children);
    let expected = LoadError::ModuleFileNotFound(Spanned { span: at(42), data: "src/util.sus".to_string() });
    assert_eq!(r.map(|m| m.path), Err(expected));
}

#[test]
fn loaded_children_become_submodules_in_order() {
    let items = vec![module_decl("a", 0), module_decl("b", 1)];
    let children = vec![
        (name("a", 0), "a.sus".to_string(), Some(leaf(vec![], &["a"]))),
        (name("b", 1), "b.sus".to_string(), Some(leaf(vec![], &["b"]))),
    ];
    let m = Module::from_loaded(items, Vec::new(), children).unwrap();
    let names: Vec<String> = m.submodules.iter().map(|(n, _)| n.clone()).collect();
    assert_eq!(names, vec!["a".to_string(), "b".to_string()]);
    assert_eq!(m.submodules[1].1.path, path(&["b"]));
}

#[test]
fn plan_gives_child_paths() {
    let items = vec![module_decl("x", 3), func("f", Typ::Void, vec![], vec![]), module_decl("y", 9)];
    let plan = submodule_plan(&items, &path(&["top"]));
    assert_eq!(plan.len(), 2);
    assert_eq!(plan[0].0, name("x", 3));
    assert_eq!(plan[0].1, path(&["top", "x"]));
    assert_eq!(plan[1].1, path(&["top", "y"]));
}

#[test]
fn shared_function_is_emitted_once() {
    let g = shared_function_program();
    let out = link(&g);
    let names = linked_names(&out);
    assert_eq!(names.iter().filter(|n| n.starts_with("a_f_")).count(), 1);
    assert_eq!(names.len(), 3);
    assert!(names.contains(&"\u{dac}".to_string()));
}

#[test]
fn linked_names_are_unique_and_resolved() {
    let g = shared_function_program();
    let out = link(&g);
    let names = linked_names(&out);
    for (i, a) in names.iter().enumerate() {
        for b in names.iter().skip(i + 1) {
            assert_ne!(a, b);
        }
    }
    let mut called = Vec::new();
    for item in &out {
        if let Ast::Func(_, _, _, body) = &item.data {
            call_names_of_block(&body.data, &mut called);
        }
    }
    assert!(!called.is_empty());
    for c in &called {
        assert!(names.contains(c), "call to {c} names no emitted function");
    }
}

#[test]
fn needed_items_in_discovery_order() {
    let g = shared_function_program();
    let needed = get_items_needed(&g);
    assert_eq!(
        needed,
        vec![path(&["a", "f"]), path(&["b", "g"]), path(&["\u{dac}"])]
    );
    assert!(get_path(&g, &path(&["b", "g"])).is_some());
    assert!(get_path(&g, &path(&["b", "f"])).is_none());
}

#[test]
fn link_renames_calls_and_keeps_entry() {
    let g = shared_function_program();
    let out = link(&g);
    let names = linked_names(&out);
    assert_eq!(names, vec!["a_f_0".to_string(), "b_g_1".to_string(), "\u{dac}".to_string()]);
    let mut called = Vec::new();
    if let Ast::Func(_, _, _, body) = &out[2].data {
        call_names_of_block(&body.data, &mut called);
    }
    assert_eq!(called, vec!["a_f_0".to_string(), "b_g_1".to_string()]);
}

#[test]
fn relinking_linked_program_keeps_every_function() {
    let g = shared_function_program();
    let out = link(&g);
    let n = out.len();
    let again = link(&Module::new(out, Vec::new(), Vec::new()));
    let names = linked_names(&again);
    assert_eq!(names.len(), n);
    assert!(names.contains(&"\u{dac}".to_string()));
}

#[test]
fn mangled_names() {
    assert_eq!(mangle_name(3, &path(&["a", "b"])), "a_b_3");
    assert_eq!(mangle_name(12, &path(&["main"])), "main_12");
    assert_eq!(mangle_name(7, &path(&["\u{dac}"])), "\u{dac}");
    assert_eq!(mangle_name(0, &path(&["m", "\u{dac}"])), "m_\u{dac}_0");
}

#[test]
fn scope_shadowing_and_frames() {
    let mut s: GlobalScope<u32> = GlobalScope::new();
    let x = "x".to_string();
    s.add(x.clone(), 1);
    assert_eq!(s.get(&x), Some(&1));
    s.push();
    assert_eq!(s.get(&x), Some(&1));
    s.add(x.clone(), 2);
    assert_eq!(s.get(&x), Some(&2));
    s.add(x.clone(), 3);
    assert_eq!(s.get(&x), Some(&3));
    s.pop();
    assert_eq!(s.get(&x), Some(&1));
    assert_eq!(s.get(&"y".to_string()), None);
}

#[test]
fn file_cache_loads_each_path_once() {
    let mut fs = Filesystem::new();
    let a = fs.insert("main.sus".to_string(), "one".to_string());
    let b = fs.insert("lib.sus".to_string(), "two".to_string());
    let c = fs.insert("main.sus".to_string(), "changed".to_string());
    assert_eq!((a, b, c), (0, 1, 0));
    assert_eq!(fs.len(), 2);
    assert_eq!(fs.contents(0), "one");
    assert_eq!(fs.path(1), "lib.sus");
    assert_eq!(fs.find(&"lib.sus".to_string()), Some(1));
    assert_eq!(fs.find(&"x.sus".to_string()), None);
}

#[test]
fn type_names() {
    assert_eq!(Typ::Num.name(), "int");
    assert_eq!(Typ::Str.name(), "string");
    assert_eq!(Typ::Bool.name(), "boolean");
    assert_eq!(Typ::Void.name(), "void");
}

#[test]
fn walk_visits_import_targets_once() {
    let g = shared_function_program();
    let (order, needed) = reachable_items(&g);
    // preorder listing: root, a, b
    assert_eq!(order, vec![0, 1, 2]);
    assert_eq!(needed.len(), 3);
}

#[test]
fn walk_skips_unimported_modules() {
    let a = leaf(vec![func("f", Typ::Num, vec![], vec![eject(num(1, 0))])], &["a"]);
    let unused = leaf(vec![func("h", Typ::Num, vec![], vec![eject(num(2, 0))])], &["unused"]);
    let root = Module::new(
        vec![module_decl("a", 0), module_decl("unused", 1), import(&["a", "f"]), entry(vec![eject(call("f", vec![], 3))])],
        vec![("a".to_string(), a), ("unused".to_string(), unused)],
        Vec::new(),
    );
    let (order, needed) = reachable_items(&root);
    assert_eq!(order, vec![0, 1]);
    assert_eq!(needed, vec![path(&["a", "f"]), path(&["\u{dac}"])]);
    let names = linked_names(&link(&root));
    assert_eq!(names, vec!["a_f_0".to_string(), "\u{dac}".to_string()]);
}

#[test]
fn link_items_skips_paths_naming_no_function() {
    let g = shared_function_program();
    let needed = vec![path(&["a", "nothing"]), path(&["a", "f"]), path(&["zz", "f"])];
    let out = link_items(&g, &needed);
    assert_eq!(linked_names(&out), vec!["a_f_1".to_string()]);
}

#[test]
fn parameter_hiding_a_function_is_not_renamed() {
    let f = func("f", Typ::Num, vec![], vec![eject(num(1, 0))]);
    let g = func("g", Typ::Num, vec![param("f", Typ::Num)], vec![eject(var("f", 4))]);
    let h = func(
        "\u{dac}",
        Typ::Num,
        vec![],
        vec![
            stmt(Statement::Declare(name("g", 1), sp(Typ::Num, 1))),
            stmt(Statement::Define(name("g", 2), call("f", vec![], 3))),
            eject(var("g", 5)),
        ],
    );
    let m = leaf(vec![f, g, h], &[]);
    assert_eq!(typecheck(&m.items, &m), Ok(()));
    let out = link(&m);
    let body_of = |k: usize| match &out[k].data {
        Ast::Func(_, _, _, b) => b.data.iter().map(|s| &s.data).collect::<Vec<_>>(),
        _ => panic!("not a function"),
    };
    assert!(matches!(body_of(1)[0], Statement::Return(Some(e)) if e.data == Expression::Variable("f".to_string())));
    assert!(matches!(body_of(2)[2], Statement::Return(Some(e)) if e.data == Expression::Variable("g".to_string())));
    let mut called = Vec::new();
    if let Ast::Func(_, _, _, body) = &out[2].data {
        call_names_of_block(&body.data, &mut called);
    }
    assert_eq!(called, vec!["f_0".to_string()]);
}

#[test]
fn child_files_follow_the_module_tree() {
    let f = |file: &str, root: bool, name: &str| child_file(&file.to_string(), root, &name.to_string());
    assert_eq!(f("src/main.sus", true, "util"), "src/util.sus");
    assert_eq!(f("main.sus", true, "util"), "util.sus");
    assert_eq!(f("src/util.sus", false, "deep"), "src/util/deep.sus");
    assert_eq!(f("src/a.b/util", false, "deep"), "src/a.b/util/deep.sus");
    assert_eq!(f("x/.hidden", false, "d"), "x/.hidden/d.sus");
}

#[test]
fn tree_lines_indent_by_depth() {
    let deep = leaf(vec![], &["a", "x"]);
    let a = Module::new(vec![module_decl("x", 0)], vec![("x".to_string(), deep)], path(&["a"]));
    let b = leaf(vec![], &["b"]);
    let root = Module::new(
        vec![module_decl("a", 0), module_decl("b", 1)],
        vec![("a".to_string(), a), ("b".to_string(), b)],
        Vec::new(),
    );
    assert_eq!(root.tree_lines(), vec!["a".to_string(), " x".to_string(), "b".to_string()]);
}

#[test]
fn later_export_of_a_name_wins() {
    let m = leaf(
        vec![
            func("f", Typ::Num, vec![], vec![]),
            func("f", Typ::Str, vec![], vec![]),
        ],
        &[],
    );
    assert_eq!(m.get_exports().len(), 2);
    assert_eq!(m.get_export(&"f".to_string()), Some(&Type::Function(vec![], Typ::Str)));
}
