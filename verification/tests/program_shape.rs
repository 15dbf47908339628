//! The outline of a parsed program: its imports and its implicit `main`.

use rach::ast::{BinOp, Expr, Literal, UnaryOp};
use rach::{lexer, parser};

fn parse(src: &str) -> Result<rach::ast::Program, parser::ParseError> {
    let tokens = lexer::tokenize(src).expect("lexes");
    parser::parse(tokens)
}

#[test]
fn imports_are_listed_in_order() {
    let prog = parse("import web\n\nimport os\nprint(\"hi\")\n").expect("parses");
    assert_eq!(prog.imports, vec!["web".to_string(), "os".to_string()]);
}

#[test]
fn top_level_statements_form_main() {
    let prog = parse("import web\nprint(\"hi\")\nprint(\"there\")\n").expect("parses");
    assert_eq!(prog.functions[0].name, "main");
    assert!(prog.functions[0].params.is_empty());
    assert_eq!(prog.functions[0].body.len(), 2);
}

#[test]
fn import_without_a_name_is_refused() {
    let err = parse("import\n").expect_err("a module name is required");
    assert_eq!(err.message, "expected module name");
}

#[test]
fn import_followed_by_more_words_is_refused() {
    let err = parse("import web os\n").expect_err("one module per line");
    assert_eq!(err.message, "expected end of line");
}

#[test]
fn struct_fields_skip_commas_and_newlines() {
    let prog = parse("struct Point {\n  x,\n  y z\n}\n").expect("parses");
    assert_eq!(prog.structs[0].name, "Point");
    assert_eq!(prog.structs[0].fields, vec!["x".to_string(), "y".to_string(), "z".to_string()]);
    assert_eq!(prog.structs[0].line, 1);
}

#[test]
fn function_parameters_each_have_a_default_slot() {
    let prog = parse("rach add(a, b = 2):\n  return a + b\nend\n").expect("parses");
    let f = &prog.functions[0];
    assert_eq!(f.name, "add");
    assert_eq!(f.params, vec!["a".to_string(), "b".to_string()]);
    assert_eq!(f.defaults.len(), 2);
    assert!(f.defaults[0].is_none());
    assert!(f.defaults[1].is_some());
}

#[test]
fn statement_keywords_decide_the_statement() {
    let prog = parse("set x = 1\nwhile x < 3:\n  x += 1\ncompleted\n").expect("parses");
    let body = &prog.functions[0].body;
    assert!(matches!(body[0], rach::ast::Stmt::Assign { is_const: false, line: 1, .. }));
    assert!(matches!(body[1], rach::ast::Stmt::While { line: 2, .. }));
    assert!(matches!(body[2], rach::ast::Stmt::Completed { line: 4 }));
}

#[test]
fn completed_stands_alone_on_its_line() {
    let err = parse("completed now\n").expect_err("nothing may follow `completed`");
    assert_eq!(err.message, "expected end of line");
}

#[test]
fn a_statement_cannot_start_with_a_number() {
    let err = parse("rach main():\n  42\nend\n").expect_err("a number is no statement");
    assert_eq!(err.message, "unexpected token Int(42)");
}

fn show(e: &Expr) -> String {
    match e {
        Expr::Lit(Literal::Int(n)) => n.to_string(),
        Expr::Lit(Literal::Float(f)) => f.clone(),
        Expr::Lit(Literal::Bool(b)) => b.to_string(),
        Expr::Var(v) => v.clone(),
        Expr::Unary { op, expr, .. } => {
            let o = match op {
                UnaryOp::Neg => "neg",
                UnaryOp::Not => "not",
                UnaryOp::BitNot => "bitnot",
            };
            format!("({} {})", o, show(expr))
        }
        Expr::Binary { op, lhs, rhs, .. } => {
            let o = match op {
                BinOp::Add => "+",
                BinOp::Sub => "-",
                BinOp::Mul => "*",
                BinOp::Div => "/",
                BinOp::Mod => "%",
                BinOp::Pow => "^",
                BinOp::Lt => "<",
                BinOp::Eq => "==",
                BinOp::Shl => "<<",
                BinOp::BitAnd => "&",
                BinOp::BitOr => "|",
                BinOp::BitXor => "^^",
                _ => "?op",
            };
            format!("({} {} {})", o, show(lhs), show(rhs))
        }
        Expr::Ternary { cond, then_expr, else_expr, .. } => {
            format!("(if {} {} {})", show(cond), show(then_expr), show(else_expr))
        }
        _ => "?".to_string(),
    }
}

fn assigned(src: &str) -> String {
    let prog = parse(src).expect("parses");
    match &prog.functions[0].body[0] {
        rach::ast::Stmt::Assign { expr, .. } => show(expr),
        _ => panic!("not an assignment"),
    }
}

#[test]
fn operators_bind_by_precedence() {
    assert_eq!(assigned("set x = 1 + 2 * 3 - 4\n"), "(- (+ 1 (* 2 3)) 4)");
    assert_eq!(assigned("set x = 2 ^ 3 ^ 2\n"), "(^ 2 (^ 3 2))");
    assert_eq!(assigned("set x = -2 ^ 2\n"), "(^ (neg 2) 2)");
    assert_eq!(assigned("set x = 1 | 2 ^^ 3 & 4 << 1\n"), "(| 1 (^^ 2 (& 3 (<< 4 1))))");
    assert_eq!(assigned("set x = a + 1 < b * 2\n"), "(< (+ a 1) (* b 2))");
    assert_eq!(assigned("set x = 1 < 2 ? 10 : 20 + 1\n"), "(if (< 1 2) 10 (+ 20 1))");
    assert_eq!(assigned("set x = 8 / 4 / 2\n"), "(/ (/ 8 4) 2)");
}

#[test]
fn definitions_may_come_before_the_top_level_statements() {
    let prog = parse("rach square(x):\n    return x * x\nend\n\nprint(square(7))\n").expect("parses");
    assert_eq!(prog.functions.len(), 2);
    assert_eq!(prog.functions[0].name, "main");
    assert_eq!(prog.functions[0].body.len(), 1);
    assert_eq!(prog.functions[0].line, 5);
    assert_eq!(prog.functions[1].name, "square");
}

#[test]
fn definitions_alone_make_no_implicit_main() {
    let prog = parse("rach helper():\n  print(1)\nend\n").expect("parses");
    assert_eq!(prog.functions.len(), 1);
    assert_eq!(prog.functions[0].name, "helper");
}

#[test]
fn impl_blocks_attach_methods_taking_self() {
    let src = "struct Point { x, y }\n\
               impl Point:\n    \
                   rach dist(self):\n        \
                       return self.x * self.x + self.y * self.y\n    \
                   end\n\
               end\n\
               p = Point { x: 3, y: 4 }\n\
               p.dist()\n";
    let prog = parse(src).expect("parses");
    assert_eq!(prog.structs[0].name, "Point");
    assert_eq!(prog.impls[0].name, "Point");
    assert_eq!(prog.impls[0].methods[0].name, "dist");
    assert_eq!(prog.impls[0].methods[0].params, vec!["self".to_string()]);
    let main = &prog.functions[0];
    assert_eq!(main.name, "main");
    assert_eq!(main.body.len(), 2);
    assert!(matches!(main.body[1], rach::ast::Stmt::ExprStmt { line: 8, .. }));
}

#[test]
fn a_method_must_take_self_first() {
    let err = parse("impl Point:\n  rach dist(other):\n    return 1\n  end\nend\n").expect_err("self is required");
    assert_eq!(err.message, "method `dist` must take `self` as its first parameter");
}

fn dbg<T: std::fmt::Debug>(v: &T) -> String {
    format!("{:?}", v)
}

fn first_stmt(src: &str) -> rach::ast::Stmt {
    let mut prog = parse(src).expect("parses");
    prog.functions.remove(0).body.remove(0)
}

fn assign_x_1(line: usize) -> rach::ast::Stmt {
    rach::ast::Stmt::Assign {
        target: rach::ast::AssignTarget::Name("x".to_string()),
        expr: Expr::Lit(Literal::Int(1)),
        is_const: false,
        line,
    }
}

#[test]
fn if_not_negates_the_condition() {
    let expected = rach::ast::Stmt::If {
        cond: Expr::Unary { op: UnaryOp::Not, expr: Box::new(Expr::Var("flag".to_string())), line: 1 },
        body: vec![assign_x_1(2)],
        else_body: None,
        line: 1,
    };
    assert_eq!(dbg(&first_stmt("if not flag:\n  x = 1\n")), dbg(&expected));
}

#[test]
fn if_not_os_name_is_a_negated_os_test() {
    let expected = rach::ast::Stmt::IfOs {
        os: "linux".to_string(),
        negate: true,
        body: vec![assign_x_1(2)],
        else_body: None,
        line: 1,
    };
    assert_eq!(dbg(&first_stmt("if not linux:\n  x = 1\n")), dbg(&expected));
}

#[test]
fn word_equals_generate_is_a_bash_dsl_line() {
    let expected = rach::ast::Stmt::BashDsl {
        action: rach::ast::BashAction::Generate,
        argument: "install oh my zsh".to_string(),
        line: 1,
    };
    assert_eq!(dbg(&first_stmt("bash = generate install oh my zsh\n")), dbg(&expected));
}

#[test]
fn set_is_optional_in_an_assignment() {
    assert_eq!(dbg(&first_stmt("set x = 1\n")), dbg(&first_stmt("x = 1\n")));
    assert_eq!(dbg(&first_stmt("x = 1\n")), dbg(&assign_x_1(1)));
}

#[test]
fn word_call_is_a_user_function_unless_a_command() {
    let user = first_stmt("square(7)\n");
    let expected = rach::ast::Stmt::ExprStmt {
        expr: Expr::FnCall { name: "square".to_string(), args: vec![Expr::Lit(Literal::Int(7))], line: 1 },
        line: 1,
    };
    assert_eq!(dbg(&user), dbg(&expected));
    match first_stmt("print(7)\n") {
        rach::ast::Stmt::Call { segments, line } => {
            assert_eq!(line, 1);
            assert_eq!(segments.len(), 1);
            assert_eq!(segments[0].words, vec!["print".to_string()]);
            assert_eq!(dbg(&segments[0].positional), dbg(&vec![Expr::Lit(Literal::Int(7))]));
        }
        other => panic!("expected a command call, got {:?}", other),
    }
}

#[test]
fn place_assignment_builds_target_operator_and_expression() {
    let expected = rach::ast::Stmt::CompoundAssign {
        target: rach::ast::AssignTarget::Field {
            target: Box::new(Expr::Index {
                target: Box::new(Expr::Var("a".to_string())),
                key: Box::new(Expr::Lit(Literal::Int(0))),
                line: 1,
            }),
            name: "x".to_string(),
        },
        op: BinOp::Add,
        expr: Expr::Lit(Literal::Int(2)),
        line: 1,
    };
    assert_eq!(dbg(&first_stmt("a[0].x += 2\n")), dbg(&expected));
    match first_stmt("p.move(2)\n") {
        rach::ast::Stmt::ExprStmt { .. } => {}
        other => panic!("a method call is no assignment: {:?}", other),
    }
}

#[test]
fn function_keeps_parameters_defaults_and_body() {
    let prog = parse("rach greet(name, greeting = \"hello\"):\n    return greeting\nend\n").expect("parses");
    let f = &prog.functions[0];
    assert_eq!(f.name, "greet");
    assert_eq!(f.params, vec!["name".to_string(), "greeting".to_string()]);
    assert_eq!(dbg(&f.defaults), dbg(&vec![None, Some(Expr::Lit(Literal::Str("hello".to_string())))]));
    let body = vec![rach::ast::Stmt::Return { expr: Some(Expr::Var("greeting".to_string())), line: 2 }];
    assert_eq!(dbg(&f.body), dbg(&body));
    assert_eq!(f.line, 1);
}

#[test]
fn blank_input_is_an_empty_main() {
    let prog = parse("\n\n;\n").expect("parses");
    assert!(prog.imports.is_empty());
    assert_eq!(prog.functions.len(), 1);
    assert!(prog.functions[0].body.is_empty());
}

#[test]
fn statements_keep_their_order_and_lines() {
    let prog = parse("x = 1\n\ny = 2\n").expect("parses");
    let body = &prog.functions[0].body;
    assert_eq!(body.len(), 2);
    assert_eq!(dbg(&body[0]), dbg(&assign_x_1(1)));
    match &body[1] {
        rach::ast::Stmt::Assign { target: rach::ast::AssignTarget::Name(n), line, .. } => {
            assert_eq!(n, "y");
            assert_eq!(*line, 3);
        }
        other => panic!("unexpected {:?}", other),
    }
}

#[test]
fn token_positions_start_at_one_and_increase() {
    let tokens = lexer::tokenize("x = 1\n  y \"a\nb\" z # note\n\nf\"{q}\" 2.5\n").expect("lexes");
    assert!(tokens.len() > 1);
    assert_eq!((tokens[0].line, tokens[0].col), (1, 1));
    for t in &tokens {
        assert!(t.line >= 1 && t.col >= 1);
    }
    for w in tokens.windows(2) {
        assert!((w[0].line, w[0].col) < (w[1].line, w[1].col), "{:?} then {:?}", w[0], w[1]);
    }
}

#[test]
fn assignment_lines_and_simple_functions_parse() {
    let prog = parse("x = 1\n\nrach f():\n  y = 2\nend\nz = w\n").expect("parses");
    assert_eq!(prog.functions.len(), 2);
    assert_eq!(prog.functions[0].name, "main");
    assert_eq!(prog.functions[0].body.len(), 2);
    assert_eq!(prog.functions[1].name, "f");
    assert_eq!(prog.functions[1].body.len(), 1);
}
