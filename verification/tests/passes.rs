use enjoin::awaits::replace_awaits;
use enjoin::breaks::{replace_breaks, Escape, Variant};
use enjoin::syntax::{Arm, Block, Expr, Form, Member, Pat, Stmt};
use enjoin::trys::replace_trys;

fn name(text: &str) -> Expr {
    Expr::Name(text.to_string())
}

fn lit(text: &str) -> Expr {
    Expr::Verbatim(text.to_string())
}

fn other(syntax: &str, parts: Vec<Expr>) -> Expr {
    Expr::Form { form: Form::Other(syntax.to_string()), parts }
}

fn call(func: &str, args: Vec<Expr>) -> Expr {
    Expr::Call { func: Box::new(lit(func)), args }
}

fn stmt(expr: Expr) -> Stmt {
    Stmt::Expr { expr, semi: true }
}

fn block(stmts: Vec<Stmt>) -> Block {
    Block { stmts }
}

fn inner(label: Option<&str>, stmts: Vec<Stmt>) -> Expr {
    Expr::Block { label: label.map(str::to_string), block: block(stmts) }
}

fn binding(text: &str, mutable: bool) -> Pat {
    Pat::Ident { name: text.to_string(), by_ref: false, mutable, subpat: None }
}

fn question(expr: Expr) -> Expr {
    Expr::Try { expr: Box::new(expr) }
}

fn wait(expr: Expr) -> Expr {
    Expr::Await { base: Box::new(expr) }
}

fn leave(label: Option<&str>, value: Option<Expr>) -> Expr {
    Expr::Break { label: label.map(str::to_string), value: value.map(Box::new) }
}

fn again(label: Option<&str>) -> Expr {
    Expr::Continue { label: label.map(str::to_string) }
}

fn give(value: Option<Expr>) -> Expr {
    Expr::Return { value: value.map(Box::new) }
}

fn unit() -> Expr {
    Expr::Form { form: Form::Tuple, parts: vec![] }
}

fn branch(expr: Expr) -> Expr {
    let arm = |path: &str, bound: &str, body: Expr| Arm {
        attrs: String::new(),
        pat: Pat::TupleStruct { path: path.to_string(), elems: vec![binding(bound, false)] },
        guard: None,
        body,
    };
    Expr::Form {
        form: Form::Paren,
        parts: vec![Expr::Match {
            expr: Box::new(call("::enjoin::polyfill::Try::branch", vec![expr])),
            arms: vec![
                arm(
                    "::core::ops::ControlFlow::Break",
                    "b",
                    give(Some(call(
                        "::enjoin::polyfill::FromResidual::from_residual",
                        vec![name("b")],
                    ))),
                ),
                arm("::core::ops::ControlFlow::Continue", "c", name("c")),
            ],
        }],
    }
}

fn tagged(variant: &str, payload: Expr) -> Expr {
    give(Some(call(&format!("Out::{variant}"), vec![payload])))
}

fn variant(escape: Escape, name: &str, has_value: bool) -> Variant {
    Variant { escape, name: name.to_string(), has_value }
}

fn escaped(mut blocks: Vec<Block>) -> (Vec<Block>, Vec<Variant>) {
    let found = replace_breaks(&mut blocks, &"Out".to_string(), &"P".to_string());
    (blocks, found)
}

fn first_of(first: Expr, second: Expr) -> Expr {
    Expr::Field {
        base: Box::new(Expr::Form { form: Form::Tuple, parts: vec![first, second] }),
        member: Member::Unnamed(0),
    }
}

fn acquire() -> Expr {
    call(
        "::std::cell::RefCell::borrow_mut",
        vec![Expr::Reference { mutable: false, expr: Box::new(name("cell")) }],
    )
}

fn suspended(base: Expr) -> Expr {
    first_of(
        wait(first_of(
            base,
            inner(None, vec![stmt(call("::core::mem::drop", vec![name("hold")]))]),
        )),
        inner(
            None,
            vec![stmt(Expr::Form { form: Form::Assign, parts: vec![name("hold"), acquire()] })],
        ),
    )
}

fn take_hold() -> Stmt {
    Stmt::Local {
        attrs: String::new(),
        pat: binding("hold", true),
        init: Some(acquire()),
        diverge: None,
    }
}

#[test]
fn questionmark() {
    // { Ok(7)?; Err("haha")?; Ok(3) }
    let mut blocks = vec![block(vec![
        stmt(question(lit("Ok(7)"))),
        stmt(question(lit("Err(\"haha\")"))),
        Stmt::Expr { expr: lit("Ok(3)"), semi: false },
    ])];
    replace_trys(&mut blocks);
    assert_eq!(
        blocks,
        vec![block(vec![
            stmt(branch(lit("Ok(7)"))),
            stmt(branch(lit("Err(\"haha\")"))),
            Stmt::Expr { expr: lit("Ok(3)"), semi: false },
        ])]
    );
}

#[test]
fn a_chain_of_fallible_steps_is_made_explicit_from_the_inside_out() {
    let mut blocks = vec![block(vec![stmt(question(other(
        "$0.parse()",
        vec![question(name("text"))],
    )))])];
    replace_trys(&mut blocks);
    assert_eq!(
        blocks,
        vec![block(vec![stmt(branch(other("$0.parse()", vec![branch(name("text"))])))])]
    );
}

#[test]
fn a_fallible_step_in_a_try_block_closure_or_async_block_is_left_alone() {
    let untouched = || {
        vec![
            stmt(Expr::TryBlock {
                block: block(vec![stmt(question(inner(None, vec![stmt(question(name("a")))])))]),
            }),
            stmt(Expr::Closure {
                prefix: String::new(),
                inputs: vec![],
                output: String::new(),
                expr: Box::new(question(name("b"))),
            }),
            stmt(Expr::Async { capture: true, block: block(vec![stmt(question(name("c")))]) }),
            Stmt::Item("fn f() -> Option<()> { g()?; None }".to_string()),
        ]
    };
    let mut stmts = untouched();
    stmts.push(stmt(question(name("d"))));
    let mut blocks = vec![block(stmts)];
    replace_trys(&mut blocks);
    let mut expected = untouched();
    expected.push(stmt(branch(name("d"))));
    assert_eq!(blocks, vec![block(expected)]);
}

#[test]
fn the_name_of_a_variant_tells_kind_and_label() {
    let prefix = "__enjoin".to_string();
    let label = |text: &str| Some(text.to_string());
    assert_eq!(Escape::Break(label("a")).variant_name(&prefix), "__enjoin_Break_a");
    assert_eq!(Escape::Break(None).variant_name(&prefix), "__enjoin_Break");
    assert_eq!(Escape::Continue(label("outer")).variant_name(&prefix), "__enjoin_Continue_outer");
    assert_eq!(Escape::Continue(None).variant_name(&prefix), "__enjoin_Continue");
    assert_eq!(Escape::Return.variant_name(&prefix), "__enjoin_Return");
    assert_eq!(Escape::Return.variant_name(&String::new()), "_Return");
    assert_eq!(Escape::Break(label("a")).duplicate(), Escape::Break(label("a")));
}

#[test]
fn labeled_break_one() {
    // { if i >= 2 { break 'a; } }
    let (blocks, found) = escaped(vec![
        block(vec![stmt(Expr::If {
            cond: Box::new(lit("i >= 2")),
            then_branch: block(vec![stmt(leave(Some("a"), None))]),
            else_branch: None,
        })]),
        block(vec![]),
    ]);
    assert_eq!(
        blocks,
        vec![
            block(vec![stmt(Expr::If {
                cond: Box::new(lit("i >= 2")),
                then_branch: block(vec![stmt(tagged("P_Break_a", unit()))]),
                else_branch: None,
            })]),
            block(vec![]),
        ]
    );
    assert_eq!(found, vec![variant(Escape::Break(Some("a".to_string())), "P_Break_a", false)]);
}

#[test]
fn one() {
    // { data += 1; break 'a 4; }: the value of the break is the payload
    let (blocks, found) = escaped(vec![block(vec![
        stmt(other("$0 += $1", vec![name("data"), lit("1")])),
        stmt(leave(Some("a"), Some(lit("4")))),
    ])]);
    assert_eq!(
        blocks,
        vec![block(vec![
            stmt(other("$0 += $1", vec![name("data"), lit("1")])),
            stmt(tagged("P_Break_a", lit("4"))),
        ])]
    );
    assert_eq!(found, vec![variant(Escape::Break(Some("a".to_string())), "P_Break_a", true)]);
}

#[test]
fn labeled_break_nested_through() {
    // { for j in 0..5 { if j <= 1 { continue; } if i <= 2 { continue 'a; } } }
    let body = |outer: Expr| {
        block(vec![stmt(Expr::ForLoop {
            label: None,
            pat: binding("j", false),
            expr: Box::new(lit("0..5")),
            body: block(vec![
                stmt(Expr::If {
                    cond: Box::new(lit("j <= 1")),
                    then_branch: block(vec![stmt(again(None))]),
                    else_branch: None,
                }),
                stmt(Expr::If {
                    cond: Box::new(lit("i <= 2")),
                    then_branch: block(vec![stmt(outer)]),
                    else_branch: None,
                }),
            ]),
        })])
    };
    let (blocks, found) = escaped(vec![body(again(Some("a")))]);
    assert_eq!(blocks, vec![body(tagged("P_Continue_a", unit()))]);
    assert_eq!(
        found,
        vec![variant(Escape::Continue(Some("a".to_string())), "P_Continue_a", false)]
    );
}

#[test]
fn unlabeled_break_shadowed() {
    // an unlabelled break under a loop of the block stays; one outside leaves
    let (blocks, found) = escaped(vec![block(vec![
        stmt(Expr::Loop { label: None, body: block(vec![stmt(leave(None, Some(lit("1"))))]) }),
        stmt(Expr::While {
            label: Some("w".to_string()),
            cond: Box::new(lit("true")),
            body: block(vec![stmt(again(None)), stmt(leave(Some("w"), None))]),
        }),
        stmt(inner(Some("b"), vec![stmt(leave(None, None)), stmt(again(None))])),
    ])]);
    assert_eq!(
        blocks,
        vec![block(vec![
            stmt(Expr::Loop { label: None, body: block(vec![stmt(leave(None, Some(lit("1"))))]) }),
            stmt(Expr::While {
                label: Some("w".to_string()),
                cond: Box::new(lit("true")),
                body: block(vec![stmt(again(None)), stmt(leave(Some("w"), None))]),
            }),
            stmt(inner(
                Some("b"),
                vec![stmt(tagged("P_Break", unit())), stmt(tagged("P_Continue", unit()))],
            )),
        ])]
    );
    assert_eq!(
        found,
        vec![
            variant(Escape::Break(None), "P_Break", false),
            variant(Escape::Continue(None), "P_Continue", false),
        ]
    );
}

#[test]
fn block_shadowed() {
    // a label declared again inside the block binds to the inner declaration
    // while that is open, and to the outer one behind it
    let (blocks, found) = escaped(vec![block(vec![
        stmt(inner(Some("a"), vec![stmt(leave(Some("a"), Some(lit("1"))))])),
        stmt(leave(Some("a"), Some(lit("2")))),
    ])]);
    assert_eq!(
        blocks,
        vec![block(vec![
            stmt(inner(Some("a"), vec![stmt(leave(Some("a"), Some(lit("1"))))])),
            stmt(tagged("P_Break_a", lit("2"))),
        ])]
    );
    assert_eq!(found, vec![variant(Escape::Break(Some("a".to_string())), "P_Break_a", true)]);
}

#[test]
fn return_out() {
    // every return leaves, also under loops; closures and async blocks keep
    // their exits
    let (blocks, found) = escaped(vec![
        block(vec![
            stmt(Expr::Loop { label: None, body: block(vec![stmt(give(Some(name("x"))))]) }),
            stmt(Expr::Closure {
                prefix: String::new(),
                inputs: vec![],
                output: String::new(),
                expr: Box::new(give(None)),
            }),
            stmt(Expr::Async { capture: false, block: block(vec![stmt(leave(None, None))]) }),
        ]),
        block(vec![stmt(give(None))]),
    ]);
    assert_eq!(
        blocks,
        vec![
            block(vec![
                stmt(Expr::Loop {
                    label: None,
                    body: block(vec![stmt(tagged("P_Return", name("x")))]),
                }),
                stmt(Expr::Closure {
                    prefix: String::new(),
                    inputs: vec![],
                    output: String::new(),
                    expr: Box::new(give(None)),
                }),
                stmt(Expr::Async { capture: false, block: block(vec![stmt(leave(None, None))]) }),
            ]),
            block(vec![stmt(tagged("P_Return", unit()))]),
        ]
    );
    assert_eq!(found, vec![variant(Escape::Return, "P_Return", true)]);
}

#[test]
fn exits_are_noted_once_each_in_the_order_in_which_they_are_met() {
    // break 'a (return 1); continue 'b; break 'a 2; continue;
    let (_, found) = escaped(vec![
        block(vec![stmt(leave(Some("a"), Some(give(Some(lit("1"))))))]),
        block(vec![
            stmt(again(Some("b"))),
            stmt(leave(Some("a"), None)),
            stmt(again(None)),
            stmt(give(None)),
        ]),
    ]);
    assert_eq!(
        found,
        vec![
            variant(Escape::Return, "P_Return", true),
            variant(Escape::Break(Some("a".to_string())), "P_Break_a", true),
            variant(Escape::Continue(Some("b".to_string())), "P_Continue_b", false),
            variant(Escape::Continue(None), "P_Continue", false),
        ]
    );
}

#[test]
fn a_suspension_point_gives_the_cell_free_and_takes_it_again() {
    let mut blocks = vec![
        block(vec![stmt(wait(call("step", vec![wait(name("inner"))])))]),
        block(vec![]),
        block(vec![
            stmt(Expr::Async { capture: false, block: block(vec![stmt(wait(name("a")))]) }),
            stmt(Expr::Closure {
                prefix: "async".to_string(),
                inputs: vec![],
                output: String::new(),
                expr: Box::new(wait(name("b"))),
            }),
        ]),
    ];
    replace_awaits(&mut blocks, &"hold".to_string(), &"cell".to_string());
    assert_eq!(
        blocks,
        vec![
            block(vec![
                take_hold(),
                stmt(suspended(call("step", vec![suspended(name("inner"))]))),
            ]),
            block(vec![take_hold()]),
            block(vec![
                take_hold(),
                stmt(Expr::Async { capture: false, block: block(vec![stmt(wait(name("a")))]) }),
                stmt(Expr::Closure {
                    prefix: "async".to_string(),
                    inputs: vec![],
                    output: String::new(),
                    expr: Box::new(wait(name("b"))),
                }),
            ]),
        ]
    );
}
