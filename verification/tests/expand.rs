use enjoin::breaks::{Escape, Variant};
use enjoin::expand::{join, join_auto_borrow, list_variants, make_dispatch, MacroInput};
use enjoin::path::Capture;
use enjoin::syntax::{Arm, Block, Expr, Form, Member, Pat, Stmt};

fn name(text: &str) -> Expr {
    Expr::Name(text.to_string())
}

fn lit(text: &str) -> Expr {
    Expr::Verbatim(text.to_string())
}

fn other(syntax: &str, parts: Vec<Expr>) -> Expr {
    Expr::Form { form: Form::Other(syntax.to_string()), parts }
}

fn call(func: &str, args: Vec<Expr>) -> Expr {
    Expr::Call { func: Box::new(lit(func)), args }
}

fn stmt(expr: Expr) -> Stmt {
    Stmt::Expr { expr, semi: true }
}

fn block(stmts: Vec<Stmt>) -> Block {
    Block { stmts }
}

fn inner(stmts: Vec<Stmt>) -> Expr {
    Expr::Block { label: None, block: block(stmts) }
}

fn binding(text: &str, mutable: bool) -> Pat {
    Pat::Ident { name: text.to_string(), by_ref: false, mutable, subpat: None }
}

fn give(value: Expr) -> Expr {
    Expr::Return { value: Some(Box::new(value)) }
}

fn label(text: &str) -> Option<String> {
    Some(text.to_string())
}

fn variant(escape: Escape, name: &str, has_value: bool) -> Variant {
    Variant { escape, name: name.to_string(), has_value }
}

fn arm(variant: &str, used: bool, body: Expr) -> Arm {
    let elem = if used { binding("e", false) } else { Pat::Verbatim("_".to_string()) };
    Arm {
        attrs: String::new(),
        pat: Pat::TupleStruct {
            path: format!("__enjoin_OutputEnum::{variant}"),
            elems: vec![elem],
        },
        guard: None,
        body,
    }
}

fn tagged(variant: &str, payload: Expr) -> Expr {
    give(call(&format!("__enjoin_OutputEnum::{variant}"), vec![payload]))
}

fn held(position: usize) -> Expr {
    Expr::Form {
        form: Form::Paren,
        parts: vec![Expr::Form {
            form: Form::Deref,
            parts: vec![Expr::Field {
                base: Box::new(name("__enjoin_borrows")),
                member: Member::Unnamed(position),
            }],
        }],
    }
}

fn first_of(first: Expr, second: Expr) -> Expr {
    Expr::Field {
        base: Box::new(Expr::Form { form: Form::Tuple, parts: vec![first, second] }),
        member: Member::Unnamed(0),
    }
}

fn acquire() -> Expr {
    call(
        "::std::cell::RefCell::borrow_mut",
        vec![Expr::Reference { mutable: false, expr: Box::new(name("__enjoin_borrows_cell")) }],
    )
}

fn suspended(base: Expr) -> Expr {
    first_of(
        Expr::Await {
            base: Box::new(first_of(
                base,
                inner(vec![stmt(call("::core::mem::drop", vec![name("__enjoin_borrows")]))]),
            )),
        },
        inner(vec![stmt(Expr::Form {
            form: Form::Assign,
            parts: vec![name("__enjoin_borrows"), acquire()],
        })]),
    )
}

fn take_hold() -> Stmt {
    Stmt::Local {
        attrs: String::new(),
        pat: binding("__enjoin_borrows", true),
        init: Some(acquire()),
        diverge: None,
    }
}

#[test]
fn the_type_lists_returns_then_breaks_with_value_then_without_then_continues() {
    let table = vec![
        variant(Escape::Continue(None), "P_Continue", false),
        variant(Escape::Break(label("a")), "P_Break_a", false),
        variant(Escape::Break(None), "P_Break", true),
        variant(Escape::Return, "P_Return", false),
        variant(Escape::Continue(label("b")), "P_Continue_b", false),
        variant(Escape::Break(label("c")), "P_Break_c", true),
    ];
    assert_eq!(
        list_variants(&table),
        vec![
            variant(Escape::Return, "P_Return", false),
            variant(Escape::Break(None), "P_Break", true),
            variant(Escape::Break(label("c")), "P_Break_c", true),
            variant(Escape::Break(label("a")), "P_Break_a", false),
            variant(Escape::Continue(None), "P_Continue", false),
            variant(Escape::Continue(label("b")), "P_Continue_b", false),
        ]
    );
}

#[test]
fn each_variant_is_turned_back_into_its_exit() {
    let arms = make_dispatch(
        &"__enjoin_OutputEnum".to_string(),
        &"__enjoin_Keep".to_string(),
        &vec![
            variant(Escape::Return, "R", true),
            variant(Escape::Break(label("a")), "B_a", true),
            variant(Escape::Break(None), "B", false),
            variant(Escape::Continue(label("a")), "C_a", false),
        ],
    );
    let payload = || Some(Box::new(name("e")));
    assert_eq!(
        arms,
        vec![
            arm("__enjoin_Keep", true, name("e")),
            arm("R", true, Expr::Return { value: payload() }),
            arm("B_a", true, Expr::Break { label: label("a"), value: payload() }),
            arm("B", false, Expr::Break { label: None, value: None }),
            arm("C_a", false, Expr::Continue { label: label("a") }),
        ]
    );
}

#[test]
fn basic_try_join_successful() {
    // { step()?; break 'a 1 } and { continue }
    let expansion = join(MacroInput(vec![
        block(vec![
            stmt(Expr::Try { expr: Box::new(lit("step()")) }),
            Stmt::Expr {
                expr: Expr::Break { label: label("a"), value: Some(Box::new(lit("1"))) },
                semi: false,
            },
        ]),
        block(vec![stmt(Expr::Continue { label: None })]),
    ]));
    assert_eq!(expansion.borrows, None);
    assert_eq!(expansion.output_type, "__enjoin_OutputEnum");
    assert_eq!(expansion.keep, "__enjoin_Keep");
    assert_eq!(
        expansion.variants,
        vec![
            variant(Escape::Return, "__enjoin_Return", true),
            variant(Escape::Break(label("a")), "__enjoin_Break_a", true),
            variant(Escape::Continue(None), "__enjoin_Continue", false),
        ]
    );
    let stop = Arm {
        attrs: String::new(),
        pat: Pat::TupleStruct {
            path: "::core::ops::ControlFlow::Break".to_string(),
            elems: vec![binding("b", false)],
        },
        guard: None,
        body: tagged(
            "__enjoin_Return",
            call("::enjoin::polyfill::FromResidual::from_residual", vec![name("b")]),
        ),
    };
    let go_on = Arm {
        attrs: String::new(),
        pat: Pat::TupleStruct {
            path: "::core::ops::ControlFlow::Continue".to_string(),
            elems: vec![binding("c", false)],
        },
        guard: None,
        body: name("c"),
    };
    assert_eq!(
        expansion.blocks,
        vec![
            block(vec![
                stmt(Expr::Form {
                    form: Form::Paren,
                    parts: vec![Expr::Match {
                        expr: Box::new(call(
                            "::enjoin::polyfill::Try::branch",
                            vec![lit("step()")],
                        )),
                        arms: vec![stop, go_on],
                    }],
                }),
                Stmt::Expr { expr: tagged("__enjoin_Break_a", lit("1")), semi: false },
            ]),
            block(vec![stmt(tagged(
                "__enjoin_Continue",
                Expr::Form { form: Form::Tuple, parts: vec![] }
            ))]),
        ]
    );
    let payload = || Some(Box::new(name("e")));
    assert_eq!(
        expansion.arms,
        vec![
            arm("__enjoin_Keep", true, name("e")),
            arm("__enjoin_Return", true, Expr::Return { value: payload() }),
            arm("__enjoin_Break_a", true, Expr::Break { label: label("a"), value: payload() }),
            arm("__enjoin_Continue", false, Expr::Continue { label: None }),
        ]
    );
}

#[test]
fn shared_number() {
    // { count += 1; tick().await; } and { count -= 1; }
    let blocks = || {
        vec![
            block(vec![
                stmt(other("$0 += $1", vec![name("count"), lit("1")])),
                stmt(Expr::Await { base: Box::new(lit("tick()")) }),
            ]),
            block(vec![stmt(other("$0 -= $1", vec![name("count"), lit("1")]))]),
        ]
    };
    let plain = join(MacroInput(blocks()));
    assert_eq!(plain.borrows, None);
    assert_eq!(plain.blocks, blocks());
    assert_eq!(plain.variants, vec![]);
    assert_eq!(plain.arms, vec![arm("__enjoin_Keep", true, name("e"))]);

    let shared = join_auto_borrow(MacroInput(blocks()));
    let borrows = shared.borrows.expect("`count` is shared");
    assert_eq!(borrows.captures, vec![Capture { root: "count".to_string(), members: vec![] }]);
    assert_eq!(
        borrows.cell,
        Stmt::Local {
            attrs: String::new(),
            pat: binding("__enjoin_borrows_cell", false),
            init: Some(call(
                "::std::cell::RefCell::new",
                vec![Expr::Form {
                    form: Form::Tuple,
                    parts: vec![Expr::Reference { mutable: true, expr: Box::new(name("count")) }],
                }],
            )),
            diverge: None,
        }
    );
    assert_eq!(
        shared.blocks,
        vec![
            block(vec![
                take_hold(),
                stmt(other("$0 += $1", vec![held(0), lit("1")])),
                stmt(suspended(lit("tick()"))),
            ]),
            block(vec![take_hold(), stmt(other("$0 -= $1", vec![held(0), lit("1")]))]),
        ]
    );
}

#[test]
fn no_deref() {
    // nothing is shared: the blocks hold no cell and their suspension points
    // stay as they are
    let blocks = || {
        vec![
            block(vec![stmt(Expr::Await { base: Box::new(name("a")) })]),
            block(vec![stmt(Expr::Await { base: Box::new(name("b")) })]),
        ]
    };
    let expansion = join_auto_borrow(MacroInput(blocks()));
    assert_eq!(expansion.borrows, None);
    assert_eq!(expansion.blocks, blocks());
}
