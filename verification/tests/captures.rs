use enjoin::arbitrate::{arbitrate, sort_occurrences, Occurrence};
use enjoin::captures::{find_occurrences, replace_captures_and_generate_borrows};
use enjoin::path::{compare_members, compare_names, Capture, Order};
use enjoin::scope::Locals;
use enjoin::sites::{find_capture, find_captures, Site};
use enjoin::syntax::{Arm, Block, Expr, Form, Member, Pat, Stmt};

fn name(text: &str) -> Expr {
    Expr::Name(text.to_string())
}

fn lit(text: &str) -> Expr {
    Expr::Verbatim(text.to_string())
}

fn field(base: Expr, member: &str) -> Expr {
    Expr::Field { base: Box::new(base), member: Member::Named(member.to_string()) }
}

fn index(base: Expr, position: usize) -> Expr {
    Expr::Field { base: Box::new(base), member: Member::Unnamed(position) }
}

fn other(syntax: &str, parts: Vec<Expr>) -> Expr {
    Expr::Form { form: Form::Other(syntax.to_string()), parts }
}

fn borrow(mutable: bool, expr: Expr) -> Expr {
    Expr::Reference { mutable, expr: Box::new(expr) }
}

fn call(func: Expr, args: Vec<Expr>) -> Expr {
    Expr::Call { func: Box::new(func), args }
}

fn stmt(expr: Expr) -> Stmt {
    Stmt::Expr { expr, semi: true }
}

fn binding(text: &str) -> Pat {
    Pat::Ident { name: text.to_string(), by_ref: false, mutable: false, subpat: None }
}

fn local(pat: Pat, init: Expr) -> Stmt {
    Stmt::Local { attrs: String::new(), pat, init: Some(init), diverge: None }
}

fn block(stmts: Vec<Stmt>) -> Block {
    Block { stmts }
}

fn path(root: &str, members: Vec<Member>) -> Capture {
    Capture { root: root.to_string(), members }
}

fn named(text: &str) -> Member {
    Member::Named(text.to_string())
}

fn site(root: &str, members: Vec<Member>, immutable: bool) -> Site {
    Site { capture: path(root, members), immutable }
}

fn occurrence(root: &str, members: Vec<Member>, immutable: bool, block: usize) -> Occurrence {
    Occurrence { capture: path(root, members), immutable, block }
}

fn held(position: usize) -> Expr {
    Expr::Form {
        form: Form::Paren,
        parts: vec![Expr::Form {
            form: Form::Deref,
            parts: vec![index(name("hold"), position)],
        }],
    }
}

fn cell_of(places: Vec<Expr>) -> Stmt {
    let parts = places.into_iter().map(|place| borrow(true, place)).collect();
    local(
        binding("cell"),
        call(
            lit("::std::cell::RefCell::new"),
            vec![Expr::Form { form: Form::Tuple, parts }],
        ),
    )
}

#[test]
fn names_are_ordered_as_strings() {
    let order = |a: &str, b: &str| compare_names(&a.to_string(), &b.to_string());
    assert_eq!(order("a", "b"), Order::Less);
    assert_eq!(order("b", "a"), Order::Greater);
    assert_eq!(order("count", "count"), Order::Equal);
    assert_eq!(order("ab", "abc"), Order::Less);
    assert_eq!(order("abc", "ab"), Order::Greater);
    assert_eq!(order("", "a"), Order::Less);
    assert_eq!(order("B", "a"), Order::Less);
    assert_eq!(order("x", "é"), Order::Less);
    assert_eq!(order("é", "z"), Order::Greater);
}

#[test]
fn positional_steps_come_before_named_steps() {
    assert_eq!(compare_members(&Member::Unnamed(7), &named("a")), Order::Less);
    assert_eq!(compare_members(&named("a"), &Member::Unnamed(7)), Order::Greater);
    assert_eq!(compare_members(&Member::Unnamed(2), &Member::Unnamed(10)), Order::Less);
    assert_eq!(compare_members(&Member::Unnamed(3), &Member::Unnamed(3)), Order::Equal);
    assert_eq!(compare_members(&named("b"), &named("a")), Order::Greater);
}

#[test]
fn paths_are_ordered_by_root_then_by_steps() {
    let s = path("s", vec![]);
    let s_first = path("s", vec![named("first")]);
    let s_first_x = path("s", vec![named("first"), named("x")]);
    let s_second = path("s", vec![named("second")]);
    let s_0 = path("s", vec![Member::Unnamed(0)]);
    let t = path("t", vec![]);
    assert_eq!(s.compare(&s_first), Order::Less);
    assert_eq!(s_first.compare(&s_first_x), Order::Less);
    assert_eq!(s_first_x.compare(&s_second), Order::Less);
    assert_eq!(s_0.compare(&s_first), Order::Less);
    assert_eq!(s_second.compare(&t), Order::Less);
    assert_eq!(t.compare(&s_second), Order::Greater);
    assert_eq!(s_first.compare(&path("s", vec![named("first")])), Order::Equal);
}

#[test]
fn a_path_covers_itself_and_its_descendants() {
    let s = path("s", vec![]);
    let s_first = path("s", vec![named("first")]);
    let s_first_x = path("s", vec![named("first"), named("x")]);
    let s_second = path("s", vec![named("second")]);
    assert!(s.covers(&s));
    assert!(s.covers(&s_first_x));
    assert!(s_first.covers(&s_first_x));
    assert!(!s_first_x.covers(&s_first));
    assert!(!s_first.covers(&s_second));
    assert!(!path("t", vec![]).covers(&s_first));
    assert_eq!(s_first.duplicate(), s_first);
}

#[test]
fn a_capture_is_a_free_variable_or_a_field_chain_on_one() {
    let mut locals = Locals::new();
    locals.enter_scope();
    locals.bind("mine".to_string());
    assert_eq!(find_capture(&name("x"), &locals), Some(path("x", vec![])));
    assert_eq!(
        find_capture(&index(field(name("x"), "a"), 1), &locals),
        Some(path("x", vec![named("a"), Member::Unnamed(1)]))
    );
    assert_eq!(find_capture(&name("mine"), &locals), None);
    assert_eq!(find_capture(&field(name("mine"), "a"), &locals), None);
    assert_eq!(find_capture(&name("Constant"), &locals), None);
    assert_eq!(find_capture(&name(""), &locals), None);
    assert_eq!(find_capture(&name("_x"), &locals), Some(path("_x", vec![])));
    assert_eq!(find_capture(&lit("1"), &locals), None);
    assert_eq!(find_capture(&field(call(name("f"), vec![]), "a"), &locals), None);
    locals.leave_scope();
    assert_eq!(find_capture(&name("mine"), &locals), Some(path("mine", vec![])));
}

#[test]
fn the_mutability_of_a_site_is_read_from_the_borrow_around_it() {
    let found = find_captures(&block(vec![
        stmt(borrow(false, name("a"))),
        stmt(borrow(true, field(name("b"), "x"))),
        stmt(other("$0 += $1", vec![name("c"), lit("1")])),
        stmt(borrow(false, other("($0)", vec![name("d")]))),
    ]));
    assert_eq!(
        found,
        vec![
            site("a", vec![], true),
            site("b", vec![named("x")], false),
            site("c", vec![], false),
            site("d", vec![], false),
        ]
    );
}

#[test]
fn the_callee_of_a_call_is_no_capture_but_its_arguments_are() {
    let found = find_captures(&block(vec![
        stmt(call(name("drop"), vec![name("x"), borrow(false, name("y"))])),
        stmt(call(field(name("s"), "callback"), vec![lit("1")])),
    ]));
    assert_eq!(
        found,
        vec![
            site("x", vec![], false),
            site("y", vec![], true),
            site("s", vec![named("callback")], false),
        ]
    );
}

#[test]
fn let_shadowed() {
    // { let x = x; x += 1; } touches the outer `x` once, in the initialiser
    let found = find_captures(&block(vec![
        local(binding("x"), name("x")),
        stmt(other("$0 += $1", vec![name("x"), lit("1")])),
    ]));
    assert_eq!(found, vec![site("x", vec![], false)]);
}

#[test]
fn let_not_shadowed() {
    // { { let x = 1; } x += 1; }: the inner binding ends with its block
    let found = find_captures(&block(vec![
        stmt(Expr::Block {
            label: None,
            block: block(vec![local(binding("x"), lit("1"))]),
        }),
        stmt(other("$0 += $1", vec![name("x"), lit("1")])),
    ]));
    assert_eq!(found, vec![site("x", vec![], false)]);
}

#[test]
fn if_let_shadowed() {
    // if let Some(x) = x { x; } else { x; }
    let pat = Pat::TupleStruct { path: "Some".to_string(), elems: vec![binding("x")] };
    let found = find_captures(&block(vec![stmt(Expr::If {
        cond: Box::new(Expr::Let { pat, expr: Box::new(borrow(true, name("x"))) }),
        then_branch: block(vec![stmt(name("x"))]),
        else_branch: Some(Box::new(Expr::Block {
            label: None,
            block: block(vec![stmt(field(name("x"), "a"))]),
        })),
    })]));
    assert_eq!(found, vec![site("x", vec![], false), site("x", vec![named("a")], false)]);
}

#[test]
fn while_let_and_for_bind_for_their_bodies() {
    let found = find_captures(&block(vec![
        stmt(Expr::While {
            label: None,
            cond: Box::new(Expr::Let {
                pat: Pat::TupleStruct { path: "Some".to_string(), elems: vec![binding("item")] },
                expr: Box::new(other("$0.pop()", vec![name("queue")])),
            }),
            body: block(vec![stmt(other("$0 += $1", vec![name("sum"), name("item")]))]),
        }),
        stmt(Expr::ForLoop {
            label: None,
            pat: Pat::Other {
                syntax: "($0, $1)".to_string(),
                parts: vec![binding("i"), binding("v")],
            },
            expr: Box::new(name("pairs")),
            body: block(vec![stmt(call(name("f"), vec![name("i"), name("v"), name("item")]))]),
        }),
    ]));
    assert_eq!(
        found,
        vec![
            site("queue", vec![], false),
            site("sum", vec![], false),
            site("pairs", vec![], false),
            site("item", vec![], false),
        ]
    );
}

#[test]
fn match_shadowed() {
    let found = find_captures(&block(vec![stmt(Expr::Match {
        expr: Box::new(name("x")),
        arms: vec![
            Arm {
                attrs: String::new(),
                pat: Pat::Ident {
                    name: "whole".to_string(),
                    by_ref: false,
                    mutable: false,
                    subpat: Some(Box::new(Pat::TupleStruct {
                        path: "Some".to_string(),
                        elems: vec![binding("x")],
                    })),
                },
                guard: Some(other("$0 > $1", vec![name("x"), name("limit")])),
                body: other("$0 + $1", vec![name("whole"), name("x")]),
            },
            Arm {
                attrs: String::new(),
                pat: Pat::Verbatim("_".to_string()),
                guard: None,
                body: name("x"),
            },
        ],
    })]));
    assert_eq!(
        found,
        vec![site("x", vec![], false), site("limit", vec![], false), site("x", vec![], false)]
    );
}

#[test]
fn closure_parameters_are_local_in_the_closure_and_items_are_not_searched() {
    let found = find_captures(&block(vec![
        Stmt::Item("fn helper() { x += 1; }".to_string()),
        stmt(Expr::Closure {
            prefix: "move".to_string(),
            inputs: vec![binding("x")],
            output: String::new(),
            expr: Box::new(other("$0 + $1", vec![name("x"), name("y")])),
        }),
        stmt(Expr::Async { capture: false, block: block(vec![stmt(name("z"))]) }),
    ]));
    assert_eq!(found, vec![site("y", vec![], false), site("z", vec![], false)]);
}

#[test]
fn occurrences_carry_the_position_of_their_block() {
    let blocks = vec![
        block(vec![stmt(name("a"))]),
        block(vec![]),
        block(vec![stmt(borrow(false, name("b"))), stmt(name("a"))]),
    ];
    assert_eq!(
        find_occurrences(&blocks),
        vec![
            occurrence("a", vec![], false, 0),
            occurrence("b", vec![], true, 2),
            occurrence("a", vec![], false, 2),
        ]
    );
}

#[test]
fn sorting_keeps_the_order_of_equal_paths() {
    let sorted = sort_occurrences(vec![
        occurrence("t", vec![], false, 0),
        occurrence("s", vec![named("b")], true, 1),
        occurrence("s", vec![], false, 2),
        occurrence("s", vec![named("b")], false, 3),
        occurrence("s", vec![Member::Unnamed(1)], false, 4),
    ]);
    assert_eq!(
        sorted,
        vec![
            occurrence("s", vec![], false, 2),
            occurrence("s", vec![Member::Unnamed(1)], false, 4),
            occurrence("s", vec![named("b")], true, 1),
            occurrence("s", vec![named("b")], false, 3),
            occurrence("t", vec![], false, 0),
        ]
    );
}

#[test]
fn a_capture_of_one_block_is_not_arbitrated() {
    let set = arbitrate(vec![
        occurrence("x", vec![], false, 0),
        occurrence("x", vec![named("a")], false, 0),
    ]);
    assert_eq!(set, Vec::<Capture>::new());
}

#[test]
fn a_capture_that_is_only_read_is_not_arbitrated() {
    let set = arbitrate(vec![
        occurrence("x", vec![], true, 0),
        occurrence("x", vec![], true, 1),
    ]);
    assert_eq!(set, Vec::<Capture>::new());
}

#[test]
fn one_write_among_reads_makes_a_shared_capture_arbitrated() {
    let set = arbitrate(vec![
        occurrence("x", vec![], true, 0),
        occurrence("y", vec![], false, 0),
        occurrence("x", vec![], false, 1),
    ]);
    assert_eq!(set, vec![path("x", vec![])]);
}

#[test]
fn descendants_collapse_into_the_topmost_observed_path() {
    let set = arbitrate(vec![
        occurrence("s", vec![named("a"), named("b")], false, 0),
        occurrence("s", vec![named("a")], true, 1),
        occurrence("t", vec![named("x")], false, 0),
        occurrence("t", vec![named("y")], false, 1),
        occurrence("u", vec![Member::Unnamed(0)], false, 1),
        occurrence("u", vec![], false, 2),
    ]);
    assert_eq!(set, vec![path("s", vec![named("a")]), path("u", vec![])]);
}

#[test]
fn capture_struct() {
    // one strand touches `s.first`; another writes `s.first` and reads
    // `s.second`: only `s.first` is shared
    let mut blocks = vec![
        block(vec![stmt(other("$0 += $1", vec![field(name("s"), "first"), lit("1")]))]),
        block(vec![
            stmt(Expr::Form {
                form: Form::Assign,
                parts: vec![field(name("s"), "first"), lit("2")],
            }),
            stmt(borrow(false, field(name("s"), "second"))),
        ]),
    ];
    let borrows =
        replace_captures_and_generate_borrows(&mut blocks, &"hold".to_string(), &"cell".to_string())
            .expect("`s.first` is shared");
    assert_eq!(borrows.captures, vec![path("s", vec![named("first")])]);
    assert_eq!(borrows.cell, cell_of(vec![field(name("s"), "first")]));
    assert_eq!(
        blocks,
        vec![
            block(vec![stmt(other("$0 += $1", vec![held(0), lit("1")]))]),
            block(vec![
                stmt(Expr::Form { form: Form::Assign, parts: vec![held(0), lit("2")] }),
                stmt(borrow(false, field(name("s"), "second"))),
            ]),
        ]
    );
}

#[test]
fn capture_tuple_nested() {
    // `data` in one strand and `data.1.0` in another share `data`; the
    // descendant keeps its field accesses on the shared place
    let mut blocks = vec![
        block(vec![stmt(borrow(true, name("data")))]),
        block(vec![
            stmt(other("$0 += $1", vec![index(index(name("data"), 1), 0), name("step")])),
            stmt(other("$0 -= $1", vec![name("other"), lit("1")])),
        ]),
        block(vec![stmt(other("$0 += $1", vec![name("other"), lit("2")]))]),
    ];
    let borrows =
        replace_captures_and_generate_borrows(&mut blocks, &"hold".to_string(), &"cell".to_string())
            .expect("`data` and `other` are shared");
    assert_eq!(borrows.captures, vec![path("data", vec![]), path("other", vec![])]);
    assert_eq!(borrows.cell, cell_of(vec![name("data"), name("other")]));
    assert_eq!(
        blocks,
        vec![
            block(vec![stmt(borrow(true, held(0)))]),
            block(vec![
                stmt(other("$0 += $1", vec![index(index(held(0), 1), 0), name("step")])),
                stmt(other("$0 -= $1", vec![held(1), lit("1")])),
            ]),
            block(vec![stmt(other("$0 += $1", vec![held(1), lit("2")]))]),
        ]
    );
}

#[test]
fn ignore_immut_reference() {
    let untouched = || {
        vec![
            block(vec![stmt(borrow(false, name("x")))]),
            block(vec![stmt(call(name("f"), vec![borrow(false, name("x"))]))]),
        ]
    };
    let mut blocks = untouched();
    let hold = "hold".to_string();
    let cell = "cell".to_string();
    let borrows = replace_captures_and_generate_borrows(&mut blocks, &hold, &cell);
    assert_eq!(borrows, None);
    assert_eq!(blocks, untouched());
}

#[test]
fn for_shadowed() {
    // the loop variable hides the shared `x` in the body only
    let mut blocks = vec![
        block(vec![
            stmt(Expr::ForLoop {
                label: None,
                pat: binding("x"),
                expr: Box::new(other("0..$0", vec![name("x")])),
                body: block(vec![stmt(other("$0 += $1", vec![name("x"), lit("1")]))]),
            }),
            stmt(other("$0 += $1", vec![name("x"), lit("1")])),
        ]),
        block(vec![stmt(other("$0 += $1", vec![name("x"), lit("1")]))]),
    ];
    let borrows =
        replace_captures_and_generate_borrows(&mut blocks, &"hold".to_string(), &"cell".to_string())
            .expect("`x` is shared");
    assert_eq!(borrows.captures, vec![path("x", vec![])]);
    assert_eq!(
        blocks,
        vec![
            block(vec![
                stmt(Expr::ForLoop {
                    label: None,
                    pat: binding("x"),
                    expr: Box::new(other("0..$0", vec![held(0)])),
                    body: block(vec![stmt(other("$0 += $1", vec![name("x"), lit("1")]))]),
                }),
                stmt(other("$0 += $1", vec![held(0), lit("1")])),
            ]),
            block(vec![stmt(other("$0 += $1", vec![held(0), lit("1")]))]),
        ]
    );
}
