use enjoin::scope::Locals;
use enjoin::syntax::Pat;

fn binding(text: &str) -> Pat {
    Pat::Ident { name: text.to_string(), by_ref: false, mutable: false, subpat: None }
}

fn local(locals: &Locals, text: &str) -> bool {
    locals.is_local(&text.to_string())
}

#[test]
fn a_name_is_local_from_its_binding_to_the_end_of_its_region() {
    let mut locals = Locals::new();
    assert!(!local(&locals, "x"));
    locals.enter_scope();
    assert!(!local(&locals, "x"));
    locals.bind("x".to_string());
    assert!(local(&locals, "x"));
    locals.enter_scope();
    assert!(local(&locals, "x"));
    locals.bind("y".to_string());
    assert!(local(&locals, "y"));
    locals.leave_scope();
    assert!(local(&locals, "x"));
    assert!(!local(&locals, "y"));
    locals.leave_scope();
    assert!(!local(&locals, "x"));
}

#[test]
fn an_inner_binding_of_a_bound_name_ends_alone() {
    let mut locals = Locals::new();
    locals.enter_scope();
    locals.bind("x".to_string());
    locals.enter_scope();
    locals.bind("x".to_string());
    locals.bind("x".to_string());
    locals.leave_scope();
    assert!(local(&locals, "x"));
    locals.leave_scope();
    assert!(!local(&locals, "x"));
}

#[test]
fn a_name_bound_outside_every_region_stays_local() {
    let mut locals = Locals::new();
    locals.bind("x".to_string());
    locals.leave_scope();
    assert!(local(&locals, "x"));
    locals.enter_scope();
    locals.leave_scope();
    locals.leave_scope();
    assert!(local(&locals, "x"));
}

#[test]
fn a_pattern_binds_every_name_in_it() {
    let mut locals = Locals::new();
    locals.enter_scope();
    locals.bind_pattern(&Pat::Other {
        syntax: "($0, $1, $2)".to_string(),
        parts: vec![
            binding("a"),
            Pat::Verbatim("_".to_string()),
            Pat::TupleStruct {
                path: "Some".to_string(),
                elems: vec![Pat::Ident {
                    name: "b".to_string(),
                    by_ref: true,
                    mutable: true,
                    subpat: Some(Box::new(binding("c"))),
                }],
            },
        ],
    });
    assert!(local(&locals, "a"));
    assert!(local(&locals, "b"));
    assert!(local(&locals, "c"));
    assert!(!local(&locals, "_"));
    assert!(!local(&locals, "Some"));
    locals.bind_patterns(&vec![binding("d"), binding("e")]);
    assert!(local(&locals, "d"));
    assert!(local(&locals, "e"));
    locals.leave_scope();
    assert!(!local(&locals, "a"));
    assert!(!local(&locals, "e"));
}
