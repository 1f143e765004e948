//! Where a block refers to variables that are not its own.
//!
//! A walk over a block, with the local names tracked, finds every name and
//! every field chain whose root is a variable from outside the block, and
//! notes whether the place is only read there: that is known where the
//! reference stands directly under `&`, and nowhere else.
//!
//! A name counts as a variable unless it begins with an ASCII capital or
//! stands as the callee of a call. Nested items are not searched. A `let` in
//! the condition of an `if` or a `while` binds for the guarded block, a `for`
//! pattern for the loop body, closure parameters for the closure body, an arm
//! pattern for guard and body, a `let` statement for the rest of its block.

use crate::path::{duplicate_member, Capture, CaptureView};
use crate::scope::{
    lemma_bind_all_append, lemma_bind_all_names, lemma_enter_leave, pat_names, pats_names, Locals,
};
use crate::syntax::{
    Arm, ArmView, Block, BlockView, Expr, ExprView, Name, Stmt, StmtView,
};
use vstd::prelude::*;

verus! {

/// One place where a block refers to a variable from outside.
#[derive(Debug, PartialEq, Eq)]
pub struct Site {
    /// The variable, or the field of it, that is referred to.
    pub capture: Capture,
    /// Whether the place is known to be only read.
    pub immutable: bool,
}

/// Model of [`Site`].
pub struct SiteView {
    pub capture: CaptureView,
    pub immutable: bool,
}

impl View for Site {
    type V = SiteView;

    open spec fn view(&self) -> SiteView {
        SiteView { capture: self.capture@, immutable: self.immutable }
    }
}

/// The models of a list of sites, in order.
pub open spec fn sites_view(sites: Vec<Site>) -> Seq<SiteView> {
    Seq::new(sites.len() as nat, |i: int| sites[i]@)
}

/// Whether a name can be that of a variable: it is not empty and does not
/// begin with an ASCII capital.
pub open spec fn is_variable(name: Name) -> bool {
    name.len() > 0 && !('A' <= name[0] && name[0] <= 'Z')
}

/// The path that `expr` refers to, where `expr` is a variable that is not
/// local, or a chain of field accesses on one.
pub open spec fn capture_of(expr: ExprView, locals: Set<Name>) -> Option<CaptureView>
    decreases expr,
{
    match expr {
        ExprView::Name(name) => if is_variable(name) && !locals.contains(name) {
            Some(CaptureView { root: name, members: Seq::empty() })
        } else {
            None
        },
        ExprView::Field { base, member } => match capture_of(*base, locals) {
            Some(inner) => Some(
                CaptureView { root: inner.root, members: inner.members.push(member) },
            ),
            None => None,
        },
        _ => None,
    }
}

/// The local names inside a construct that binds `names`.
pub open spec fn with_names(locals: Set<Name>, names: Seq<Name>) -> Set<Name> {
    locals.union(names.to_set())
}

/// The sites of an expression, in source order.
pub open spec fn expr_sites(expr: ExprView, locals: Set<Name>) -> Seq<SiteView>
    decreases expr, 0nat,
{
    match expr {
        ExprView::Name(name) => match capture_of(expr, locals) {
            Some(capture) => seq![SiteView { capture, immutable: false }],
            None => Seq::empty(),
        },
        ExprView::Verbatim(text) => Seq::empty(),
        ExprView::Field { base, member } => match capture_of(expr, locals) {
            Some(capture) => seq![SiteView { capture, immutable: false }],
            None => expr_sites(*base, locals),
        },
        ExprView::Reference { mutable, expr: target } => match capture_of(*target, locals) {
            Some(capture) => seq![SiteView { capture, immutable: !mutable }],
            None => expr_sites(*target, locals),
        },
        ExprView::Call { func, args } => callee_sites(*func, locals) + exprs_sites(
            args,
            0,
            locals,
        ),
        ExprView::Form { form, parts } => exprs_sites(parts, 0, locals),
        ExprView::Let { pat, expr: scrutinee } => expr_sites(*scrutinee, locals),
        ExprView::If { cond, then_branch, else_branch } => cond_sites(*cond, locals)
            + block_sites(then_branch, with_names(locals, cond_names(*cond))) + opt_box_sites(
            else_branch,
            locals,
        ),
        ExprView::While { label, cond, body } => cond_sites(*cond, locals) + block_sites(
            body,
            with_names(locals, cond_names(*cond)),
        ),
        ExprView::ForLoop { label, pat, expr: iter, body } => expr_sites(*iter, locals)
            + block_sites(body, with_names(locals, pat_names(pat))),
        ExprView::Loop { label, body } => block_sites(body, locals),
        ExprView::Block { label, block } => block_sites(block, locals),
        ExprView::Match { expr: scrutinee, arms } => expr_sites(*scrutinee, locals) + arms_sites(
            arms,
            0,
            locals,
        ),
        ExprView::Closure { prefix, inputs, output, expr: body } => expr_sites(
            *body,
            with_names(locals, pats_names(inputs, inputs.len())),
        ),
        ExprView::Async { capture, block } => block_sites(block, locals),
        ExprView::TryBlock { block } => block_sites(block, locals),
        ExprView::Await { base } => expr_sites(*base, locals),
        ExprView::Try { expr: inner } => expr_sites(*inner, locals),
        ExprView::Break { label, value } => opt_box_sites(value, locals),
        ExprView::Continue { label } => Seq::empty(),
        ExprView::Return { value } => opt_box_sites(value, locals),
    }
}

/// The sites of the callee of a call: a plain name there is a function, not
/// a variable.
pub open spec fn callee_sites(func: ExprView, locals: Set<Name>) -> Seq<SiteView>
    decreases func, 1nat,
{
    match func {
        ExprView::Name(name) => Seq::empty(),
        _ => expr_sites(func, locals),
    }
}

/// The names that a condition binds for the block that it guards.
pub open spec fn cond_names(cond: ExprView) -> Seq<Name> {
    match cond {
        ExprView::Let { pat, expr } => pat_names(pat),
        _ => Seq::empty(),
    }
}

/// The sites of a condition.
pub open spec fn cond_sites(cond: ExprView, locals: Set<Name>) -> Seq<SiteView>
    decreases cond, 1nat,
{
    expr_sites(cond, locals)
}

/// The sites of an optional expression.
pub open spec fn opt_box_sites(expr: Option<Box<ExprView>>, locals: Set<Name>) -> Seq<SiteView>
    decreases expr, 0nat,
{
    match expr {
        Some(inner) => expr_sites(*inner, locals),
        None => Seq::empty(),
    }
}

/// The sites of an optional expression.
pub open spec fn opt_sites(expr: Option<ExprView>, locals: Set<Name>) -> Seq<SiteView>
    decreases expr, 0nat,
{
    match expr {
        Some(inner) => expr_sites(inner, locals),
        None => Seq::empty(),
    }
}

/// The sites of the expressions from index `from` on.
pub open spec fn exprs_sites(exprs: Seq<ExprView>, from: nat, locals: Set<Name>) -> Seq<SiteView>
    decreases exprs, exprs.len() - from,
{
    if from >= exprs.len() {
        Seq::empty()
    } else {
        expr_sites(exprs[from as int], locals) + exprs_sites(exprs, from + 1, locals)
    }
}

/// The sites of a block.
pub open spec fn block_sites(block: BlockView, locals: Set<Name>) -> Seq<SiteView>
    decreases block, 0nat,
{
    stmts_sites(block.stmts, 0, locals)
}

/// The names that a statement binds for the statements after it.
pub open spec fn stmt_names(stmt: StmtView) -> Seq<Name> {
    match stmt {
        StmtView::Local { attrs, pat, init, diverge } => pat_names(pat),
        _ => Seq::empty(),
    }
}

/// The sites of a statement.
pub open spec fn stmt_sites(stmt: StmtView, locals: Set<Name>) -> Seq<SiteView>
    decreases stmt, 0nat,
{
    match stmt {
        StmtView::Local { attrs, pat, init, diverge } => opt_sites(init, locals) + opt_sites(
            diverge,
            locals,
        ),
        StmtView::Item(text) => Seq::empty(),
        StmtView::Expr { expr, semi } => expr_sites(expr, locals),
    }
}

/// The sites of the statements from index `from` on, where `locals` are the
/// local names before that statement.
pub open spec fn stmts_sites(stmts: Seq<StmtView>, from: nat, locals: Set<Name>) -> Seq<SiteView>
    decreases stmts, stmts.len() - from,
{
    if from >= stmts.len() {
        Seq::empty()
    } else {
        stmt_sites(stmts[from as int], locals) + stmts_sites(
            stmts,
            from + 1,
            with_names(locals, stmt_names(stmts[from as int])),
        )
    }
}

/// The sites of a match arm.
pub open spec fn arm_sites(arm: ArmView, locals: Set<Name>) -> Seq<SiteView>
    decreases arm, 0nat,
{
    opt_sites(arm.guard, with_names(locals, pat_names(arm.pat))) + expr_sites(
        arm.body,
        with_names(locals, pat_names(arm.pat)),
    )
}

/// The sites of the match arms from index `from` on.
pub open spec fn arms_sites(arms: Seq<ArmView>, from: nat, locals: Set<Name>) -> Seq<SiteView>
    decreases arms, arms.len() - from,
{
    if from >= arms.len() {
        Seq::empty()
    } else {
        arm_sites(arms[from as int], locals) + arms_sites(arms, from + 1, locals)
    }
}

/// Whether a name can be that of a variable.
fn is_variable_name(name: &String) -> (variable: bool)
    ensures
        variable == is_variable(name@),
{
    if name.as_str().is_empty() {
        false
    } else {
        let first = name.as_str().get_char(0);
        !('A' <= first && first <= 'Z')
    }
}

/// The path that `expr` refers to, where it is a variable that is not local
/// or a chain of field accesses on one.
pub fn find_capture(expr: &Expr, locals: &Locals) -> (capture: Option<Capture>)
    ensures
        match capture {
            Some(path) => capture_of(expr@, locals@.names()) == Some(path@),
            None => capture_of(expr@, locals@.names()) is None,
        },
    decreases expr,
{
    match expr {
        Expr::Name(name) => {
            if is_variable_name(name) && !locals.is_local(name) {
                let path = Capture { root: name.clone(), members: Vec::new() };
                assert(path@.members =~= Seq::empty());
                Some(path)
            } else {
                None
            }
        },
        Expr::Field { base, member } => {
            match find_capture(base, locals) {
                Some(inner) => {
                    let ghost before = inner@;
                    let mut path = inner;
                    path.members.push(duplicate_member(member));
                    assert(path@.members =~= before.members.push(member@));
                    Some(path)
                },
                None => None,
            }
        },
        _ => None,
    }
}

/// Appends the sites of `expr` to `found`. `locals` holds the names that are
/// local where `expr` stands, and is left as it was.
pub fn find_expr(expr: &Expr, locals: &mut Locals, found: &mut Vec<Site>)
    ensures
        final(locals)@ == old(locals)@,
        sites_view(*final(found)) == sites_view(*old(found)) + expr_sites(
            expr@,
            old(locals)@.names(),
        ),
    decreases expr, 0nat,
{
    let ghost start = sites_view(*found);
    let ghost names = locals@.names();
    match expr {
        Expr::Name(name) => {
            match find_capture(expr, locals) {
                Some(capture) => {
                    found.push(Site { capture, immutable: false });
                },
                None => {},
            }
            assert(sites_view(*found) =~= start + expr_sites(expr@, names));
        },
        Expr::Verbatim(text) => {
            assert(sites_view(*found) =~= start + expr_sites(expr@, names));
        },
        Expr::Field { base, member } => {
            match find_capture(expr, locals) {
                Some(capture) => {
                    found.push(Site { capture, immutable: false });
                },
                None => {
                    find_expr(base, locals, found);
                },
            }
            assert(sites_view(*found) =~= start + expr_sites(expr@, names));
        },
        Expr::Reference { mutable, expr: target } => {
            match find_capture(target, locals) {
                Some(capture) => {
                    found.push(Site { capture, immutable: !*mutable });
                },
                None => {
                    find_expr(target, locals, found);
                },
            }
            assert(sites_view(*found) =~= start + expr_sites(expr@, names));
        },
        Expr::Call { func, args } => {
            match &**func {
                Expr::Name(name) => {},
                _ => {
                    find_expr(func, locals, found);
                },
            }
            assert(sites_view(*found) =~= start + callee_sites(func@, names));
            find_exprs(args, locals, found);
            assert(sites_view(*found) =~= start + expr_sites(expr@, names));
        },
        Expr::Form { form, parts } => {
            find_exprs(parts, locals, found);
            assert(sites_view(*found) =~= start + expr_sites(expr@, names));
        },
        Expr::Let { pat, expr: scrutinee } => {
            find_expr(scrutinee, locals, found);
            assert(sites_view(*found) =~= start + expr_sites(expr@, names));
        },
        Expr::If { cond, then_branch, else_branch } => {
            match &**cond {
                Expr::Let { pat, expr: scrutinee } => {
                    find_expr(scrutinee, locals, found);
                    proof {
                        lemma_enter_leave(locals@, pat_names(pat@));
                        lemma_bind_all_names(locals@.enter(), pat_names(pat@));
                    }
                    locals.enter_scope();
                    locals.bind_pattern(pat);
                    find_block(then_branch, locals, found);
                    locals.leave_scope();
                },
                _ => {
                    find_expr(cond, locals, found);
                    assert(!(cond@ is Let));
                    assert(with_names(names, cond_names(cond@)) =~= names);
                    find_block(then_branch, locals, found);
                },
            }
            assert(sites_view(*found) =~= start + (cond_sites(cond@, names) + block_sites(
                then_branch@,
                with_names(names, cond_names(cond@)),
            )));
            find_opt_box(else_branch, locals, found);
            assert(sites_view(*found) =~= start + expr_sites(expr@, names));
        },
        Expr::While { label, cond, body } => {
            match &**cond {
                Expr::Let { pat, expr: scrutinee } => {
                    find_expr(scrutinee, locals, found);
                    proof {
                        lemma_enter_leave(locals@, pat_names(pat@));
                        lemma_bind_all_names(locals@.enter(), pat_names(pat@));
                    }
                    locals.enter_scope();
                    locals.bind_pattern(pat);
                    find_block(body, locals, found);
                    locals.leave_scope();
                },
                _ => {
                    find_expr(cond, locals, found);
                    assert(!(cond@ is Let));
                    assert(with_names(names, cond_names(cond@)) =~= names);
                    find_block(body, locals, found);
                },
            }
            assert(sites_view(*found) =~= start + (cond_sites(cond@, names) + block_sites(
                body@,
                with_names(names, cond_names(cond@)),
            )));
            assert(sites_view(*found) =~= start + expr_sites(expr@, names));
        },
        Expr::ForLoop { label, pat, expr: iter, body } => {
            find_expr(iter, locals, found);
            proof {
                lemma_enter_leave(locals@, pat_names(pat@));
                lemma_bind_all_names(locals@.enter(), pat_names(pat@));
            }
            locals.enter_scope();
            locals.bind_pattern(pat);
            find_block(body, locals, found);
            locals.leave_scope();
            assert(sites_view(*found) =~= start + expr_sites(expr@, names));
        },
        Expr::Loop { label, body } => {
            find_block(body, locals, found);
            assert(sites_view(*found) =~= start + expr_sites(expr@, names));
        },
        Expr::Block { label, block } => {
            find_block(block, locals, found);
            assert(sites_view(*found) =~= start + expr_sites(expr@, names));
        },
        Expr::Match { expr: scrutinee, arms } => {
            find_expr(scrutinee, locals, found);
            find_arms(arms, locals, found);
            assert(sites_view(*found) =~= start + expr_sites(expr@, names));
        },
        Expr::Closure { prefix, inputs, output, expr: body } => {
            proof {
                lemma_enter_leave(
                    locals@,
                    pats_names(crate::syntax::pats_view(*inputs), inputs.len() as nat),
                );
                lemma_bind_all_names(
                    locals@.enter(),
                    pats_names(crate::syntax::pats_view(*inputs), inputs.len() as nat),
                );
            }
            locals.enter_scope();
            locals.bind_patterns(inputs);
            find_expr(body, locals, found);
            locals.leave_scope();
            assert(sites_view(*found) =~= start + expr_sites(expr@, names));
        },
        Expr::Async { capture, block } => {
            find_block(block, locals, found);
            assert(sites_view(*found) =~= start + expr_sites(expr@, names));
        },
        Expr::TryBlock { block } => {
            find_block(block, locals, found);
            assert(sites_view(*found) =~= start + expr_sites(expr@, names));
        },
        Expr::Await { base } => {
            find_expr(base, locals, found);
            assert(sites_view(*found) =~= start + expr_sites(expr@, names));
        },
        Expr::Try { expr: inner } => {
            find_expr(inner, locals, found);
            assert(sites_view(*found) =~= start + expr_sites(expr@, names));
        },
        Expr::Break { label, value } => {
            find_opt_box(value, locals, found);
            assert(sites_view(*found) =~= start + expr_sites(expr@, names));
        },
        Expr::Continue { label } => {
            assert(sites_view(*found) =~= start + expr_sites(expr@, names));
        },
        Expr::Return { value } => {
            find_opt_box(value, locals, found);
            assert(sites_view(*found) =~= start + expr_sites(expr@, names));
        },
    }
}

/// Appends the sites of an optional expression.
fn find_opt_box(expr: &Option<Box<Expr>>, locals: &mut Locals, found: &mut Vec<Site>)
    ensures
        final(locals)@ == old(locals)@,
        sites_view(*final(found)) == sites_view(*old(found)) + opt_box_sites(
            crate::syntax::opt_box_view(*expr),
            old(locals)@.names(),
        ),
    decreases expr, 0nat,
{
    match expr {
        Some(inner) => {
            find_expr(inner, locals, found);
        },
        None => {
            assert(sites_view(*found) =~= sites_view(*old(found)) + Seq::empty());
        },
    }
}

/// Appends the sites of an optional expression.
fn find_opt(expr: &Option<Expr>, locals: &mut Locals, found: &mut Vec<Site>)
    ensures
        final(locals)@ == old(locals)@,
        sites_view(*final(found)) == sites_view(*old(found)) + opt_sites(
            crate::syntax::opt_view(*expr),
            old(locals)@.names(),
        ),
    decreases expr, 0nat,
{
    match expr {
        Some(inner) => {
            find_expr(inner, locals, found);
        },
        None => {
            assert(sites_view(*found) =~= sites_view(*old(found)) + Seq::empty());
        },
    }
}

/// Appends the sites of each of `exprs`, in order.
fn find_exprs(exprs: &Vec<Expr>, locals: &mut Locals, found: &mut Vec<Site>)
    ensures
        final(locals)@ == old(locals)@,
        sites_view(*final(found)) == sites_view(*old(found)) + exprs_sites(
            crate::syntax::exprs_view(*exprs),
            0,
            old(locals)@.names(),
        ),
    decreases exprs, 0nat,
{
    let ghost start = sites_view(*found);
    let ghost names = locals@.names();
    let ghost views = crate::syntax::exprs_view(*exprs);
    let mut i: usize = 0;
    assert(sites_view(*found) + exprs_sites(views, 0, names) =~= start + exprs_sites(
        views,
        0,
        names,
    ));
    while i < exprs.len()
        invariant
            i <= exprs.len(),
            locals@ == old(locals)@,
            names == locals@.names(),
            views == crate::syntax::exprs_view(*exprs),
            sites_view(*found) + exprs_sites(views, i as nat, names) == start + exprs_sites(
                views,
                0,
                names,
            ),
        decreases exprs.len() - i,
    {
        let ghost before = sites_view(*found);
        find_expr(&exprs[i], locals, found);
        assert(sites_view(*found) + exprs_sites(views, (i + 1) as nat, names) =~= before
            + exprs_sites(views, i as nat, names));
        i += 1;
    }
    assert(sites_view(*found) =~= sites_view(*found) + exprs_sites(views, i as nat, names));
}

/// Appends the sites of a block. The names that its statements bind are
/// local to the end of the block only.
pub fn find_block(block: &Block, locals: &mut Locals, found: &mut Vec<Site>)
    ensures
        final(locals)@ == old(locals)@,
        sites_view(*final(found)) == sites_view(*old(found)) + block_sites(
            block@,
            old(locals)@.names(),
        ),
    decreases block, 0nat,
{
    let ghost start = sites_view(*found);
    let ghost outside = locals@;
    let ghost views = block@.stmts;
    proof {
        lemma_enter_leave(outside, Seq::empty());
        lemma_bind_all_append(outside.enter(), Seq::empty(), Seq::empty());
    }
    locals.enter_scope();
    let ghost mut bound: Seq<Name> = Seq::empty();
    let mut i: usize = 0;
    assert(sites_view(*found) + stmts_sites(views, 0, locals@.names()) =~= start + stmts_sites(
        views,
        0,
        outside.names(),
    ));
    while i < block.stmts.len()
        invariant
            i <= block.stmts.len(),
            views == block@.stmts,
            locals@ == outside.enter().bind_all(bound),
            sites_view(*found) + stmts_sites(views, i as nat, locals@.names()) == start
                + stmts_sites(views, 0, outside.names()),
        decreases block.stmts.len() - i,
    {
        let ghost before = sites_view(*found);
        let ghost inside = locals@;
        find_stmt(&block.stmts[i], locals, found);
        proof {
            let names = stmt_names(views[i as int]);
            lemma_bind_all_append(outside.enter(), bound, names);
            lemma_bind_all_names(inside, names);
            bound = bound + names;
            assert(sites_view(*found) + stmts_sites(views, (i + 1) as nat, locals@.names())
                =~= before + stmts_sites(views, i as nat, inside.names()));
        }
        i += 1;
    }
    proof {
        lemma_enter_leave(outside, bound);
    }
    locals.leave_scope();
    assert(sites_view(*found) =~= sites_view(*found) + Seq::empty());
}

/// Appends the sites of a statement, and makes local what it binds.
fn find_stmt(stmt: &Stmt, locals: &mut Locals, found: &mut Vec<Site>)
    ensures
        final(locals)@ == old(locals)@.bind_all(stmt_names(stmt@)),
        sites_view(*final(found)) == sites_view(*old(found)) + stmt_sites(
            stmt@,
            old(locals)@.names(),
        ),
    decreases stmt, 0nat,
{
    let ghost start = sites_view(*found);
    let ghost names = locals@.names();
    match stmt {
        Stmt::Local { attrs, pat, init, diverge } => {
            find_opt(init, locals, found);
            find_opt(diverge, locals, found);
            locals.bind_pattern(pat);
        },
        Stmt::Item(text) => {
            proof {
                lemma_bind_all_append(locals@, Seq::empty(), Seq::empty());
            }
        },
        Stmt::Expr { expr, semi } => {
            find_expr(expr, locals, found);
            proof {
                lemma_bind_all_append(locals@, Seq::empty(), Seq::empty());
            }
        },
    }
    assert(sites_view(*found) =~= start + stmt_sites(stmt@, names));
}

/// Appends the sites of a match arm; what its pattern binds is local in guard
/// and body.
fn find_arm(arm: &Arm, locals: &mut Locals, found: &mut Vec<Site>)
    ensures
        final(locals)@ == old(locals)@,
        sites_view(*final(found)) == sites_view(*old(found)) + arm_sites(
            arm@,
            old(locals)@.names(),
        ),
    decreases arm, 0nat,
{
    let ghost start = sites_view(*found);
    let ghost names = locals@.names();
    proof {
        lemma_enter_leave(locals@, pat_names(arm.pat@));
        lemma_bind_all_names(locals@.enter(), pat_names(arm.pat@));
    }
    locals.enter_scope();
    locals.bind_pattern(&arm.pat);
    find_opt(&arm.guard, locals, found);
    find_expr(&arm.body, locals, found);
    locals.leave_scope();
    assert(sites_view(*found) =~= start + arm_sites(arm@, names));
}

/// Appends the sites of each of `arms`, in order.
fn find_arms(arms: &Vec<Arm>, locals: &mut Locals, found: &mut Vec<Site>)
    ensures
        final(locals)@ == old(locals)@,
        sites_view(*final(found)) == sites_view(*old(found)) + arms_sites(
            crate::syntax::arms_view(*arms),
            0,
            old(locals)@.names(),
        ),
    decreases arms, 0nat,
{
    let ghost start = sites_view(*found);
    let ghost names = locals@.names();
    let ghost views = crate::syntax::arms_view(*arms);
    let mut i: usize = 0;
    assert(sites_view(*found) + arms_sites(views, 0, names) =~= start + arms_sites(
        views,
        0,
        names,
    ));
    while i < arms.len()
        invariant
            i <= arms.len(),
            locals@ == old(locals)@,
            names == locals@.names(),
            views == crate::syntax::arms_view(*arms),
            sites_view(*found) + arms_sites(views, i as nat, names) == start + arms_sites(
                views,
                0,
                names,
            ),
        decreases arms.len() - i,
    {
        let ghost before = sites_view(*found);
        find_arm(&arms[i], locals, found);
        assert(sites_view(*found) + arms_sites(views, (i + 1) as nat, names) =~= before
            + arms_sites(views, i as nat, names));
        i += 1;
    }
    assert(sites_view(*found) =~= sites_view(*found) + arms_sites(views, i as nat, names));
}

/// The places where `block` refers to variables from outside, in source
/// order.
pub fn find_captures(block: &Block) -> (found: Vec<Site>)
    ensures
        sites_view(found) == block_sites(block@, Set::empty()),
{
    let mut locals = Locals::new();
    let mut found: Vec<Site> = Vec::new();
    assert(locals@.names() =~= Set::empty());
    assert(sites_view(found) =~= Seq::empty());
    find_block(block, &mut locals, &mut found);
    assert(sites_view(found) =~= Seq::empty() + block_sites(block@, Set::empty()));
    found
}

/// Whether no site refers to a variable whose name is among `locals`.
pub open spec fn all_outside(sites: Seq<SiteView>, locals: Set<Name>) -> bool {
    forall|i: int| 0 <= i < sites.len() ==> !locals.contains(#[trigger] sites[i].capture.root)
}

/// The root of a path that an expression refers to is the name of a variable
/// and is not local.
pub proof fn lemma_capture_root(expr: ExprView, locals: Set<Name>)
    ensures
        capture_of(expr, locals) matches Some(path) ==> is_variable(path.root) && !locals.contains(
            path.root,
        ),
    decreases expr,
{
    match expr {
        ExprView::Field { base, member } => {
            lemma_capture_root(*base, locals);
        },
        _ => {},
    }
}

/// Sites outside a larger set of names are outside a smaller one; and two
/// lists of such sites make one.
proof fn lemma_all_outside(
    first: Seq<SiteView>,
    second: Seq<SiteView>,
    locals: Set<Name>,
    inner: Set<Name>,
)
    requires
        all_outside(first, locals),
        all_outside(second, inner),
        locals.subset_of(inner),
    ensures
        all_outside(first + second, locals),
{
    assert forall|i: int| 0 <= i < (first + second).len() implies !locals.contains(
        #[trigger] (first + second)[i].capture.root,
    ) by {
        if i < first.len() {
            assert((first + second)[i] == first[i]);
        } else {
            assert((first + second)[i] == second[i - first.len()]);
            assert(!inner.contains(second[i - first.len()].capture.root));
        }
    }
}

/// A single site whose root is not local is outside the local names.
proof fn lemma_one_outside(capture: Option<CaptureView>, immutable: bool, locals: Set<Name>)
    requires
        capture matches Some(path) ==> !locals.contains(path.root),
    ensures
        capture matches Some(path) ==> all_outside(
            seq![SiteView { capture: path, immutable }],
            locals,
        ),
{
    match capture {
        Some(path) => {
            let sites = seq![SiteView { capture: path, immutable }];
            assert forall|i: int| 0 <= i < sites.len() implies !locals.contains(
                #[trigger] sites[i].capture.root,
            ) by {
                assert(sites[i] == SiteView { capture: path, immutable });
            }
        },
        None => {},
    }
}

/// Shadowing: a name that is local where an expression stands is not the root
/// of any of its sites, whatever the expression binds further in.
pub proof fn lemma_expr_sites_outside(expr: ExprView, locals: Set<Name>)
    ensures
        all_outside(expr_sites(expr, locals), locals),
    decreases expr, 0nat,
{
    let empty = Seq::<SiteView>::empty();
    match expr {
        ExprView::Name(name) => {
            lemma_capture_root(expr, locals);
            lemma_one_outside(capture_of(expr, locals), false, locals);
            assert(all_outside(expr_sites(expr, locals), locals));
        },
        ExprView::Verbatim(text) => {
            assert(all_outside(expr_sites(expr, locals), locals));
        },
        ExprView::Field { base, member } => {
            lemma_capture_root(expr, locals);
            lemma_one_outside(capture_of(expr, locals), false, locals);
            lemma_expr_sites_outside(*base, locals);
            assert(all_outside(expr_sites(expr, locals), locals));
        },
        ExprView::Reference { mutable, expr: target } => {
            lemma_capture_root(*target, locals);
            lemma_one_outside(capture_of(*target, locals), !mutable, locals);
            lemma_expr_sites_outside(*target, locals);
            assert(all_outside(expr_sites(expr, locals), locals));
        },
        ExprView::Call { func, args } => {
            lemma_expr_sites_outside(*func, locals);
            lemma_exprs_sites_outside(args, 0, locals);
            lemma_all_outside(
                callee_sites(*func, locals),
                exprs_sites(args, 0, locals),
                locals,
                locals,
            );
            assert(all_outside(expr_sites(expr, locals), locals));
        },
        ExprView::Form { form, parts } => {
            lemma_exprs_sites_outside(parts, 0, locals);
            assert(all_outside(expr_sites(expr, locals), locals));
        },
        ExprView::Let { pat, expr: scrutinee } => {
            lemma_expr_sites_outside(*scrutinee, locals);
            assert(all_outside(expr_sites(expr, locals), locals));
        },
        ExprView::If { cond, then_branch, else_branch } => {
            let inner = with_names(locals, cond_names(*cond));
            lemma_expr_sites_outside(*cond, locals);
            lemma_block_sites_outside(then_branch, inner);
            lemma_all_outside(
                cond_sites(*cond, locals),
                block_sites(then_branch, inner),
                locals,
                inner,
            );
            match else_branch {
                Some(other) => {
                    lemma_expr_sites_outside(*other, locals);
                },
                None => {},
            }
            lemma_all_outside(
                cond_sites(*cond, locals) + block_sites(then_branch, inner),
                opt_box_sites(else_branch, locals),
                locals,
                locals,
            );
            assert(all_outside(expr_sites(expr, locals), locals));
        },
        ExprView::While { label, cond, body } => {
            let inner = with_names(locals, cond_names(*cond));
            lemma_expr_sites_outside(*cond, locals);
            lemma_block_sites_outside(body, inner);
            lemma_all_outside(cond_sites(*cond, locals), block_sites(body, inner), locals, inner);
            assert(all_outside(expr_sites(expr, locals), locals));
        },
        ExprView::ForLoop { label, pat, expr: iter, body } => {
            let inner = with_names(locals, pat_names(pat));
            lemma_expr_sites_outside(*iter, locals);
            lemma_block_sites_outside(body, inner);
            lemma_all_outside(expr_sites(*iter, locals), block_sites(body, inner), locals, inner);
            assert(all_outside(expr_sites(expr, locals), locals));
        },
        ExprView::Loop { label, body } => {
            lemma_block_sites_outside(body, locals);
            assert(all_outside(expr_sites(expr, locals), locals));
        },
        ExprView::Block { label, block } => {
            lemma_block_sites_outside(block, locals);
            assert(all_outside(expr_sites(expr, locals), locals));
        },
        ExprView::Match { expr: scrutinee, arms } => {
            lemma_expr_sites_outside(*scrutinee, locals);
            lemma_arms_sites_outside(arms, 0, locals);
            lemma_all_outside(
                expr_sites(*scrutinee, locals),
                arms_sites(arms, 0, locals),
                locals,
                locals,
            );
            assert(all_outside(expr_sites(expr, locals), locals));
        },
        ExprView::Closure { prefix, inputs, output, expr: body } => {
            let inner = with_names(locals, pats_names(inputs, inputs.len()));
            lemma_expr_sites_outside(*body, inner);
            lemma_all_outside(empty, expr_sites(*body, inner), locals, inner);
            assert(empty + expr_sites(*body, inner) =~= expr_sites(*body, inner));
            assert(all_outside(expr_sites(expr, locals), locals));
        },
        ExprView::Async { capture, block } => {
            lemma_block_sites_outside(block, locals);
            assert(all_outside(expr_sites(expr, locals), locals));
        },
        ExprView::TryBlock { block } => {
            lemma_block_sites_outside(block, locals);
            assert(all_outside(expr_sites(expr, locals), locals));
        },
        ExprView::Await { base } => {
            lemma_expr_sites_outside(*base, locals);
            assert(all_outside(expr_sites(expr, locals), locals));
        },
        ExprView::Try { expr: inner } => {
            lemma_expr_sites_outside(*inner, locals);
            assert(all_outside(expr_sites(expr, locals), locals));
        },
        ExprView::Break { label, value } => {
            match value {
                Some(inner) => {
                    lemma_expr_sites_outside(*inner, locals);
                },
                None => {},
            }
            assert(all_outside(opt_box_sites(value, locals), locals));
            assert(all_outside(expr_sites(expr, locals), locals));
        },
        ExprView::Continue { label } => {
            assert(all_outside(expr_sites(expr, locals), locals));
        },
        ExprView::Return { value } => {
            match value {
                Some(inner) => {
                    lemma_expr_sites_outside(*inner, locals);
                },
                None => {},
            }
            assert(all_outside(opt_box_sites(value, locals), locals));
            assert(all_outside(expr_sites(expr, locals), locals));
        },
    }
}

/// Shadowing, for a list of expressions.
proof fn lemma_exprs_sites_outside(exprs: Seq<ExprView>, from: nat, locals: Set<Name>)
    ensures
        all_outside(exprs_sites(exprs, from, locals), locals),
    decreases exprs, exprs.len() - from,
{
    if from < exprs.len() {
        lemma_expr_sites_outside(exprs[from as int], locals);
        lemma_exprs_sites_outside(exprs, from + 1, locals);
        lemma_all_outside(
            expr_sites(exprs[from as int], locals),
            exprs_sites(exprs, from + 1, locals),
            locals,
            locals,
        );
    }
}

/// Shadowing, for an optional expression.
proof fn lemma_opt_sites_outside(expr: Option<ExprView>, locals: Set<Name>)
    ensures
        all_outside(opt_sites(expr, locals), locals),
    decreases expr, 0nat,
{
    match expr {
        Some(inner) => {
            lemma_expr_sites_outside(inner, locals);
        },
        None => {},
    }
}

/// Shadowing, for a block: a name that is local where the block stands is not
/// the root of any of its sites.
pub proof fn lemma_block_sites_outside(block: BlockView, locals: Set<Name>)
    ensures
        all_outside(block_sites(block, locals), locals),
    decreases block, 0nat,
{
    lemma_stmts_sites_outside(block.stmts, 0, locals);
}

/// Shadowing, for the statements of a block.
proof fn lemma_stmts_sites_outside(stmts: Seq<StmtView>, from: nat, locals: Set<Name>)
    ensures
        all_outside(stmts_sites(stmts, from, locals), locals),
    decreases stmts, stmts.len() - from,
{
    if from < stmts.len() {
        let stmt = stmts[from as int];
        let inner = with_names(locals, stmt_names(stmt));
        match stmt {
            StmtView::Local { attrs, pat, init, diverge } => {
                lemma_opt_sites_outside(init, locals);
                lemma_opt_sites_outside(diverge, locals);
                lemma_all_outside(
                    opt_sites(init, locals),
                    opt_sites(diverge, locals),
                    locals,
                    locals,
                );
            },
            StmtView::Item(text) => {},
            StmtView::Expr { expr, semi } => {
                lemma_expr_sites_outside(expr, locals);
            },
        }
        lemma_stmts_sites_outside(stmts, from + 1, inner);
        lemma_all_outside(
            stmt_sites(stmt, locals),
            stmts_sites(stmts, from + 1, inner),
            locals,
            inner,
        );
    }
}

/// Shadowing, for the arms of a match.
proof fn lemma_arms_sites_outside(arms: Seq<ArmView>, from: nat, locals: Set<Name>)
    ensures
        all_outside(arms_sites(arms, from, locals), locals),
    decreases arms, arms.len() - from,
{
    if from < arms.len() {
        let arm = arms[from as int];
        let inner = with_names(locals, pat_names(arm.pat));
        lemma_opt_sites_outside(arm.guard, inner);
        lemma_expr_sites_outside(arm.body, inner);
        lemma_all_outside(
            opt_sites(arm.guard, inner),
            expr_sites(arm.body, inner),
            inner,
            inner,
        );
        lemma_all_outside(Seq::empty(), arm_sites(arm, locals), locals, inner);
        assert(Seq::<SiteView>::empty() + arm_sites(arm, locals) =~= arm_sites(arm, locals));
        lemma_arms_sites_outside(arms, from + 1, locals);
        lemma_all_outside(
            arm_sites(arm, locals),
            arms_sites(arms, from + 1, locals),
            locals,
            locals,
        );
    }
}

} // verus!
