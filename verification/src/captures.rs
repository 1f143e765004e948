//! Sharing of captured variables between blocks.
//!
//! The captures that must be arbitrated are gathered in one cell, a tuple of
//! exclusive references, in ascending order of their paths. In every block,
//! each reference to such a capture, or to something below it, is redirected
//! to the block's hold on the cell: the part of the reference that names the
//! arbitrated path becomes `(*hold.index)`, and the field accesses below it
//! stay.

use crate::arbitrate::{
    all_apart, arbitrate, captures_view, is_arbitrated, occurrences_view, strictly_sorted,
    Occurrence, OccurrenceView,
};
use crate::path::{duplicate_member, Capture, CaptureView};
use crate::scope::{
    lemma_bind_all_append, lemma_bind_all_names, lemma_enter_leave, pat_names, pats_names, Locals,
};
use crate::sites::{
    arm_sites, arms_sites, block_sites, callee_sites, capture_of, cond_names, cond_sites,
    expr_sites, exprs_sites, find_capture, find_captures, opt_box_sites, opt_sites, sites_view,
    stmt_names, stmt_sites, stmts_sites, with_names, SiteView,
};
use crate::syntax::{
    Arm, ArmView, Block, BlockView, Expr, ExprView, Form, FormView, Member, MemberView,
    Name, Pat, PatView, Stmt, StmtView,
};
use vstd::prelude::*;

verus! {

/// The expression that stands for the capture with index `index` of the cell
/// that a block holds under the name `hold`: `(*hold.index)`.
pub open spec fn held_place(hold: Name, index: nat) -> ExprView {
    ExprView::Form {
        form: FormView::Paren,
        parts: seq![
            ExprView::Form {
                form: FormView::Deref,
                parts: seq![
                    ExprView::Field {
                        base: Box::new(ExprView::Name(hold)),
                        member: MemberView::Unnamed(index),
                    },
                ],
            },
        ],
    }
}

/// The least index from `from` on at which `set` holds `path` or an ancestor
/// of it.
pub open spec fn covering(set: Seq<CaptureView>, path: CaptureView, from: nat) -> Option<nat>
    decreases set.len() - from,
{
    if from >= set.len() {
        None
    } else if set[from as int].covers(path) {
        Some(from)
    } else {
        covering(set, path, from + 1)
    }
}

/// One index for each capture: among paths of which none is an ancestor of
/// another, the one that holds a given path or an ancestor of it is the only
/// one that does, and its position is the index that references to the path
/// are redirected to.
pub proof fn lemma_covering_unique(set: Seq<CaptureView>, path: CaptureView, index: int)
    requires
        all_apart(set),
        0 <= index < set.len(),
        set[index].covers(path),
    ensures
        covering(set, path, 0) == Some(index as nat),
        forall|other: int| 0 <= other < set.len() && set[other].covers(path) ==> other == index,
{
    assert forall|other: int| 0 <= other < set.len() && set[other].covers(path) implies other
        == index by {
        if other != index {
            // two ancestors of one path lie on one chain
            if set[other].members.len() <= set[index].members.len() {
                assert(set[other].covers(set[index]));
            } else {
                assert(set[index].covers(set[other]));
            }
        }
    }
    lemma_covering_first(set, path, index, 0);
}

/// The search for the path that holds `path` finds the only one that does.
proof fn lemma_covering_first(set: Seq<CaptureView>, path: CaptureView, index: int, from: nat)
    requires
        from <= index < set.len(),
        set[index].covers(path),
        forall|other: int| 0 <= other < set.len() && set[other].covers(path) ==> other == index,
    ensures
        covering(set, path, from) == Some(index as nat),
    decreases index - from,
{
    if from < index {
        lemma_covering_first(set, path, index, from + 1);
    }
}

/// `expr` with the base that lies `depth` field accesses down replaced by
/// `place`.
pub open spec fn rebased(expr: ExprView, depth: nat, place: ExprView) -> ExprView
    decreases expr,
{
    if depth == 0 {
        place
    } else {
        match expr {
            ExprView::Field { base, member } => ExprView::Field {
                base: Box::new(rebased(*base, (depth - 1) as nat, place)),
                member,
            },
            _ => expr,
        }
    }
}

/// A reference to `path`, redirected to the cell where `set` holds the path
/// or an ancestor of it, and unchanged where it does not.
pub open spec fn place_redirected(
    expr: ExprView,
    path: CaptureView,
    set: Seq<CaptureView>,
    hold: Name,
) -> ExprView {
    match covering(set, path, 0) {
        Some(index) => rebased(
            expr,
            (path.members.len() - set[index as int].members.len()) as nat,
            held_place(hold, index),
        ),
        None => expr,
    }
}

/// An expression with its references to the captures of `set` redirected.
pub open spec fn expr_redirected(
    expr: ExprView,
    locals: Set<Name>,
    set: Seq<CaptureView>,
    hold: Name,
) -> ExprView
    decreases expr, 0nat,
{
    match expr {
        ExprView::Name(name) => match capture_of(expr, locals) {
            Some(path) => place_redirected(expr, path, set, hold),
            None => expr,
        },
        ExprView::Verbatim(text) => expr,
        ExprView::Field { base, member } => match capture_of(expr, locals) {
            Some(path) => place_redirected(expr, path, set, hold),
            None => ExprView::Field {
                base: Box::new(expr_redirected(*base, locals, set, hold)),
                member,
            },
        },
        ExprView::Reference { mutable, expr: target } => match capture_of(*target, locals) {
            Some(path) => ExprView::Reference {
                mutable,
                expr: Box::new(place_redirected(*target, path, set, hold)),
            },
            None => ExprView::Reference {
                mutable,
                expr: Box::new(expr_redirected(*target, locals, set, hold)),
            },
        },
        ExprView::Call { func, args } => ExprView::Call {
            func: Box::new(callee_redirected(*func, locals, set, hold)),
            args: exprs_redirected(args, 0, locals, set, hold),
        },
        ExprView::Form { form, parts } => ExprView::Form {
            form,
            parts: exprs_redirected(parts, 0, locals, set, hold),
        },
        ExprView::Let { pat, expr: scrutinee } => ExprView::Let {
            pat,
            expr: Box::new(expr_redirected(*scrutinee, locals, set, hold)),
        },
        ExprView::If { cond, then_branch, else_branch } => ExprView::If {
            cond: Box::new(cond_redirected(*cond, locals, set, hold)),
            then_branch: block_redirected(
                then_branch,
                with_names(locals, cond_names(*cond)),
                set,
                hold,
            ),
            else_branch: opt_box_redirected(else_branch, locals, set, hold),
        },
        ExprView::While { label, cond, body } => ExprView::While {
            label,
            cond: Box::new(cond_redirected(*cond, locals, set, hold)),
            body: block_redirected(body, with_names(locals, cond_names(*cond)), set, hold),
        },
        ExprView::ForLoop { label, pat, expr: iter, body } => ExprView::ForLoop {
            label,
            pat,
            expr: Box::new(expr_redirected(*iter, locals, set, hold)),
            body: block_redirected(body, with_names(locals, pat_names(pat)), set, hold),
        },
        ExprView::Loop { label, body } => ExprView::Loop {
            label,
            body: block_redirected(body, locals, set, hold),
        },
        ExprView::Block { label, block } => ExprView::Block {
            label,
            block: block_redirected(block, locals, set, hold),
        },
        ExprView::Match { expr: scrutinee, arms } => ExprView::Match {
            expr: Box::new(expr_redirected(*scrutinee, locals, set, hold)),
            arms: arms_redirected(arms, 0, locals, set, hold),
        },
        ExprView::Closure { prefix, inputs, output, expr: body } => ExprView::Closure {
            prefix,
            inputs,
            output,
            expr: Box::new(
                expr_redirected(
                    *body,
                    with_names(locals, pats_names(inputs, inputs.len())),
                    set,
                    hold,
                ),
            ),
        },
        ExprView::Async { capture, block } => ExprView::Async {
            capture,
            block: block_redirected(block, locals, set, hold),
        },
        ExprView::TryBlock { block } => ExprView::TryBlock {
            block: block_redirected(block, locals, set, hold),
        },
        ExprView::Await { base } => ExprView::Await {
            base: Box::new(expr_redirected(*base, locals, set, hold)),
        },
        ExprView::Try { expr: inner } => ExprView::Try {
            expr: Box::new(expr_redirected(*inner, locals, set, hold)),
        },
        ExprView::Break { label, value } => ExprView::Break {
            label,
            value: opt_box_redirected(value, locals, set, hold),
        },
        ExprView::Continue { label } => expr,
        ExprView::Return { value } => ExprView::Return {
            value: opt_box_redirected(value, locals, set, hold),
        },
    }
}

/// The callee of a call, redirected: a plain name there is left alone.
pub open spec fn callee_redirected(
    func: ExprView,
    locals: Set<Name>,
    set: Seq<CaptureView>,
    hold: Name,
) -> ExprView
    decreases func, 1nat,
{
    match func {
        ExprView::Name(name) => func,
        _ => expr_redirected(func, locals, set, hold),
    }
}

/// A condition, redirected.
pub open spec fn cond_redirected(
    cond: ExprView,
    locals: Set<Name>,
    set: Seq<CaptureView>,
    hold: Name,
) -> ExprView
    decreases cond, 1nat,
{
    expr_redirected(cond, locals, set, hold)
}

/// An optional expression, redirected.
pub open spec fn opt_box_redirected(
    expr: Option<Box<ExprView>>,
    locals: Set<Name>,
    set: Seq<CaptureView>,
    hold: Name,
) -> Option<Box<ExprView>>
    decreases expr, 0nat,
{
    match expr {
        Some(inner) => Some(Box::new(expr_redirected(*inner, locals, set, hold))),
        None => None,
    }
}

/// An optional expression, redirected.
pub open spec fn opt_redirected(
    expr: Option<ExprView>,
    locals: Set<Name>,
    set: Seq<CaptureView>,
    hold: Name,
) -> Option<ExprView>
    decreases expr, 0nat,
{
    match expr {
        Some(inner) => Some(expr_redirected(inner, locals, set, hold)),
        None => None,
    }
}

/// The expressions from index `from` on, redirected.
pub open spec fn exprs_redirected(
    exprs: Seq<ExprView>,
    from: nat,
    locals: Set<Name>,
    set: Seq<CaptureView>,
    hold: Name,
) -> Seq<ExprView>
    decreases exprs, exprs.len() - from,
{
    if from >= exprs.len() {
        Seq::empty()
    } else {
        seq![expr_redirected(exprs[from as int], locals, set, hold)] + exprs_redirected(
            exprs,
            from + 1,
            locals,
            set,
            hold,
        )
    }
}

/// A block, redirected.
pub open spec fn block_redirected(
    block: BlockView,
    locals: Set<Name>,
    set: Seq<CaptureView>,
    hold: Name,
) -> BlockView
    decreases block, 0nat,
{
    BlockView { stmts: stmts_redirected(block.stmts, 0, locals, set, hold) }
}

/// A statement, redirected.
pub open spec fn stmt_redirected(
    stmt: StmtView,
    locals: Set<Name>,
    set: Seq<CaptureView>,
    hold: Name,
) -> StmtView
    decreases stmt, 0nat,
{
    match stmt {
        StmtView::Local { attrs, pat, init, diverge } => StmtView::Local {
            attrs,
            pat,
            init: opt_redirected(init, locals, set, hold),
            diverge: opt_redirected(diverge, locals, set, hold),
        },
        StmtView::Item(text) => stmt,
        StmtView::Expr { expr, semi } => StmtView::Expr {
            expr: expr_redirected(expr, locals, set, hold),
            semi,
        },
    }
}

/// The statements from index `from` on, redirected, where `locals` are the
/// local names before that statement.
pub open spec fn stmts_redirected(
    stmts: Seq<StmtView>,
    from: nat,
    locals: Set<Name>,
    set: Seq<CaptureView>,
    hold: Name,
) -> Seq<StmtView>
    decreases stmts, stmts.len() - from,
{
    if from >= stmts.len() {
        Seq::empty()
    } else {
        seq![stmt_redirected(stmts[from as int], locals, set, hold)] + stmts_redirected(
            stmts,
            from + 1,
            with_names(locals, stmt_names(stmts[from as int])),
            set,
            hold,
        )
    }
}

/// A match arm, redirected.
pub open spec fn arm_redirected(
    arm: ArmView,
    locals: Set<Name>,
    set: Seq<CaptureView>,
    hold: Name,
) -> ArmView
    decreases arm, 0nat,
{
    ArmView {
        attrs: arm.attrs,
        pat: arm.pat,
        guard: opt_redirected(arm.guard, with_names(locals, pat_names(arm.pat)), set, hold),
        body: expr_redirected(arm.body, with_names(locals, pat_names(arm.pat)), set, hold),
    }
}

/// The match arms from index `from` on, redirected.
pub open spec fn arms_redirected(
    arms: Seq<ArmView>,
    from: nat,
    locals: Set<Name>,
    set: Seq<CaptureView>,
    hold: Name,
) -> Seq<ArmView>
    decreases arms, arms.len() - from,
{
    if from >= arms.len() {
        Seq::empty()
    } else {
        seq![arm_redirected(arms[from as int], locals, set, hold)] + arms_redirected(
            arms,
            from + 1,
            locals,
            set,
            hold,
        )
    }
}

/// Builds `(*hold.index)`.
fn make_held_place(hold: &String, index: usize) -> (place: Expr)
    ensures
        place@ == held_place(hold@, index as nat),
{
    let name = Expr::Name(hold.clone());
    assert(name@ == ExprView::Name(hold@));
    let field = Expr::Field { base: Box::new(name), member: Member::Unnamed(index) };
    let ghost field_view = field@;
    assert(field_view == ExprView::Field {
        base: Box::new(ExprView::Name(hold@)),
        member: MemberView::Unnamed(index as nat),
    });
    let mut inner: Vec<Expr> = Vec::new();
    inner.push(field);
    assert(crate::syntax::exprs_view(inner) =~= seq![field_view]);
    let deref = Expr::Form { form: Form::Deref, parts: inner };
    let ghost deref_view = deref@;
    assert(deref_view == ExprView::Form { form: FormView::Deref, parts: seq![field_view] });
    let mut outer: Vec<Expr> = Vec::new();
    outer.push(deref);
    assert(crate::syntax::exprs_view(outer) =~= seq![deref_view]);
    let place = Expr::Form { form: Form::Paren, parts: outer };
    assert(place@ == ExprView::Form { form: FormView::Paren, parts: seq![deref_view] });
    place
}

/// The index at which `set` holds `path` or an ancestor of it.
fn find_covering(set: &Vec<Capture>, path: &Capture) -> (found: Option<usize>)
    ensures
        match found {
            Some(index) => covering(captures_view(*set), path@, 0) == Some(index as nat)
                && index < set.len() && set[index as int]@.covers(path@),
            None => covering(captures_view(*set), path@, 0) is None,
        },
{
    let ghost paths = captures_view(*set);
    let mut i: usize = 0;
    while i < set.len()
        invariant
            i <= set.len(),
            paths == captures_view(*set),
            covering(paths, path@, 0) == covering(paths, path@, i as nat),
        decreases set.len() - i,
    {
        if set[i].covers(path) {
            return Some(i);
        }
        i += 1;
    }
    None
}

/// `expr` with the base that lies `depth` field accesses down replaced by
/// `place`.
fn rebase(expr: Expr, depth: usize, place: Expr) -> (out: Expr)
    ensures
        out@ == rebased(expr@, depth as nat, place@),
    decreases expr,
{
    if depth == 0 {
        place
    } else {
        match expr {
            Expr::Field { base, member } => Expr::Field {
                base: Box::new(rebase(*base, depth - 1, place)),
                member,
            },
            other => other,
        }
    }
}

/// Redirects a reference to `path` to the cell, where `set` holds the path or
/// an ancestor of it.
fn redirect_place(expr: Expr, path: &Capture, set: &Vec<Capture>, hold: &String) -> (out: Expr)
    ensures
        out@ == place_redirected(expr@, path@, captures_view(*set), hold@),
{
    match find_covering(set, path) {
        Some(index) => {
            let depth = path.members.len() - set[index].members.len();
            rebase(expr, depth, make_held_place(hold, index))
        },
        None => expr,
    }
}

/// Redirects the references in `expr` to captures of `set`. `locals` holds
/// the names that are local where `expr` stands, and is left as it was.
pub fn redirect_expr(
    expr: Expr,
    locals: &mut Locals,
    set: &Vec<Capture>,
    hold: &String,
) -> (out: Expr)
    ensures
        final(locals)@ == old(locals)@,
        out@ == expr_redirected(expr@, old(locals)@.names(), captures_view(*set), hold@),
    decreases expr, 0nat,
{
    let ghost names = locals@.names();
    let ghost paths = captures_view(*set);
    let ghost view = expr@;
    match expr {
        Expr::Name(name) => {
            let whole = Expr::Name(name);
            match find_capture(&whole, locals) {
                Some(path) => redirect_place(whole, &path, set, hold),
                None => whole,
            }
        },
        Expr::Verbatim(text) => Expr::Verbatim(text),
        Expr::Field { base, member } => {
            let whole = Expr::Field { base, member };
            match find_capture(&whole, locals) {
                Some(path) => redirect_place(whole, &path, set, hold),
                None => match whole {
                    Expr::Field { base, member } => {
                        let out = Expr::Field {
                            base: Box::new(redirect_expr(*base, locals, set, hold)),
                            member,
                        };
                        assert(out@ == expr_redirected(view, names, paths, hold@));
                        out
                    },
                    other => other,
                },
            }
        },
        Expr::Reference { mutable, expr: target } => {
            let out = match find_capture(&target, locals) {
                Some(path) => Expr::Reference {
                    mutable,
                    expr: Box::new(redirect_place(*target, &path, set, hold)),
                },
                None => Expr::Reference {
                    mutable,
                    expr: Box::new(redirect_expr(*target, locals, set, hold)),
                },
            };
            assert(out@ == expr_redirected(view, names, paths, hold@));
            out
        },
        Expr::Call { func, args } => {
            let func = match *func {
                Expr::Name(name) => Expr::Name(name),
                other => redirect_expr(other, locals, set, hold),
            };
            assert(func@ == callee_redirected(*(view->Call_func), names, paths, hold@));
            let args = redirect_exprs(args, locals, set, hold);
            let out = Expr::Call { func: Box::new(func), args };
            assert(out@ == expr_redirected(view, names, paths, hold@));
            out
        },
        Expr::Form { form, parts } => {
            let parts = redirect_exprs(parts, locals, set, hold);
            let out = Expr::Form { form, parts };
            assert(out@ == expr_redirected(view, names, paths, hold@));
            out
        },
        Expr::Let { pat, expr: scrutinee } => {
            let out = Expr::Let {
                pat,
                expr: Box::new(redirect_expr(*scrutinee, locals, set, hold)),
            };
            assert(out@ == expr_redirected(view, names, paths, hold@));
            out
        },
        Expr::If { cond, then_branch, else_branch } => {
            let ghost cond_view = cond@;
            let (cond, then_branch) = match *cond {
                Expr::Let { pat, expr: scrutinee } => {
                    let scrutinee = redirect_expr(*scrutinee, locals, set, hold);
                    proof {
                        lemma_enter_leave(locals@, pat_names(pat@));
                        lemma_bind_all_names(locals@.enter(), pat_names(pat@));
                    }
                    locals.enter_scope();
                    locals.bind_pattern(&pat);
                    let then_branch = redirect_block(then_branch, locals, set, hold);
                    locals.leave_scope();
                    (Expr::Let { pat, expr: Box::new(scrutinee) }, then_branch)
                },
                other => {
                    let cond = redirect_expr(other, locals, set, hold);
                    assert(!(cond_view is Let));
                    assert(with_names(names, cond_names(cond_view)) =~= names);
                    let then_branch = redirect_block(then_branch, locals, set, hold);
                    (cond, then_branch)
                },
            };
            assert(cond@ == cond_redirected(cond_view, names, paths, hold@));
            let else_branch = redirect_opt_box(else_branch, locals, set, hold);
            let out = Expr::If { cond: Box::new(cond), then_branch, else_branch };
            assert(out@ == expr_redirected(view, names, paths, hold@));
            out
        },
        Expr::While { label, cond, body } => {
            let ghost cond_view = cond@;
            let (cond, body) = match *cond {
                Expr::Let { pat, expr: scrutinee } => {
                    let scrutinee = redirect_expr(*scrutinee, locals, set, hold);
                    proof {
                        lemma_enter_leave(locals@, pat_names(pat@));
                        lemma_bind_all_names(locals@.enter(), pat_names(pat@));
                    }
                    locals.enter_scope();
                    locals.bind_pattern(&pat);
                    let body = redirect_block(body, locals, set, hold);
                    locals.leave_scope();
                    (Expr::Let { pat, expr: Box::new(scrutinee) }, body)
                },
                other => {
                    let cond = redirect_expr(other, locals, set, hold);
                    assert(!(cond_view is Let));
                    assert(with_names(names, cond_names(cond_view)) =~= names);
                    let body = redirect_block(body, locals, set, hold);
                    (cond, body)
                },
            };
            assert(cond@ == cond_redirected(cond_view, names, paths, hold@));
            let out = Expr::While { label, cond: Box::new(cond), body };
            assert(out@ == expr_redirected(view, names, paths, hold@));
            out
        },
        Expr::ForLoop { label, pat, expr: iter, body } => {
            let iter = redirect_expr(*iter, locals, set, hold);
            proof {
                lemma_enter_leave(locals@, pat_names(pat@));
                lemma_bind_all_names(locals@.enter(), pat_names(pat@));
            }
            locals.enter_scope();
            locals.bind_pattern(&pat);
            let body = redirect_block(body, locals, set, hold);
            locals.leave_scope();
            let out = Expr::ForLoop { label, pat, expr: Box::new(iter), body };
            assert(out@ == expr_redirected(view, names, paths, hold@));
            out
        },
        Expr::Loop { label, body } => {
            let out = Expr::Loop { label, body: redirect_block(body, locals, set, hold) };
            assert(out@ == expr_redirected(view, names, paths, hold@));
            out
        },
        Expr::Block { label, block } => {
            let out = Expr::Block { label, block: redirect_block(block, locals, set, hold) };
            assert(out@ == expr_redirected(view, names, paths, hold@));
            out
        },
        Expr::Match { expr: scrutinee, arms } => {
            let scrutinee = redirect_expr(*scrutinee, locals, set, hold);
            let arms = redirect_arms(arms, locals, set, hold);
            let out = Expr::Match { expr: Box::new(scrutinee), arms };
            assert(out@ == expr_redirected(view, names, paths, hold@));
            out
        },
        Expr::Closure { prefix, inputs, output, expr: body } => {
            proof {
                let bound = pats_names(crate::syntax::pats_view(inputs), inputs.len() as nat);
                lemma_enter_leave(locals@, bound);
                lemma_bind_all_names(locals@.enter(), bound);
            }
            locals.enter_scope();
            locals.bind_patterns(&inputs);
            let body = redirect_expr(*body, locals, set, hold);
            locals.leave_scope();
            let out = Expr::Closure { prefix, inputs, output, expr: Box::new(body) };
            assert(out@ == expr_redirected(view, names, paths, hold@));
            out
        },
        Expr::Async { capture, block } => {
            let out = Expr::Async { capture, block: redirect_block(block, locals, set, hold) };
            assert(out@ == expr_redirected(view, names, paths, hold@));
            out
        },
        Expr::TryBlock { block } => {
            let out = Expr::TryBlock { block: redirect_block(block, locals, set, hold) };
            assert(out@ == expr_redirected(view, names, paths, hold@));
            out
        },
        Expr::Await { base } => {
            let out = Expr::Await { base: Box::new(redirect_expr(*base, locals, set, hold)) };
            assert(out@ == expr_redirected(view, names, paths, hold@));
            out
        },
        Expr::Try { expr: inner } => {
            let out = Expr::Try { expr: Box::new(redirect_expr(*inner, locals, set, hold)) };
            assert(out@ == expr_redirected(view, names, paths, hold@));
            out
        },
        Expr::Break { label, value } => {
            let out = Expr::Break { label, value: redirect_opt_box(value, locals, set, hold) };
            assert(out@ == expr_redirected(view, names, paths, hold@));
            out
        },
        Expr::Continue { label } => Expr::Continue { label },
        Expr::Return { value } => {
            let out = Expr::Return { value: redirect_opt_box(value, locals, set, hold) };
            assert(out@ == expr_redirected(view, names, paths, hold@));
            out
        },
    }
}

/// Redirects the references in an optional expression.
fn redirect_opt_box(
    expr: Option<Box<Expr>>,
    locals: &mut Locals,
    set: &Vec<Capture>,
    hold: &String,
) -> (out: Option<Box<Expr>>)
    ensures
        final(locals)@ == old(locals)@,
        crate::syntax::opt_box_view(out) == opt_box_redirected(
            crate::syntax::opt_box_view(expr),
            old(locals)@.names(),
            captures_view(*set),
            hold@,
        ),
    decreases expr, 0nat,
{
    match expr {
        Some(inner) => Some(Box::new(redirect_expr(*inner, locals, set, hold))),
        None => None,
    }
}

/// Redirects the references in an optional expression.
fn redirect_opt(
    expr: Option<Expr>,
    locals: &mut Locals,
    set: &Vec<Capture>,
    hold: &String,
) -> (out: Option<Expr>)
    ensures
        final(locals)@ == old(locals)@,
        crate::syntax::opt_view(out) == opt_redirected(
            crate::syntax::opt_view(expr),
            old(locals)@.names(),
            captures_view(*set),
            hold@,
        ),
    decreases expr, 0nat,
{
    match expr {
        Some(inner) => Some(redirect_expr(inner, locals, set, hold)),
        None => None,
    }
}

/// Redirects the references in each of `exprs`.
fn redirect_exprs(
    exprs: Vec<Expr>,
    locals: &mut Locals,
    set: &Vec<Capture>,
    hold: &String,
) -> (out: Vec<Expr>)
    ensures
        final(locals)@ == old(locals)@,
        crate::syntax::exprs_view(out) == exprs_redirected(
            crate::syntax::exprs_view(exprs),
            0,
            old(locals)@.names(),
            captures_view(*set),
            hold@,
        ),
    decreases exprs, 0nat,
{
    let ghost names = locals@.names();
    let ghost paths = captures_view(*set);
    let ghost views = crate::syntax::exprs_view(exprs);
    let mut out: Vec<Expr> = Vec::new();
    assert(crate::syntax::exprs_view(out) + exprs_redirected(views, 0, names, paths, hold@)
        =~= exprs_redirected(views, 0, names, paths, hold@));
    for item in it: exprs
        invariant
            it.seq() == exprs@,
            views == crate::syntax::exprs_view(exprs),
            locals@ == old(locals)@,
            names == locals@.names(),
            paths == captures_view(*set),
            crate::syntax::exprs_view(out) + exprs_redirected(
                views,
                it.index() as nat,
                names,
                paths,
                hold@,
            ) == exprs_redirected(views, 0, names, paths, hold@),
    {
        let ghost before = crate::syntax::exprs_view(out);
        let ghost at = it.index() as nat;
        assert(item@ == views[at as int]);
        let item = redirect_expr(item, locals, set, hold);
        out.push(item);
        assert(crate::syntax::exprs_view(out) + exprs_redirected(
            views,
            at + 1,
            names,
            paths,
            hold@,
        ) =~= before + exprs_redirected(views, at, names, paths, hold@));
    }
    assert(crate::syntax::exprs_view(out) =~= crate::syntax::exprs_view(out)
        + exprs_redirected(views, exprs.len() as nat, names, paths, hold@));
    out
}

/// One more statement redirected, and the rest still to do.
proof fn lemma_stmts_step(
    done: Seq<StmtView>,
    stmts: Seq<StmtView>,
    at: nat,
    locals: Set<Name>,
    set: Seq<CaptureView>,
    hold: Name,
)
    requires
        at < stmts.len(),
    ensures
        done.push(stmt_redirected(stmts[at as int], locals, set, hold)) + stmts_redirected(
            stmts,
            at + 1,
            with_names(locals, stmt_names(stmts[at as int])),
            set,
            hold,
        ) == done + stmts_redirected(stmts, at, locals, set, hold),
{
    assert(done.push(stmt_redirected(stmts[at as int], locals, set, hold)) + stmts_redirected(
        stmts,
        at + 1,
        with_names(locals, stmt_names(stmts[at as int])),
        set,
        hold,
    ) =~= done + stmts_redirected(stmts, at, locals, set, hold));
}

/// One more statement of a block redirected: what it binds is local for the
/// rest.
proof fn lemma_block_step(
    entered: crate::scope::LocalsView,
    bound: Seq<Name>,
    done: Seq<StmtView>,
    stmts: Seq<StmtView>,
    at: nat,
    set: Seq<CaptureView>,
    hold: Name,
)
    requires
        at < stmts.len(),
    ensures
        entered.bind_all(bound).bind_all(stmt_names(stmts[at as int])) == entered.bind_all(
            bound + stmt_names(stmts[at as int]),
        ),
        done.push(
            stmt_redirected(stmts[at as int], entered.bind_all(bound).names(), set, hold),
        ) + stmts_redirected(
            stmts,
            at + 1,
            entered.bind_all(bound + stmt_names(stmts[at as int])).names(),
            set,
            hold,
        ) == done + stmts_redirected(stmts, at, entered.bind_all(bound).names(), set, hold),
{
    let names = stmt_names(stmts[at as int]);
    lemma_bind_all_append(entered, bound, names);
    lemma_bind_all_names(entered.bind_all(bound), names);
    lemma_stmts_step(done, stmts, at, entered.bind_all(bound).names(), set, hold);
}

/// Redirects the references in a block.
pub fn redirect_block(
    block: Block,
    locals: &mut Locals,
    set: &Vec<Capture>,
    hold: &String,
) -> (out: Block)
    ensures
        final(locals)@ == old(locals)@,
        out@ == block_redirected(block@, old(locals)@.names(), captures_view(*set), hold@),
    decreases block, 0nat,
{
    let ghost outside = locals@;
    let ghost paths = captures_view(*set);
    let ghost views = block@.stmts;
    proof {
        lemma_enter_leave(outside, Seq::empty());
        lemma_bind_all_append(outside.enter(), Seq::empty(), Seq::empty());
    }
    locals.enter_scope();
    let ghost mut bound: Seq<Name> = Seq::empty();
    let mut out: Vec<Stmt> = Vec::new();
    let ghost whole = block;
    let stmts = block.stmts;
    assert(crate::syntax::stmts_view(out) + stmts_redirected(
        views,
        0,
        locals@.names(),
        paths,
        hold@,
    ) =~= stmts_redirected(views, 0, outside.names(), paths, hold@));
    for stmt in it: stmts
        invariant
            it.seq() == stmts@,
            whole == block,
            stmts == whole.stmts,
            views == crate::syntax::stmts_view(stmts),
            paths == captures_view(*set),
            locals@ == outside.enter().bind_all(bound),
            crate::syntax::stmts_view(out) + stmts_redirected(
                views,
                it.index() as nat,
                locals@.names(),
                paths,
                hold@,
            ) == stmts_redirected(views, 0, outside.names(), paths, hold@),
    {
        let ghost before = crate::syntax::stmts_view(out);
        let ghost inside = locals@;
        let ghost at = it.index() as nat;
        assert(stmt@ == views[at as int]);
        let stmt = redirect_stmt(stmt, locals, set, hold);
        let ghost stmt_view = stmt@;
        out.push(stmt);
        assert(crate::syntax::stmts_view(out) =~= before.push(stmt_view));
        proof {
            let names = stmt_names(views[at as int]);
            lemma_block_step(outside.enter(), bound, before, views, at, paths, hold@);
            bound = bound + names;
        }
    }
    proof {
        lemma_enter_leave(outside, bound);
        assert(crate::syntax::stmts_view(out) =~= crate::syntax::stmts_view(out)
            + stmts_redirected(views, stmts.len() as nat, locals@.names(), paths, hold@));
    }
    locals.leave_scope();
    Block { stmts: out }
}

/// Redirects the references in a statement, and makes local what it binds.
fn redirect_stmt(stmt: Stmt, locals: &mut Locals, set: &Vec<Capture>, hold: &String) -> (out: Stmt)
    ensures
        final(locals)@ == old(locals)@.bind_all(stmt_names(stmt@)),
        out@ == stmt_redirected(stmt@, old(locals)@.names(), captures_view(*set), hold@),
    decreases stmt, 0nat,
{
    match stmt {
        Stmt::Local { attrs, pat, init, diverge } => {
            let init = redirect_opt(init, locals, set, hold);
            let diverge = redirect_opt(diverge, locals, set, hold);
            locals.bind_pattern(&pat);
            Stmt::Local { attrs, pat, init, diverge }
        },
        Stmt::Item(text) => {
            proof {
                lemma_bind_all_append(locals@, Seq::empty(), Seq::empty());
            }
            Stmt::Item(text)
        },
        Stmt::Expr { expr, semi } => {
            let expr = redirect_expr(expr, locals, set, hold);
            proof {
                lemma_bind_all_append(locals@, Seq::empty(), Seq::empty());
            }
            Stmt::Expr { expr, semi }
        },
    }
}

/// Redirects the references in a match arm.
fn redirect_arm(arm: Arm, locals: &mut Locals, set: &Vec<Capture>, hold: &String) -> (out: Arm)
    ensures
        final(locals)@ == old(locals)@,
        out@ == arm_redirected(arm@, old(locals)@.names(), captures_view(*set), hold@),
    decreases arm, 0nat,
{
    proof {
        lemma_enter_leave(locals@, pat_names(arm.pat@));
        lemma_bind_all_names(locals@.enter(), pat_names(arm.pat@));
    }
    let Arm { attrs, pat, guard, body } = arm;
    locals.enter_scope();
    locals.bind_pattern(&pat);
    let guard = redirect_opt(guard, locals, set, hold);
    let body = redirect_expr(body, locals, set, hold);
    locals.leave_scope();
    Arm { attrs, pat, guard, body }
}

/// Redirects the references in each of `arms`.
fn redirect_arms(
    arms: Vec<Arm>,
    locals: &mut Locals,
    set: &Vec<Capture>,
    hold: &String,
) -> (out: Vec<Arm>)
    ensures
        final(locals)@ == old(locals)@,
        crate::syntax::arms_view(out) == arms_redirected(
            crate::syntax::arms_view(arms),
            0,
            old(locals)@.names(),
            captures_view(*set),
            hold@,
        ),
    decreases arms, 0nat,
{
    let ghost names = locals@.names();
    let ghost paths = captures_view(*set);
    let ghost views = crate::syntax::arms_view(arms);
    let mut out: Vec<Arm> = Vec::new();
    assert(crate::syntax::arms_view(out) + arms_redirected(views, 0, names, paths, hold@)
        =~= arms_redirected(views, 0, names, paths, hold@));
    for item in it: arms
        invariant
            it.seq() == arms@,
            views == crate::syntax::arms_view(arms),
            locals@ == old(locals)@,
            names == locals@.names(),
            paths == captures_view(*set),
            crate::syntax::arms_view(out) + arms_redirected(
                views,
                it.index() as nat,
                names,
                paths,
                hold@,
            ) == arms_redirected(views, 0, names, paths, hold@),
    {
        let ghost before = crate::syntax::arms_view(out);
        let ghost at = it.index() as nat;
        assert(item@ == views[at as int]);
        let item = redirect_arm(item, locals, set, hold);
        out.push(item);
        assert(crate::syntax::arms_view(out) + arms_redirected(views, at + 1, names, paths, hold@)
            =~= before + arms_redirected(views, at, names, paths, hold@));
    }
    assert(crate::syntax::arms_view(out) =~= crate::syntax::arms_view(out) + arms_redirected(
        views,
        arms.len() as nat,
        names,
        paths,
        hold@,
    ));
    out
}

/// The cell of the arbitrated captures.
#[derive(Debug, PartialEq, Eq)]
pub struct Borrows {
    /// The arbitrated captures, in ascending order: the position of a capture
    /// is its index in the cell.
    pub captures: Vec<Capture>,
    /// The statement that creates the cell, to stand before the blocks.
    pub cell: Stmt,
}

/// The sites of a block as occurrences in the block with position `block`.
pub open spec fn tagged(sites: Seq<SiteView>, block: nat) -> Seq<OccurrenceView> {
    Seq::new(
        sites.len(),
        |i: int|
            OccurrenceView { capture: sites[i].capture, immutable: sites[i].immutable, block },
    )
}

/// The occurrences of the first `count` blocks, block by block.
pub open spec fn occurrences(blocks: Seq<BlockView>, count: nat) -> Seq<OccurrenceView>
    decreases count,
{
    if count == 0 || count > blocks.len() {
        Seq::empty()
    } else {
        occurrences(blocks, (count - 1) as nat) + tagged(
            block_sites(blocks[count - 1], Set::empty()),
            (count - 1) as nat,
        )
    }
}

/// The expression that names the first `steps` steps of `path`.
pub open spec fn capture_place(path: CaptureView, steps: nat) -> ExprView
    decreases steps,
{
    if steps == 0 || steps > path.members.len() {
        ExprView::Name(path.root)
    } else {
        ExprView::Field {
            base: Box::new(capture_place(path, (steps - 1) as nat)),
            member: path.members[steps - 1],
        }
    }
}

/// An exclusive borrow of each of the captures, in order.
pub open spec fn cell_parts(set: Seq<CaptureView>) -> Seq<ExprView> {
    Seq::new(
        set.len(),
        |i: int|
            ExprView::Reference {
                mutable: true,
                expr: Box::new(capture_place(set[i], set[i].members.len())),
            },
    )
}

/// The statement that creates the cell:
/// `let cell = ::std::cell::RefCell::new((&mut a, &mut b.c, ..));`.
pub open spec fn cell_stmt(cell: Name, set: Seq<CaptureView>) -> StmtView {
    StmtView::Local {
        attrs: Seq::empty(),
        pat: PatView::Ident { name: cell, by_ref: false, mutable: false, subpat: None },
        init: Some(
            ExprView::Call {
                func: Box::new(ExprView::Verbatim("::std::cell::RefCell::new"@)),
                args: seq![ExprView::Form { form: FormView::Tuple, parts: cell_parts(set) }],
            },
        ),
        diverge: None,
    }
}

/// The blocks, each with its references to the captures of `set` redirected.
pub open spec fn blocks_redirected(
    blocks: Seq<BlockView>,
    set: Seq<CaptureView>,
    hold: Name,
) -> Seq<BlockView> {
    Seq::new(blocks.len(), |i: int| block_redirected(blocks[i], Set::empty(), set, hold))
}

/// Builds the expression that names the first `steps` steps of `path`.
fn make_capture_place(path: &Capture, steps: usize) -> (place: Expr)
    requires
        steps <= path.members.len(),
    ensures
        place@ == capture_place(path@, steps as nat),
    decreases steps,
{
    if steps == 0 {
        Expr::Name(path.root.clone())
    } else {
        let base = make_capture_place(path, steps - 1);
        Expr::Field { base: Box::new(base), member: duplicate_member(&path.members[steps - 1]) }
    }
}

/// Builds the statement that creates the cell.
fn make_cell(cell: &String, set: &Vec<Capture>) -> (stmt: Stmt)
    ensures
        stmt@ == cell_stmt(cell@, captures_view(*set)),
{
    let ghost paths = captures_view(*set);
    let mut parts: Vec<Expr> = Vec::new();
    let mut i: usize = 0;
    while i < set.len()
        invariant
            i <= set.len(),
            paths == captures_view(*set),
            parts.len() == i,
            forall|j: int| 0 <= j < i ==> (#[trigger] parts[j])@ == cell_parts(paths)[j],
        decreases set.len() - i,
    {
        let place = make_capture_place(&set[i], set[i].members.len());
        let part = Expr::Reference { mutable: true, expr: Box::new(place) };
        assert(part@ == cell_parts(paths)[i as int]);
        parts.push(part);
        i += 1;
    }
    assert(crate::syntax::exprs_view(parts) =~= cell_parts(paths));
    let tuple = Expr::Form { form: Form::Tuple, parts };
    let ghost tuple_view = tuple@;
    assert(tuple_view == ExprView::Form { form: FormView::Tuple, parts: cell_parts(paths) });
    let mut args: Vec<Expr> = Vec::new();
    args.push(tuple);
    assert(crate::syntax::exprs_view(args) =~= seq![tuple_view]);
    let func = Expr::Verbatim(String::from_str("::std::cell::RefCell::new"));
    assert(func@ == ExprView::Verbatim("::std::cell::RefCell::new"@));
    let init = Expr::Call { func: Box::new(func), args };
    assert(init@ == ExprView::Call {
        func: Box::new(ExprView::Verbatim("::std::cell::RefCell::new"@)),
        args: seq![tuple_view],
    });
    let pat = Pat::Ident { name: cell.clone(), by_ref: false, mutable: false, subpat: None };
    assert(pat@ == PatView::Ident { name: cell@, by_ref: false, mutable: false, subpat: None });
    Stmt::Local { attrs: String::new(), pat, init: Some(init), diverge: None }
}

/// The occurrences of all blocks, block by block.
pub fn find_occurrences(blocks: &Vec<Block>) -> (found: Vec<Occurrence>)
    ensures
        occurrences_view(found) == occurrences(
            crate::syntax::blocks_view(*blocks),
            blocks.len() as nat,
        ),
{
    let ghost views = crate::syntax::blocks_view(*blocks);
    let mut found: Vec<Occurrence> = Vec::new();
    let mut i: usize = 0;
    assert(occurrences_view(found) =~= occurrences(views, 0));
    while i < blocks.len()
        invariant
            i <= blocks.len(),
            views == crate::syntax::blocks_view(*blocks),
            occurrences_view(found) == occurrences(views, i as nat),
        decreases blocks.len() - i,
    {
        let sites = find_captures(&blocks[i]);
        let ghost before = occurrences_view(found);
        let ghost fresh = tagged(sites_view(sites), i as nat);
        for site in it: sites
            invariant
                it.seq() == sites@,
                fresh == tagged(sites_view(sites), i as nat),
                occurrences_view(found) == before + fresh.subrange(0, it.index() as int),
        {
            let ghost so_far = occurrences_view(found);
            let ghost at = it.index() as int;
            assert(site@ == sites_view(sites)[at]);
            found.push(Occurrence { capture: site.capture, immutable: site.immutable, block: i });
            assert(occurrences_view(found) =~= so_far.push(fresh[at]));
            assert(so_far.push(fresh[at]) =~= before + fresh.subrange(0, at + 1));
        }
        assert(fresh.subrange(0, sites.len() as int) =~= fresh);
        assert(views[i as int] == blocks[i as int]@);
        i += 1;
    }
    found
}

/// Puts the captures that the blocks share under arbitration.
///
/// Where no capture must be arbitrated, the blocks stay as they are and
/// nothing is returned. Otherwise the arbitrated captures are returned with
/// the statement that gathers them in a cell named `borrows_cell_name`, and in
/// each block every reference to one of them is redirected to
/// `borrows_tuple_name`, the name under which the block holds the cell.
pub fn replace_captures_and_generate_borrows(
    blocks: &mut Vec<Block>,
    borrows_tuple_name: &String,
    borrows_cell_name: &String,
) -> (borrows: Option<Borrows>)
    ensures
        match borrows {
            Some(made) => {
                let set = captures_view(made.captures);
                &&& set.len() > 0
                &&& strictly_sorted(set)
                &&& all_apart(set)
                &&& forall|path: CaptureView|
                    set.contains(path) <==> is_arbitrated(
                        occurrences(
                            crate::syntax::blocks_view(*old(blocks)),
                            old(blocks).len() as nat,
                        ),
                        path,
                    )
                &&& made.cell@ == cell_stmt(borrows_cell_name@, set)
                &&& crate::syntax::blocks_view(*final(blocks)) == blocks_redirected(
                    crate::syntax::blocks_view(*old(blocks)),
                    set,
                    borrows_tuple_name@,
                )
            },
            None => {
                &&& forall|path: CaptureView|
                    !is_arbitrated(
                        occurrences(
                            crate::syntax::blocks_view(*old(blocks)),
                            old(blocks).len() as nat,
                        ),
                        path,
                    )
                &&& *final(blocks) == *old(blocks)
            },
        },
{
    let ghost views = crate::syntax::blocks_view(*blocks);
    let found = find_occurrences(blocks);
    let ghost all = occurrences_view(found);
    let captures = arbitrate(found);
    let ghost set = captures_view(captures);
    if captures.len() == 0 {
        proof {
            assert forall|path: CaptureView| !is_arbitrated(all, path) by {
                if is_arbitrated(all, path) {
                    assert(set.contains(path));
                }
            }
        }
        return None;
    }
    let cell = make_cell(borrows_cell_name, &captures);
    let mut taken: Vec<Block> = Vec::new();
    core::mem::swap(blocks, &mut taken);
    assert(blocks@.len() == 0);
    for block in it: taken
        invariant
            it.seq() == taken@,
            views == crate::syntax::blocks_view(taken),
            set == captures_view(captures),
            blocks.len() == it.index(),
            forall|j: int|
                0 <= j < it.index() ==> (#[trigger] blocks[j])@ == block_redirected(
                    views[j],
                    Set::empty(),
                    set,
                    borrows_tuple_name@,
                ),
    {
        let mut locals = Locals::new();
        assert(locals@.names() =~= Set::empty());
        assert(block@ == views[it.index() as int]);
        let block = redirect_block(block, &mut locals, &captures, borrows_tuple_name);
        blocks.push(block);
    }
    assert(crate::syntax::blocks_view(*blocks) =~= blocks_redirected(
        views,
        set,
        borrows_tuple_name@,
    ));
    Some(Borrows { captures, cell })
}

/// Whether `set` holds none of the paths of the sites, nor an ancestor of
/// one.
pub open spec fn untouched(sites: Seq<SiteView>, set: Seq<CaptureView>) -> bool {
    forall|i: int| 0 <= i < sites.len() ==> covering(set, (#[trigger] sites[i]).capture, 0) is None
}

/// Sites that are untouched together are untouched each for itself.
proof fn lemma_untouched_split(first: Seq<SiteView>, second: Seq<SiteView>, set: Seq<CaptureView>)
    requires
        untouched(first + second, set),
    ensures
        untouched(first, set),
        untouched(second, set),
{
    let both = first + second;
    assert forall|i: int| 0 <= i < first.len() implies covering(
        set,
        (#[trigger] first[i]).capture,
        0,
    ) is None by {
        assert(both[i] == first[i]);
    }
    assert forall|i: int| 0 <= i < second.len() implies covering(
        set,
        (#[trigger] second[i]).capture,
        0,
    ) is None by {
        assert(both[first.len() + i] == second[i]);
    }
}

/// A single site that is untouched.
proof fn lemma_untouched_one(site: SiteView, set: Seq<CaptureView>)
    requires
        untouched(seq![site], set),
    ensures
        covering(set, site.capture, 0) is None,
{
    assert(seq![site][0] == site);
}

/// Only references to shared captures change: an expression none of whose
/// sites refers to a path of `set`, or to something below one, is left as it
/// is.
pub proof fn lemma_expr_unredirected(
    expr: ExprView,
    locals: Set<Name>,
    set: Seq<CaptureView>,
    hold: Name,
)
    requires
        untouched(expr_sites(expr, locals), set),
    ensures
        expr_redirected(expr, locals, set, hold) == expr,
    decreases expr, 0nat,
{
    match expr {
        ExprView::Name(name) => {
            match capture_of(expr, locals) {
                Some(path) => {
                    lemma_untouched_one(SiteView { capture: path, immutable: false }, set);
                },
                None => {},
            }
            assert(expr_redirected(expr, locals, set, hold) == expr);
        },
        ExprView::Verbatim(text) => {},
        ExprView::Field { base, member } => {
            match capture_of(expr, locals) {
                Some(path) => {
                    lemma_untouched_one(SiteView { capture: path, immutable: false }, set);
                },
                None => {
                    lemma_expr_unredirected(*base, locals, set, hold);
                },
            }
            assert(expr_redirected(expr, locals, set, hold) == expr);
        },
        ExprView::Reference { mutable, expr: target } => {
            match capture_of(*target, locals) {
                Some(path) => {
                    lemma_untouched_one(SiteView { capture: path, immutable: !mutable }, set);
                },
                None => {
                    lemma_expr_unredirected(*target, locals, set, hold);
                },
            }
            assert(expr_redirected(expr, locals, set, hold) == expr);
        },
        ExprView::Call { func, args } => {
            lemma_untouched_split(callee_sites(*func, locals), exprs_sites(args, 0, locals), set);
            if !(*func is Name) {
                lemma_expr_unredirected(*func, locals, set, hold);
            }
            assert(callee_redirected(*func, locals, set, hold) == *func);
            lemma_exprs_unredirected(args, 0, locals, set, hold);
            assert(exprs_redirected(args, 0, locals, set, hold) =~= args);
            assert(expr_redirected(expr, locals, set, hold) == expr);
        },
        ExprView::Form { form, parts } => {
            lemma_exprs_unredirected(parts, 0, locals, set, hold);
            assert(exprs_redirected(parts, 0, locals, set, hold) =~= parts);
            assert(expr_redirected(expr, locals, set, hold) == expr);
        },
        ExprView::Let { pat, expr: scrutinee } => {
            lemma_expr_unredirected(*scrutinee, locals, set, hold);
            assert(expr_redirected(expr, locals, set, hold) == expr);
        },
        ExprView::If { cond, then_branch, else_branch } => {
            let inner = with_names(locals, cond_names(*cond));
            lemma_untouched_split(
                cond_sites(*cond, locals) + block_sites(then_branch, inner),
                opt_box_sites(else_branch, locals),
                set,
            );
            lemma_untouched_split(
                cond_sites(*cond, locals),
                block_sites(then_branch, inner),
                set,
            );
            lemma_expr_unredirected(*cond, locals, set, hold);
            assert(cond_redirected(*cond, locals, set, hold) == *cond);
            lemma_block_unredirected(then_branch, inner, set, hold);
            match else_branch {
                Some(other) => {
                    assert(opt_box_sites(else_branch, locals) == expr_sites(*other, locals));
                    lemma_expr_unredirected(*other, locals, set, hold);
                    assert(opt_box_redirected(else_branch, locals, set, hold) == else_branch);
                },
                None => {
                    assert(opt_box_redirected(else_branch, locals, set, hold) == else_branch);
                },
            }
            assert(expr_redirected(expr, locals, set, hold) == expr);
        },
        ExprView::While { label, cond, body } => {
            let inner = with_names(locals, cond_names(*cond));
            lemma_untouched_split(cond_sites(*cond, locals), block_sites(body, inner), set);
            lemma_expr_unredirected(*cond, locals, set, hold);
            assert(cond_redirected(*cond, locals, set, hold) == *cond);
            lemma_block_unredirected(body, inner, set, hold);
            assert(expr_redirected(expr, locals, set, hold) == expr);
        },
        ExprView::ForLoop { label, pat, expr: iter, body } => {
            let inner = with_names(locals, pat_names(pat));
            lemma_untouched_split(expr_sites(*iter, locals), block_sites(body, inner), set);
            lemma_expr_unredirected(*iter, locals, set, hold);
            lemma_block_unredirected(body, inner, set, hold);
            assert(expr_redirected(expr, locals, set, hold) == expr);
        },
        ExprView::Loop { label, body } => {
            lemma_block_unredirected(body, locals, set, hold);
            assert(expr_redirected(expr, locals, set, hold) == expr);
        },
        ExprView::Block { label, block } => {
            lemma_block_unredirected(block, locals, set, hold);
            assert(expr_redirected(expr, locals, set, hold) == expr);
        },
        ExprView::Match { expr: scrutinee, arms } => {
            lemma_untouched_split(expr_sites(*scrutinee, locals), arms_sites(arms, 0, locals), set);
            lemma_expr_unredirected(*scrutinee, locals, set, hold);
            lemma_arms_unredirected(arms, 0, locals, set, hold);
            assert(arms_redirected(arms, 0, locals, set, hold) =~= arms);
            assert(expr_redirected(expr, locals, set, hold) == expr);
        },
        ExprView::Closure { prefix, inputs, output, expr: body } => {
            lemma_expr_unredirected(
                *body,
                with_names(locals, pats_names(inputs, inputs.len())),
                set,
                hold,
            );
            assert(expr_redirected(expr, locals, set, hold) == expr);
        },
        ExprView::Async { capture, block } => {
            lemma_block_unredirected(block, locals, set, hold);
            assert(expr_redirected(expr, locals, set, hold) == expr);
        },
        ExprView::TryBlock { block } => {
            lemma_block_unredirected(block, locals, set, hold);
            assert(expr_redirected(expr, locals, set, hold) == expr);
        },
        ExprView::Await { base } => {
            lemma_expr_unredirected(*base, locals, set, hold);
            assert(expr_redirected(expr, locals, set, hold) == expr);
        },
        ExprView::Try { expr: inner } => {
            lemma_expr_unredirected(*inner, locals, set, hold);
            assert(expr_redirected(expr, locals, set, hold) == expr);
        },
        ExprView::Break { label, value } => {
            match value {
                Some(inner) => {
                    assert(opt_box_sites(value, locals) == expr_sites(*inner, locals));
                    lemma_expr_unredirected(*inner, locals, set, hold);
                    assert(opt_box_redirected(value, locals, set, hold) == value);
                },
                None => {
                    assert(opt_box_redirected(value, locals, set, hold) == value);
                },
            }
            assert(expr_redirected(expr, locals, set, hold) == expr);
        },
        ExprView::Continue { label } => {},
        ExprView::Return { value } => {
            match value {
                Some(inner) => {
                    assert(opt_box_sites(value, locals) == expr_sites(*inner, locals));
                    lemma_expr_unredirected(*inner, locals, set, hold);
                    assert(opt_box_redirected(value, locals, set, hold) == value);
                },
                None => {
                    assert(opt_box_redirected(value, locals, set, hold) == value);
                },
            }
            assert(expr_redirected(expr, locals, set, hold) == expr);
        },
    }
}

/// Only references to shared captures change, in a list of expressions.
proof fn lemma_exprs_unredirected(
    exprs: Seq<ExprView>,
    from: nat,
    locals: Set<Name>,
    set: Seq<CaptureView>,
    hold: Name,
)
    requires
        untouched(exprs_sites(exprs, from, locals), set),
        from <= exprs.len(),
    ensures
        exprs_redirected(exprs, from, locals, set, hold) == exprs.subrange(
            from as int,
            exprs.len() as int,
        ),
    decreases exprs, exprs.len() - from,
{
    let rest = exprs.subrange(from as int, exprs.len() as int);
    if from < exprs.len() {
        lemma_untouched_split(
            expr_sites(exprs[from as int], locals),
            exprs_sites(exprs, from + 1, locals),
            set,
        );
        lemma_expr_unredirected(exprs[from as int], locals, set, hold);
        lemma_exprs_unredirected(exprs, from + 1, locals, set, hold);
        assert(exprs_redirected(exprs, from, locals, set, hold) =~= rest);
    } else {
        assert(exprs_redirected(exprs, from, locals, set, hold) =~= rest);
    }
}

/// Only references to shared captures change: a block none of whose sites
/// refers to a path of `set`, or to something below one, is left as it is.
pub proof fn lemma_block_unredirected(
    block: BlockView,
    locals: Set<Name>,
    set: Seq<CaptureView>,
    hold: Name,
)
    requires
        untouched(block_sites(block, locals), set),
    ensures
        block_redirected(block, locals, set, hold) == block,
    decreases block, 0nat,
{
    lemma_stmts_unredirected(block.stmts, 0, locals, set, hold);
    assert(block.stmts.subrange(0, block.stmts.len() as int) =~= block.stmts);
}

/// Only references to shared captures change, in the statements of a block.
proof fn lemma_stmts_unredirected(
    stmts: Seq<StmtView>,
    from: nat,
    locals: Set<Name>,
    set: Seq<CaptureView>,
    hold: Name,
)
    requires
        untouched(stmts_sites(stmts, from, locals), set),
        from <= stmts.len(),
    ensures
        stmts_redirected(stmts, from, locals, set, hold) == stmts.subrange(
            from as int,
            stmts.len() as int,
        ),
    decreases stmts, stmts.len() - from,
{
    let rest = stmts.subrange(from as int, stmts.len() as int);
    if from < stmts.len() {
        let stmt = stmts[from as int];
        let inner = with_names(locals, stmt_names(stmt));
        lemma_untouched_split(stmt_sites(stmt, locals), stmts_sites(stmts, from + 1, inner), set);
        match stmt {
            StmtView::Local { attrs, pat, init, diverge } => {
                lemma_untouched_split(opt_sites(init, locals), opt_sites(diverge, locals), set);
                match init {
                    Some(value) => {
                        lemma_expr_unredirected(value, locals, set, hold);
                    },
                    None => {},
                }
                match diverge {
                    Some(value) => {
                        lemma_expr_unredirected(value, locals, set, hold);
                    },
                    None => {},
                }
            },
            StmtView::Item(text) => {},
            StmtView::Expr { expr, semi } => {
                lemma_expr_unredirected(expr, locals, set, hold);
            },
        }
        assert(stmt_redirected(stmt, locals, set, hold) == stmt);
        lemma_stmts_unredirected(stmts, from + 1, inner, set, hold);
        assert(stmts_redirected(stmts, from, locals, set, hold) =~= rest);
    } else {
        assert(stmts_redirected(stmts, from, locals, set, hold) =~= rest);
    }
}

/// Only references to shared captures change, in the arms of a match.
proof fn lemma_arms_unredirected(
    arms: Seq<ArmView>,
    from: nat,
    locals: Set<Name>,
    set: Seq<CaptureView>,
    hold: Name,
)
    requires
        untouched(arms_sites(arms, from, locals), set),
        from <= arms.len(),
    ensures
        arms_redirected(arms, from, locals, set, hold) == arms.subrange(
            from as int,
            arms.len() as int,
        ),
    decreases arms, arms.len() - from,
{
    let rest = arms.subrange(from as int, arms.len() as int);
    if from < arms.len() {
        let arm = arms[from as int];
        let inner = with_names(locals, pat_names(arm.pat));
        lemma_untouched_split(arm_sites(arm, locals), arms_sites(arms, from + 1, locals), set);
        lemma_untouched_split(opt_sites(arm.guard, inner), expr_sites(arm.body, inner), set);
        match arm.guard {
            Some(guard) => {
                lemma_expr_unredirected(guard, inner, set, hold);
            },
            None => {},
        }
        lemma_expr_unredirected(arm.body, inner, set, hold);
        assert(arm_redirected(arm, locals, set, hold) == arm);
        lemma_arms_unredirected(arms, from + 1, locals, set, hold);
        assert(arms_redirected(arms, from, locals, set, hold) =~= rest);
    } else {
        assert(arms_redirected(arms, from, locals, set, hold) =~= rest);
    }
}

} // verus!
